use questdb_confstr::peekable2::peekable2;

#[test]
fn test_peekable2() {
    let v = vec![1, 2, 3, 4, 5];
    let mut iter = peekable2(v);
    assert_eq!(iter.peek0(), Some(&1));
    assert_eq!(iter.peek1(), Some(&2));
    assert_eq!(iter.next(), Some(1));
    assert_eq!(iter.peek0(), Some(&2));
    assert_eq!(iter.peek1(), Some(&3));
    assert_eq!(iter.next(), Some(2));
    assert_eq!(iter.peek0(), Some(&3));
    assert_eq!(iter.peek1(), Some(&4));
    assert_eq!(iter.next(), Some(3));
    assert_eq!(iter.peek0(), Some(&4));
    assert_eq!(iter.peek1(), Some(&5));
    assert_eq!(iter.next(), Some(4));
    assert_eq!(iter.peek0(), Some(&5));
    assert_eq!(iter.peek1(), None);
    assert_eq!(iter.next(), Some(5));
    assert_eq!(iter.peek0(), None);
    assert_eq!(iter.peek1(), None);
    assert_eq!(iter.next(), None);
    assert_eq!(iter.peek0(), None);
    assert_eq!(iter.peek1(), None);
    assert_eq!(iter.next(), None);
    assert_eq!(iter.peek0(), None);
    assert_eq!(iter.peek1(), None);
    assert_eq!(iter.next(), None);
}
