use vstd::prelude::*;
use vstd::utf8::*;

verus! {

/// Number of bytes that `c` takes in UTF-8.
pub open spec fn utf8_width(c: char) -> int {
    if c <= '\u{7f}' {
        1
    } else if c <= '\u{7ff}' {
        2
    } else if c <= '\u{ffff}' {
        3
    } else {
        4
    }
}

/// Number of bytes that `s` takes in UTF-8.
pub open spec fn utf8_len(s: Seq<char>) -> int {
    encode_utf8(s).len() as int
}

/// Byte offset, within the UTF-8 encoding of `s`, at which the character
/// with index `i` starts. For `i == s.len()` this is the encoded length.
pub open spec fn byte_pos(s: Seq<char>, i: int) -> int {
    utf8_len(s.take(i))
}

/// The encoding of one character is as long as `utf8_width` says.
pub proof fn lemma_encode_scalar_len(c: char)
    ensures
        encode_scalar(c as u32).len() == utf8_width(c),
{
}

/// Encoding distributes over appending one character.
pub proof fn lemma_encode_push(s: Seq<char>, c: char)
    ensures
        encode_utf8(s.push(c)) == encode_utf8(s) + encode_scalar(c as u32),
    decreases s.len(),
{
    if s.len() == 0 {
        assert(s.push(c).drop_first() =~= s);
        assert(encode_utf8(s) =~= Seq::<u8>::empty());
        assert(encode_utf8(s.push(c)) =~= encode_scalar(c as u32) + encode_utf8(s));
        assert(encode_scalar(c as u32) + encode_utf8(s) =~= encode_utf8(s) + encode_scalar(
            c as u32,
        ));
    } else {
        lemma_encode_push(s.drop_first(), c);
        assert(s.push(c).drop_first() =~= s.drop_first().push(c));
        assert(encode_utf8(s.push(c)) =~= encode_utf8(s) + encode_scalar(c as u32));
    }
}

/// Each character moves the byte offset forward by its own width.
pub proof fn lemma_byte_pos_step(s: Seq<char>, i: int)
    requires
        0 <= i < s.len(),
    ensures
        byte_pos(s, i + 1) == byte_pos(s, i) + utf8_width(s[i]),
        byte_pos(s, 0) == 0,
{
    assert(s.take(i + 1) =~= s.take(i).push(s[i]));
    lemma_encode_push(s.take(i), s[i]);
    lemma_encode_scalar_len(s[i]);
    assert(s.take(0) =~= Seq::<char>::empty());
}

/// Number of bytes that `c` takes in UTF-8.
pub fn char_width(c: char) -> (w: usize)
    ensures
        w == utf8_width(c),
{
    if c <= '\u{7f}' {
        1
    } else if c <= '\u{7ff}' {
        2
    } else if c <= '\u{ffff}' {
        3
    } else {
        4
    }
}

/// Byte offsets never decrease along the text.
pub proof fn lemma_byte_pos_monotonic(s: Seq<char>, i: int, j: int)
    requires
        0 <= i <= j <= s.len(),
    ensures
        byte_pos(s, i) <= byte_pos(s, j),
    decreases j - i,
{
    if i < j {
        lemma_byte_pos_monotonic(s, i, j - 1);
        lemma_byte_pos_step(s, j - 1);
    }
}

/// The characters of `s`, each paired with the byte offset at which it
/// starts.
pub open spec fn spec_char_indices(s: Seq<char>) -> Seq<(usize, char)> {
    Seq::new(s.len(), |i: int| (byte_pos(s, i) as usize, s[i]))
}

/// The characters of `input`, each paired with the byte offset at which it
/// starts in `input`.
pub fn char_indices(input: &str) -> (r: Vec<(usize, char)>)
    ensures
        r@ == spec_char_indices(input@),
        utf8_len(input@) <= usize::MAX,
{
    let total = input.as_bytes().len();
    let mut out: Vec<(usize, char)> = Vec::new();
    let mut pos: usize = 0;
    proof {
        assert(input@.take(0) =~= Seq::<char>::empty());
    }
    for c in iter: input.chars()
        invariant
            iter.seq() == input@,
            total == utf8_len(input@),
            pos == byte_pos(input@, iter.index() as int),
            out@ == spec_char_indices(input@).take(iter.index() as int),
    {
        proof {
            let i = iter.index() as int;
            lemma_byte_pos_step(input@, i);
            lemma_byte_pos_monotonic(input@, i + 1, input@.len() as int);
            assert(input@.take(input@.len() as int) =~= input@);
            assert(spec_char_indices(input@).take(i + 1) =~= spec_char_indices(input@).take(
                i,
            ).push((pos, c)));
        }
        out.push((pos, c));
        pos = pos + char_width(c);
    }
    proof {
        assert(spec_char_indices(input@).take(input@.len() as int) =~= spec_char_indices(
            input@,
        ));
    }
    out
}

/// Appends `c` to `s`, through `String::push`, which puts the character
/// at the end of the string and leaves the rest as it was.
#[verifier::external_body]
pub(crate) fn push_char(s: &mut String, c: char)
    ensures
        final(s)@ == old(s)@.push(c),
{
    s.push(c);
}

/// Whether two strings hold the same characters, decided byte for byte.
pub fn str_eq(a: &str, b: &str) -> (r: bool)
    ensures
        r == (a@ == b@),
{
    let x = a.as_bytes();
    let y = b.as_bytes();
    proof {
        encode_utf8_decode_utf8(a@);
        encode_utf8_decode_utf8(b@);
    }
    if x.len() != y.len() {
        return false;
    }
    let mut i: usize = 0;
    while i < x.len()
        invariant
            i <= x@.len(),
            x@.len() == y@.len(),
            x@ == encode_utf8(a@),
            y@ == encode_utf8(b@),
            decode_utf8(x@) == a@,
            decode_utf8(y@) == b@,
            forall|k: int| 0 <= k < i ==> x@[k] == y@[k],
        decreases x@.len() - i,
    {
        if x[i] != y[i] {
            proof {
                assert(x@[i as int] != y@[i as int]);
            }
            return false;
        }
        i = i + 1;
    }
    proof {
        assert(x@ =~= y@);
    }
    true
}

/// The decimal digit for `d`.
pub open spec fn digit_char(d: int) -> char {
    (48 + d) as char
}

/// The decimal notation of `n`, without leading zeros.
pub open spec fn decimal_text(n: nat) -> Seq<char>
    decreases n,
{
    if n < 10 {
        seq![digit_char(n as int)]
    } else {
        decimal_text(n / 10).push(digit_char((n % 10) as int))
    }
}

/// Appends the decimal notation of `n` to `out`.
pub fn push_decimal(out: &mut String, n: usize)
    ensures
        final(out)@ == old(out)@ + decimal_text(n as nat),
    decreases n,
{
    if n >= 10 {
        push_decimal(out, n / 10);
    }
    let d: u8 = (n % 10) as u8;
    let c: char = (48u8 + d) as char;
    push_char(out, c);
    proof {
        assert(c == digit_char((n % 10) as int));
        assert(final(out)@ =~= old(out)@ + decimal_text(n as nat));
    }
}

} // verus!
