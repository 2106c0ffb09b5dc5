use questdb_confstr::boundary::{questdb_conf_str, ErrorRecord};
use questdb_confstr::error::parse_err;
use questdb_confstr::ErrorKind;

#[test]
fn bytes_of_a_configuration_string_are_parsed() {
    let conf = questdb_conf_str::parse(b"http::host=localhost;port=9000;").unwrap();
    assert_eq!(conf.service(), "http");
    assert_eq!(conf.get(b"host"), Some("localhost"));
    assert_eq!(conf.get(b"port"), Some("9000"));
    assert_eq!(conf.get(b"Port"), None);
    assert_eq!(conf.get(b""), None);
}

#[test]
fn bytes_of_unicode_text_are_parsed() {
    let conf = questdb_conf_str::parse("http::x=協定;".as_bytes()).unwrap();
    assert_eq!(conf.service(), "http");
    assert_eq!(conf.get(b"x"), Some("協定"));
}

#[test]
fn grammar_errors_become_records() {
    let err = questdb_conf_str::parse(b"http::host").unwrap_err();
    assert_eq!(
        err.msg(),
        "incomplete key-value pair before end of input at position 10"
    );
    assert_eq!(err.pos(), 10);
    let err = questdb_conf_str::parse(b"").unwrap_err();
    assert_eq!(err.msg(), "expected identifier, not an empty string at position 0");
    assert_eq!(err.pos(), 0);
    let err = questdb_conf_str::parse("p::n=静;:=42;".as_bytes()).unwrap_err();
    assert_eq!(
        err.msg(),
        "expected identifier to start with ascii letter, not ':' at position 9"
    );
    assert_eq!(err.pos(), 9);
}

#[test]
fn invalid_utf8_is_reported_at_the_first_bad_byte() {
    let err = questdb_conf_str::parse(b"http::host=\xff;").unwrap_err();
    assert_eq!(err.msg(), "invalid UTF-8 sequence at position 11");
    assert_eq!(err.pos(), 11);
    let err = questdb_conf_str::parse(b"\x80").unwrap_err();
    assert_eq!(err.msg(), "invalid UTF-8 sequence at position 0");
    assert_eq!(err.pos(), 0);
}

#[test]
fn truncated_utf8_is_reported_where_the_character_starts() {
    let err = questdb_conf_str::parse(b"a::b=\xe9\x9d").unwrap_err();
    assert_eq!(err.msg(), "invalid UTF-8 sequence at position 5");
    assert_eq!(err.pos(), 5);
}

#[test]
fn invalid_utf8_wins_over_grammar_errors() {
    let err = questdb_conf_str::parse(b"::\xc3\x28").unwrap_err();
    assert_eq!(err.msg(), "invalid UTF-8 sequence at position 2");
    assert_eq!(err.pos(), 2);
}

#[test]
fn from_checked_maps_both_outcomes() {
    let conf = questdb_conf_str::from_checked(Ok("s::k=v")).unwrap();
    assert_eq!(conf.service(), "s");
    assert_eq!(conf.get(b"k"), Some("v"));
    let err = questdb_conf_str::from_checked(Ok("s::k")).unwrap_err();
    assert_eq!(err.pos(), 4);
    assert_eq!(
        err.msg(),
        "incomplete key-value pair before end of input at position 4"
    );
    let err = questdb_conf_str::from_checked(Err(7)).unwrap_err();
    assert_eq!(err.pos(), 7);
    assert_eq!(err.msg(), "invalid UTF-8 sequence at position 7");
}

#[test]
fn records_are_built_from_errors() {
    let record = ErrorRecord::from_parsing_error(&parse_err(ErrorKind::BadSeparator(('=', ';')), 29));
    assert_eq!(record.msg(), "bad separator, expected '=' got ';' at position 29");
    assert_eq!(record.pos(), 29);
    let record = ErrorRecord::invalid_utf8(120);
    assert_eq!(record.msg(), "invalid UTF-8 sequence at position 120");
    assert_eq!(record.pos(), 120);
}

#[test]
fn key_that_is_not_utf8_is_not_found() {
    let conf = questdb_conf_str::parse(b"http::host=localhost;").unwrap();
    assert_eq!(conf.get(b"host"), Some("localhost"));
    assert_eq!(conf.get(b"ho\xffst"), None);
    assert_eq!(conf.get(b"\xc3"), None);
    assert_eq!(conf.get_checked(Err(0)), None);
    assert_eq!(conf.get_checked(Ok("host")), Some("localhost"));
    assert_eq!(conf.get_checked(Ok("nope")), None);
}

#[test]
fn walk_hands_out_every_pair_once() {
    let conf = questdb_conf_str::parse(b"s::b=2;a=1;c=x;;y;").unwrap();
    let mut iter = conf.iter_pairs();
    assert_eq!(iter.next(), Some(("b", "2")));
    assert_eq!(iter.next(), Some(("a", "1")));
    assert_eq!(iter.next(), Some(("c", "x;y")));
    assert_eq!(iter.next(), None);
    assert_eq!(iter.next(), None);
}

#[test]
fn walk_over_no_pairs_ends_at_once() {
    let conf = questdb_conf_str::parse(b"https").unwrap();
    let mut iter = conf.iter_pairs();
    assert_eq!(iter.next(), None);
    let conf = questdb_conf_str::parse(b"https::").unwrap();
    let mut iter = conf.iter_pairs();
    assert_eq!(iter.next(), None);
}

#[test]
fn walks_do_not_disturb_each_other() {
    let conf = questdb_conf_str::parse(b"s::a=1;b=2;").unwrap();
    let mut first = conf.iter_pairs();
    let mut second = conf.iter_pairs();
    assert_eq!(first.next(), Some(("a", "1")));
    assert_eq!(conf.get(b"b"), Some("2"));
    assert_eq!(second.next(), Some(("a", "1")));
    assert_eq!(second.next(), Some(("b", "2")));
    assert_eq!(first.next(), Some(("b", "2")));
    assert_eq!(second.next(), None);
    assert_eq!(first.next(), None);
    assert_eq!(conf.service(), "s");
}
