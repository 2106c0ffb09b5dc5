use questdb_confstr::error::parse_err;
use questdb_confstr::{parse_conf_str, ErrorKind};

#[test]
fn messages_of_all_kinds() {
    assert_eq!(
        ErrorKind::ExpectedIdentifierNot('=').to_string(),
        "expected identifier to start with ascii letter, not '='"
    );
    assert_eq!(
        ErrorKind::MustBeAlphanumeric(' ').to_string(),
        "must be alphanumeric, not ' '"
    );
    assert_eq!(
        ErrorKind::ExpectedIdentifierNotEmpty.to_string(),
        "expected identifier, not an empty string"
    );
    assert_eq!(
        ErrorKind::BadSeparator((':', '/')).to_string(),
        "bad separator, expected ':' got '/'"
    );
    assert_eq!(
        ErrorKind::IncompleteKeyValue.to_string(),
        "incomplete key-value pair before end of input"
    );
    assert_eq!(
        ErrorKind::InvalidCharInValue('\n').to_string(),
        "invalid char '\\n' in value"
    );
    assert_eq!(
        ErrorKind::DuplicateKey("host".to_string()).to_string(),
        "duplicate key \"host\""
    );
}

#[test]
fn message_is_built_around_the_quoted_forms() {
    assert_eq!(
        ErrorKind::BadSeparator(('=', ';')).message_with("<a>", "<b>"),
        "bad separator, expected <a> got <b>"
    );
    assert_eq!(
        ErrorKind::InvalidCharInValue('x').message_with("<a>", "<b>"),
        "invalid char <a> in value"
    );
    assert_eq!(
        ErrorKind::DuplicateKey("k".to_string()).message_with("<a>", "<b>"),
        "duplicate key <a>"
    );
    assert_eq!(
        ErrorKind::MustBeAlphanumeric('x').message_with("<a>", "<b>"),
        "must be alphanumeric, not <a>"
    );
    assert_eq!(
        ErrorKind::ExpectedIdentifierNot('x').message_with("<a>", "<b>"),
        "expected identifier to start with ascii letter, not <a>"
    );
    assert_eq!(
        ErrorKind::ExpectedIdentifierNotEmpty.message_with("<a>", "<b>"),
        "expected identifier, not an empty string"
    );
    assert_eq!(
        ErrorKind::IncompleteKeyValue.message_with("<a>", "<b>"),
        "incomplete key-value pair before end of input"
    );
}

#[test]
fn characters_are_quoted_and_escaped_in_messages() {
    assert_eq!(
        ErrorKind::InvalidCharInValue('\0').to_string(),
        "invalid char '\\0' in value"
    );
    assert_eq!(
        ErrorKind::InvalidCharInValue('\u{7f}').to_string(),
        "invalid char '\\u{7f}' in value"
    );
    assert_eq!(
        ErrorKind::MustBeAlphanumeric('協').to_string(),
        "must be alphanumeric, not '協'"
    );
    assert_eq!(
        ErrorKind::ExpectedIdentifierNot('\'').to_string(),
        "expected identifier to start with ascii letter, not '\\''"
    );
}

#[test]
fn parsing_error_puts_the_position_behind_the_message() {
    let err = parse_err(ErrorKind::IncompleteKeyValue, 0);
    assert_eq!(err.position(), 0);
    assert_eq!(err.kind().clone(), ErrorKind::IncompleteKeyValue);
    assert_eq!(
        err.to_string(),
        "incomplete key-value pair before end of input at position 0"
    );
    let err = parse_err(ErrorKind::BadSeparator(('=', ':')), 1234);
    assert_eq!(err.position(), 1234);
    assert_eq!(
        err.to_string(),
        "bad separator, expected '=' got ':' at position 1234"
    );
}

#[test]
fn kinds_are_equal_when_they_carry_the_same() {
    assert_eq!(ErrorKind::IncompleteKeyValue, ErrorKind::IncompleteKeyValue);
    assert_ne!(ErrorKind::IncompleteKeyValue, ErrorKind::ExpectedIdentifierNotEmpty);
    assert_eq!(ErrorKind::BadSeparator((':', ';')), ErrorKind::BadSeparator((':', ';')));
    assert_ne!(ErrorKind::BadSeparator((':', ';')), ErrorKind::BadSeparator(('=', ';')));
    assert_ne!(ErrorKind::BadSeparator((':', ';')), ErrorKind::BadSeparator((':', '/')));
    assert_ne!(ErrorKind::MustBeAlphanumeric('a'), ErrorKind::ExpectedIdentifierNot('a'));
    assert_ne!(ErrorKind::MustBeAlphanumeric('a'), ErrorKind::MustBeAlphanumeric('b'));
    assert_ne!(ErrorKind::InvalidCharInValue('a'), ErrorKind::MustBeAlphanumeric('a'));
    assert_eq!(
        ErrorKind::DuplicateKey("host".to_string()),
        ErrorKind::DuplicateKey("host".to_string())
    );
    assert_ne!(
        ErrorKind::DuplicateKey("host".to_string()),
        ErrorKind::DuplicateKey("Host".to_string())
    );
}

#[test]
fn kinds_compare_through_references() {
    let kind = ErrorKind::DuplicateKey("k".to_string());
    let same = ErrorKind::DuplicateKey("k".to_string());
    assert!(&kind == same);
    assert!(kind == &same);
    assert!(!(&kind == ErrorKind::IncompleteKeyValue));
    assert!(!(kind == &ErrorKind::IncompleteKeyValue));
}

#[test]
fn clone_keeps_the_kind() {
    let kinds = [
        ErrorKind::ExpectedIdentifierNot('a'),
        ErrorKind::MustBeAlphanumeric('b'),
        ErrorKind::ExpectedIdentifierNotEmpty,
        ErrorKind::BadSeparator(('c', 'd')),
        ErrorKind::IncompleteKeyValue,
        ErrorKind::InvalidCharInValue('e'),
        ErrorKind::DuplicateKey("key".to_string()),
    ];
    for kind in kinds {
        assert_eq!(kind.clone(), kind);
    }
}

#[test]
fn error_messages_hold_no_value() {
    let err = parse_conf_str("pg::password=hunter2;user=joe;password=again;").unwrap_err();
    let message = err.to_string();
    assert_eq!(message, "duplicate key \"password\" at position 30");
    assert!(!message.contains("hunter2"));
    let err = parse_conf_str("pg::password=hunter2\n;").unwrap_err();
    let message = err.to_string();
    assert_eq!(message, "invalid char '\\n' in value at position 20");
    assert!(!message.contains("hunter2"));
}
