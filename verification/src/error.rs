use crate::text::{decimal_text, push_decimal, str_eq};
use vstd::prelude::*;
use vstd::std_specs::cmp::PartialEqSpecImpl;
use vstd::string::*;

verus! {

/// Byte position in the input string where the parsing error occurred.
pub type Position = usize;

/// The type of parsing error.
#[derive(Debug, Eq)]
pub enum ErrorKind {
    ExpectedIdentifierNot(char),
    MustBeAlphanumeric(char),
    ExpectedIdentifierNotEmpty,
    BadSeparator((char, char)),
    IncompleteKeyValue,
    InvalidCharInValue(char),
    DuplicateKey(String),
}

/// What an `ErrorKind` stands for, with the duplicated key as a sequence
/// of characters.
pub enum ErrorKindView {
    ExpectedIdentifierNot(char),
    MustBeAlphanumeric(char),
    ExpectedIdentifierNotEmpty,
    BadSeparator((char, char)),
    IncompleteKeyValue,
    InvalidCharInValue(char),
    DuplicateKey(Seq<char>),
}

impl View for ErrorKind {
    type V = ErrorKindView;

    open spec fn view(&self) -> ErrorKindView {
        match self {
            ErrorKind::ExpectedIdentifierNot(c) => ErrorKindView::ExpectedIdentifierNot(*c),
            ErrorKind::MustBeAlphanumeric(c) => ErrorKindView::MustBeAlphanumeric(*c),
            ErrorKind::ExpectedIdentifierNotEmpty => ErrorKindView::ExpectedIdentifierNotEmpty,
            ErrorKind::BadSeparator(p) => ErrorKindView::BadSeparator(*p),
            ErrorKind::IncompleteKeyValue => ErrorKindView::IncompleteKeyValue,
            ErrorKind::InvalidCharInValue(c) => ErrorKindView::InvalidCharInValue(*c),
            ErrorKind::DuplicateKey(s) => ErrorKindView::DuplicateKey(s@),
        }
    }
}

impl Clone for ErrorKind {
    fn clone(&self) -> (r: Self)
        ensures
            r == *self,
    {
        match self {
            ErrorKind::ExpectedIdentifierNot(c) => ErrorKind::ExpectedIdentifierNot(*c),
            ErrorKind::MustBeAlphanumeric(c) => ErrorKind::MustBeAlphanumeric(*c),
            ErrorKind::ExpectedIdentifierNotEmpty => ErrorKind::ExpectedIdentifierNotEmpty,
            ErrorKind::BadSeparator(p) => ErrorKind::BadSeparator((p.0, p.1)),
            ErrorKind::IncompleteKeyValue => ErrorKind::IncompleteKeyValue,
            ErrorKind::InvalidCharInValue(c) => ErrorKind::InvalidCharInValue(*c),
            ErrorKind::DuplicateKey(s) => ErrorKind::DuplicateKey(s.clone()),
        }
    }
}

impl PartialEq for ErrorKind {
    fn eq(&self, other: &ErrorKind) -> (r: bool) {
        match (self, other) {
            (ErrorKind::ExpectedIdentifierNot(a), ErrorKind::ExpectedIdentifierNot(b)) => *a == *b,
            (ErrorKind::MustBeAlphanumeric(a), ErrorKind::MustBeAlphanumeric(b)) => *a == *b,
            (ErrorKind::ExpectedIdentifierNotEmpty, ErrorKind::ExpectedIdentifierNotEmpty) => true,
            (ErrorKind::BadSeparator(a), ErrorKind::BadSeparator(b)) => a.0 == b.0 && a.1 == b.1,
            (ErrorKind::IncompleteKeyValue, ErrorKind::IncompleteKeyValue) => true,
            (ErrorKind::InvalidCharInValue(a), ErrorKind::InvalidCharInValue(b)) => *a == *b,
            (ErrorKind::DuplicateKey(a), ErrorKind::DuplicateKey(b)) => str_eq(
                a.as_str(),
                b.as_str(),
            ),
            _ => false,
        }
    }
}

impl PartialEqSpecImpl for ErrorKind {
    open spec fn obeys_eq_spec() -> bool {
        true
    }

    open spec fn eq_spec(&self, other: &ErrorKind) -> bool {
        self@ == other@
    }
}

impl<'a> PartialEq<&'a ErrorKind> for ErrorKind {
    fn eq(&self, other: &&'a ErrorKind) -> (r: bool) {
        self.eq(*other)
    }
}

impl<'a> PartialEqSpecImpl<&'a ErrorKind> for ErrorKind {
    open spec fn obeys_eq_spec() -> bool {
        true
    }

    open spec fn eq_spec(&self, other: &&'a ErrorKind) -> bool {
        self@ == (*other)@
    }
}

impl PartialEq<ErrorKind> for &ErrorKind {
    fn eq(&self, other: &ErrorKind) -> (r: bool) {
        (*self).eq(other)
    }
}

impl PartialEqSpecImpl<ErrorKind> for &ErrorKind {
    open spec fn obeys_eq_spec() -> bool {
        true
    }

    open spec fn eq_spec(&self, other: &ErrorKind) -> bool {
        (*self)@ == other@
    }
}

/// The text that `{:?}` formatting gives for a character: the character
/// between single quotes, escaped where it is not printable.
pub uninterp spec fn char_debug_text(c: char) -> Seq<char>;

/// The text that `{:?}` formatting gives for a string: the string between
/// double quotes, escaped where a character is not printable.
pub uninterp spec fn str_debug_text(s: Seq<char>) -> Seq<char>;

/// Formats `c` with `format!("{:?}", ..)`, that is through the `Debug`
/// impl of `char`. The result depends on `c` alone and is named by
/// `char_debug_text`; nothing else is claimed of it.
#[verifier::external_body]
pub(crate) fn debug_char(c: char) -> (r: String)
    ensures
        r@ == char_debug_text(c),
{
    format!("{:?}", c)
}

/// Formats `s` with `format!("{:?}", ..)`, that is through the `Debug`
/// impl of `str`. The result depends on the characters of `s` alone and is
/// named by `str_debug_text`; nothing else is claimed of it.
#[verifier::external_body]
pub(crate) fn debug_str(s: &str) -> (r: String)
    ensures
        r@ == str_debug_text(s@),
{
    format!("{:?}", s)
}

impl ErrorKindView {
    /// The message for this kind of error, built around the quoted forms
    /// `first` and `second` of what the kind carries. Kinds that carry
    /// less leave the spare arguments unused.
    pub open spec fn message_with(self, first: Seq<char>, second: Seq<char>) -> Seq<char> {
        match self {
            ErrorKindView::ExpectedIdentifierNot(_) => {
                "expected identifier to start with ascii letter, not "@ + first
            },
            ErrorKindView::MustBeAlphanumeric(_) => "must be alphanumeric, not "@ + first,
            ErrorKindView::ExpectedIdentifierNotEmpty => {
                "expected identifier, not an empty string"@
            },
            ErrorKindView::BadSeparator(_) => {
                "bad separator, expected "@ + first + " got "@ + second
            },
            ErrorKindView::IncompleteKeyValue => {
                "incomplete key-value pair before end of input"@
            },
            ErrorKindView::InvalidCharInValue(_) => "invalid char "@ + first + " in value"@,
            ErrorKindView::DuplicateKey(_) => "duplicate key "@ + first,
        }
    }

    /// The quoted form of the first thing that this kind carries, empty
    /// where it carries nothing.
    pub open spec fn first_quoted(self) -> Seq<char> {
        match self {
            ErrorKindView::ExpectedIdentifierNot(c) => char_debug_text(c),
            ErrorKindView::MustBeAlphanumeric(c) => char_debug_text(c),
            ErrorKindView::ExpectedIdentifierNotEmpty => Seq::empty(),
            ErrorKindView::BadSeparator(p) => char_debug_text(p.0),
            ErrorKindView::IncompleteKeyValue => Seq::empty(),
            ErrorKindView::InvalidCharInValue(c) => char_debug_text(c),
            ErrorKindView::DuplicateKey(s) => str_debug_text(s),
        }
    }

    /// The quoted form of the second thing that this kind carries, empty
    /// where there is none.
    pub open spec fn second_quoted(self) -> Seq<char> {
        match self {
            ErrorKindView::BadSeparator(p) => char_debug_text(p.1),
            _ => Seq::empty(),
        }
    }

    /// The message for this kind of error. It never holds a value of the
    /// configuration: only characters that broke the grammar, or a key.
    pub open spec fn message(self) -> Seq<char> {
        self.message_with(self.first_quoted(), self.second_quoted())
    }
}

impl ErrorKind {
    /// Builds the message for this kind around the quoted forms `first`
    /// and `second` of what it carries.
    pub fn message_with(&self, first: &str, second: &str) -> (r: String)
        ensures
            r@ == self@.message_with(first@, second@),
    {
        match self {
            ErrorKind::ExpectedIdentifierNot(_) => {
                let mut m = String::from_str(
                    "expected identifier to start with ascii letter, not ",
                );
                m.append(first);
                m
            },
            ErrorKind::MustBeAlphanumeric(_) => {
                let mut m = String::from_str("must be alphanumeric, not ");
                m.append(first);
                m
            },
            ErrorKind::ExpectedIdentifierNotEmpty => {
                String::from_str("expected identifier, not an empty string")
            },
            ErrorKind::BadSeparator(_) => {
                let mut m = String::from_str("bad separator, expected ");
                m.append(first);
                m.append(" got ");
                m.append(second);
                m
            },
            ErrorKind::IncompleteKeyValue => {
                String::from_str("incomplete key-value pair before end of input")
            },
            ErrorKind::InvalidCharInValue(_) => {
                let mut m = String::from_str("invalid char ");
                m.append(first);
                m.append(" in value");
                m
            },
            ErrorKind::DuplicateKey(_) => {
                let mut m = String::from_str("duplicate key ");
                m.append(first);
                m
            },
        }
    }

    /// The message for this kind of error.
    pub fn to_string(&self) -> (r: String)
        ensures
            r@ == self@.message(),
    {
        let empty = String::new();
        match self {
            ErrorKind::ExpectedIdentifierNot(c) => {
                let q = debug_char(*c);
                self.message_with(q.as_str(), empty.as_str())
            },
            ErrorKind::MustBeAlphanumeric(c) => {
                let q = debug_char(*c);
                self.message_with(q.as_str(), empty.as_str())
            },
            ErrorKind::ExpectedIdentifierNotEmpty => {
                self.message_with(empty.as_str(), empty.as_str())
            },
            ErrorKind::BadSeparator(p) => {
                let q0 = debug_char(p.0);
                let q1 = debug_char(p.1);
                self.message_with(q0.as_str(), q1.as_str())
            },
            ErrorKind::IncompleteKeyValue => self.message_with(empty.as_str(), empty.as_str()),
            ErrorKind::InvalidCharInValue(c) => {
                let q = debug_char(*c);
                self.message_with(q.as_str(), empty.as_str())
            },
            ErrorKind::DuplicateKey(s) => {
                let q = debug_str(s.as_str());
                self.message_with(q.as_str(), empty.as_str())
            },
        }
    }
}

/// The parsing error.
#[derive(Debug)]
pub struct ParsingError {
    kind: ErrorKind,
    position: usize,
}

impl View for ParsingError {
    type V = (ErrorKindView, usize);

    closed spec fn view(&self) -> (ErrorKindView, usize) {
        (self.kind@, self.position)
    }
}

impl ParsingError {
    /// Access the byte position in the input string where the parsing error occurred.
    pub fn position(&self) -> (p: usize)
        ensures
            p == self@.1,
    {
        self.position
    }

    /// Access the type of parsing error.
    pub fn kind(&self) -> (k: &ErrorKind)
        ensures
            k@ == self@.0,
    {
        &self.kind
    }

    /// Puts the position behind a message: `" at position "` and the
    /// position in decimal.
    pub fn to_string(&self) -> (r: String)
        ensures
            r@ == self@.0.message() + " at position "@ + decimal_text(self@.1 as nat),
    {
        let mut m = self.kind.to_string();
        m.append(" at position ");
        push_decimal(&mut m, self.position);
        m
    }
}

/// An error of the given kind at the given byte position.
pub fn parse_err(kind: ErrorKind, position: Position) -> (e: ParsingError)
    ensures
        e@ == (kind@, position),
{
    ParsingError { kind, position }
}

} // verus!
