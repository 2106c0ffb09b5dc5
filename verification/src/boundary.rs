use crate::conf_str::{ConfStr, ConfStrView};
use crate::error::{ErrorKindView, ParsingError};
use crate::grammar::spec_parse;
use crate::params::{distinct_keys, map_of, Params, Text};
use crate::parser::parse_conf_str;
use crate::text::{decimal_text, push_decimal};
use vstd::prelude::*;
use vstd::string::*;
use vstd::utf8::*;

verus! {

/// `n` is where the valid UTF-8 of `bytes` ends: the first `n` bytes are
/// valid UTF-8, and no longer prefix is.
pub open spec fn valid_up_to(bytes: Seq<u8>, n: int) -> bool {
    &&& 0 <= n < bytes.len()
    &&& valid_utf8(bytes.take(n))
    &&& forall|m: int| n < m <= bytes.len() ==> !valid_utf8(#[trigger] bytes.take(m))
}

/// Checks `bytes` with `std::str::from_utf8`. That function gives the
/// bytes back as a string slice where they are valid UTF-8, and only
/// then. Otherwise the number handed back is `Utf8Error::valid_up_to` of
/// its error: the greatest length of a prefix of `bytes` that is valid
/// UTF-8, which is the offset of the first byte that is not.
#[verifier::external_body]
fn check_utf8(bytes: &[u8]) -> (r: Result<&str, usize>)
    ensures
        match r {
            Ok(s) => valid_utf8(bytes@) && s.spec_bytes() == bytes@,
            Err(n) => !valid_utf8(bytes@) && valid_up_to(bytes@, n as int),
        },
{
    match std::str::from_utf8(bytes) {
        Ok(s) => Ok(s),
        Err(e) => Err(e.valid_up_to()),
    }
}

/// What went wrong with an input, in the form in which it is handed
/// across the boundary: a message and a byte position. The message never
/// holds a value of the configuration.
#[derive(Debug)]
pub struct ErrorRecord {
    msg: String,
    pos: usize,
}

impl View for ErrorRecord {
    type V = (Text, usize);

    closed spec fn view(&self) -> (Text, usize) {
        (self.msg@, self.pos)
    }
}

/// The record for a failure of the grammar: its message with the
/// position behind it, and the position.
pub open spec fn grammar_record(fault: (ErrorKindView, usize)) -> (Text, usize) {
    (fault.0.message() + " at position "@ + decimal_text(fault.1 as nat), fault.1)
}

/// The record for input that is not UTF-8 from byte `n` on.
pub open spec fn utf8_record(n: usize) -> (Text, usize) {
    ("invalid UTF-8 sequence at position "@ + decimal_text(n as nat), n)
}

impl ErrorRecord {
    /// The message.
    pub fn msg(&self) -> (m: &str)
        ensures
            m@ == self@.0,
    {
        self.msg.as_str()
    }

    /// The byte position in the input.
    pub fn pos(&self) -> (p: usize)
        ensures
            p == self@.1,
    {
        self.pos
    }

    /// The record for a failure of the grammar.
    pub fn from_parsing_error(err: &ParsingError) -> (r: ErrorRecord)
        ensures
            r@ == grammar_record(err@),
    {
        ErrorRecord { msg: err.to_string(), pos: err.position() }
    }

    /// The record for input whose byte `first_bad_byte` is where it stops
    /// being UTF-8.
    pub fn invalid_utf8(first_bad_byte: usize) -> (r: ErrorRecord)
        ensures
            r@ == utf8_record(first_bad_byte),
    {
        let mut msg = String::from_str("invalid UTF-8 sequence at position ");
        push_decimal(&mut msg, first_bad_byte);
        ErrorRecord { msg, pos: first_bad_byte }
    }
}

/// What parsing the bytes `input` gives: where they are UTF-8, what
/// parsing their text gives, with a failure turned into its record;
/// where they are not, the record that says where they stop being UTF-8.
pub open spec fn parse_outcome(input: Seq<u8>, r: Result<ConfStrView, (Text, usize)>) -> bool {
    if valid_utf8(input) {
        match (r, spec_parse(decode_utf8(input))) {
            (Ok(conf), Ok(model)) => conf == model,
            (Err(record), Err(fault)) => record == grammar_record(fault),
            _ => false,
        }
    } else {
        match r {
            Ok(_) => false,
            Err(record) => valid_up_to(input, record.1 as int) && record == utf8_record(record.1),
        }
    }
}

/// A parsed configuration string, as it is handed across the boundary.
#[allow(non_camel_case_types)]
#[derive(Debug)]
pub struct questdb_conf_str {
    inner: ConfStr,
}

impl View for questdb_conf_str {
    type V = ConfStrView;

    closed spec fn view(&self) -> ConfStrView {
        self.inner@
    }
}

/// A walk over the pairs of a parsed configuration string, each pair
/// once. It borrows the configuration and leaves it as it is, so several
/// walks over one configuration do not disturb each other.
#[allow(non_camel_case_types)]
pub struct questdb_conf_str_iter<'a> {
    params: &'a Params,
    next: usize,
}

impl<'a> questdb_conf_str_iter<'a> {
    /// The walk never stands behind the last pair.
    #[verifier::type_invariant]
    pub closed spec fn wf(&self) -> bool {
        self.next <= self.params.pairs().len()
    }

    /// The pairs that the walk has not handed out yet, in the order in
    /// which it will.
    pub closed spec fn view(&self) -> Seq<(Text, Text)> {
        self.params.pairs().skip(self.next as int)
    }

    /// Hands out the next pair, if one is left.
    pub fn next(&mut self) -> (r: Option<(&'a str, &'a str)>)
        ensures
            match r {
                Some(pair) => {
                    &&& old(self)@.len() > 0
                    &&& (pair.0@, pair.1@) == old(self)@[0]
                    &&& final(self)@ == old(self)@.drop_first()
                },
                None => old(self)@.len() == 0 && final(self)@ == old(self)@,
            },
    {
        proof {
            use_type_invariant(&*self);
        }
        let params: &'a Params = self.params;
        if self.next < params.len() {
            let pair = params.entry(self.next);
            proof {
                assert(params.pairs().skip(self.next as int).drop_first() =~= params.pairs().skip(
                    self.next as int + 1,
                ));
            }
            self.next = self.next + 1;
            Some(pair)
        } else {
            None
        }
    }
}

impl questdb_conf_str {
    /// The pairs of the configuration, in the order in which a walk hands
    /// them out.
    pub closed spec fn pairs(&self) -> Seq<(Text, Text)> {
        self.inner.params_model().pairs()
    }

    /// Turns what validating the input as UTF-8 gave into the result of
    /// parsing it: text is parsed, and input that is not UTF-8 gives the
    /// record for that, with the offset of the first bad byte.
    pub fn from_checked(checked: Result<&str, usize>) -> (r: Result<questdb_conf_str, ErrorRecord>)
        ensures
            match checked {
                Ok(s) => match (r, spec_parse(s@)) {
                    (Ok(conf), Ok(model)) => conf@ == model,
                    (Err(record), Err(fault)) => record@ == grammar_record(fault),
                    _ => false,
                },
                Err(n) => match r {
                    Ok(_) => false,
                    Err(record) => record@ == utf8_record(n),
                },
            },
    {
        match checked {
            Ok(s) => match parse_conf_str(s) {
                Ok(inner) => Ok(questdb_conf_str { inner }),
                Err(err) => Err(ErrorRecord::from_parsing_error(&err)),
            },
            Err(n) => Err(ErrorRecord::invalid_utf8(n)),
        }
    }

    /// Parses the bytes of a configuration string. Bytes that are not
    /// UTF-8 are not parsed: they give a record of their own.
    pub fn parse(input: &[u8]) -> (r: Result<questdb_conf_str, ErrorRecord>)
        ensures
            parse_outcome(
                input@,
                match r {
                    Ok(conf) => Ok(conf@),
                    Err(record) => Err(record@),
                },
            ),
    {
        let checked = check_utf8(input);
        proof {
            if let Ok(s) = checked {
                encode_utf8_decode_utf8(s@);
            }
        }
        Self::from_checked(checked)
    }

    /// The service name.
    pub fn service(&self) -> (s: &str)
        ensures
            s@ == self@.service,
    {
        self.inner.service()
    }

    /// Looks a key up, from what validating the key's bytes as UTF-8
    /// gave: a key that is not UTF-8 is not found.
    pub fn get_checked(&self, key: Result<&str, usize>) -> (r: Option<&str>)
        ensures
            match r {
                Some(v) => key matches Ok(k) && self@.params.contains_key(k@) && v@
                    == self@.params[k@],
                None => key matches Ok(k) ==> !self@.params.contains_key(k@),
            },
    {
        match key {
            Ok(k) => self.inner.get(k),
            Err(_) => None,
        }
    }

    /// Looks a key up by its bytes, which are compared as they are. A key
    /// that is not UTF-8 is not found.
    pub fn get(&self, key: &[u8]) -> (r: Option<&str>)
        ensures
            match r {
                Some(v) => valid_utf8(key@) && self@.params.contains_key(decode_utf8(key@)) && v@
                    == self@.params[decode_utf8(key@)],
                None => valid_utf8(key@) ==> !self@.params.contains_key(decode_utf8(key@)),
            },
    {
        let checked = check_utf8(key);
        proof {
            if let Ok(k) = checked {
                encode_utf8_decode_utf8(k@);
            }
        }
        self.get_checked(checked)
    }

    /// Starts a walk over the pairs.
    pub fn iter_pairs(&self) -> (it: questdb_conf_str_iter<'_>)
        ensures
            it@ == self.pairs(),
            distinct_keys(self.pairs()),
            map_of(self.pairs()) == self@.params,
    {
        let params = self.inner.params();
        proof {
            use_type_invariant(params);
            params.lemma_pairs();
            assert(params.pairs().skip(0) =~= params.pairs());
        }
        questdb_conf_str_iter { params, next: 0 }
    }
}

} // verus!
