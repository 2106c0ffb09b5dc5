use crate::conf_str::ConfStr;
use crate::error::{parse_err, ErrorKind, ErrorKindView, ParsingError, Position};
use crate::grammar::{
    breaks_ident, chars_of, entry_len, ident_run, is_control, is_ident_char, is_structural,
    lemma_ident_run_bound,
    lemma_ident_run_split, lemma_value_stop, prepend, spec_double_colon, spec_ident, spec_params,
    spec_parse, spec_value, value_run, Fault, Token,
};
use crate::params::{map_of, Key, Params, Text, Value};
use crate::peekable2::{peekable2, Peekable2};
use crate::text::{char_indices, push_char};
use vstd::prelude::*;

verus! {

/// Whether `c` is an ASCII letter, an ASCII digit or the underscore.
pub fn ident_char(c: char) -> (b: bool)
    ensures
        b == is_ident_char(c),
{
    ('0' <= c && c <= '9') || ('a' <= c && c <= 'z') || ('A' <= c && c <= 'Z') || c == '_'
}

/// Whether `c` is one of `:`, `=` and `;`.
pub fn structural_char(c: char) -> (b: bool)
    ensures
        b == is_structural(c),
{
    c == ':' || c == '=' || c == ';'
}

/// Whether `c` may not stand directly behind an identifier: the space and
/// everything above it that is neither an identifier character nor
/// structural.
pub fn ident_breaker(c: char) -> (b: bool)
    ensures
        b == breaks_ident(c),
{
    c >= ' ' && !ident_char(c) && !structural_char(c)
}

/// Whether `c` is a control character.
pub fn control_char(c: char) -> (b: bool)
    ensures
        b == is_control(c),
{
    c <= '\u{1f}' || ('\u{7f}' <= c && c <= '\u{9f}')
}

/// Reads an identifier from the front of `iter`. `at` is the position to
/// report where nothing is left to read. Only the identifier characters
/// at the front are taken from `iter`, on success and on failure alike:
/// the character that ends or breaks the identifier stays.
pub fn parse_ident(iter: &mut Peekable2<Token>, at: Position) -> (r: Result<Key, ParsingError>)
    ensures
        match (r, spec_ident(old(iter)@, at)) {
            (Ok(key), Ok((text, n))) => key@ == text && n == ident_run(old(iter)@),
            (Err(e), Err(f)) => e@ == f,
            _ => false,
        },
        ident_run(old(iter)@) <= old(iter)@.len(),
        final(iter)@ == old(iter)@.skip(ident_run(old(iter)@) as int),
{
    let ghost orig = iter@;
    let ghost mut k: int = 0;
    let mut token = String::new();
    proof {
        assert(orig.skip(0) =~= orig);
        assert(chars_of(orig.take(0)) =~= Seq::<char>::empty());
    }
    loop
        invariant
            orig == old(iter)@,
            0 <= k <= orig.len(),
            iter@ == orig.skip(k),
            token@ == chars_of(orig.take(k)),
            forall|j: int| 0 <= j < k ==> is_ident_char(#[trigger] orig[j].1),
        decreases orig.len() - k,
    {
        proof {
            lemma_ident_run_split(orig, k);
            lemma_ident_run_bound(orig);
        }
        match iter.peek0() {
            Some(t) => {
                let pos = t.0;
                let c = t.1;
                assert(orig.skip(k)[0] == orig[k]);
                if ident_char(c) {
                    push_char(&mut token, c);
                    iter.next();
                    proof {
                        assert(orig.skip(k).drop_first() =~= orig.skip(k + 1));
                        assert(chars_of(orig.take(k + 1)) =~= chars_of(orig.take(k)).push(c));
                        k = k + 1;
                    }
                } else if token.as_str().is_empty() {
                    proof {
                        assert(k == 0) by {
                            if k > 0 {
                                assert(chars_of(orig.take(k)).len() > 0);
                            }
                        }
                    }
                    return Err(parse_err(ErrorKind::ExpectedIdentifierNot(c), pos));
                } else if ident_breaker(c) {
                    return Err(parse_err(ErrorKind::MustBeAlphanumeric(c), pos));
                } else {
                    return Ok(token);
                }
            },
            None => {
                proof {
                    assert(k == orig.len());
                    assert(orig.take(k) =~= orig);
                }
                if token.as_str().is_empty() {
                    return Err(parse_err(ErrorKind::ExpectedIdentifierNotEmpty, at));
                }
                return Ok(token);
            },
        }
    }
}

/// Putting two prefixes in front, one after the other, is putting their
/// concatenation in front.
proof fn lemma_prepend_twice(a: Text, i: nat, b: Text, j: nat, r: Result<(Text, nat), Fault>)
    ensures
        prepend(a, i, prepend(b, j, r)) == prepend(a + b, i + j, r),
{
    match r {
        Ok((v, n)) => {
            assert(a + (b + v) =~= (a + b) + v);
        },
        Err(_) => {},
    }
}

/// Reads a value from the front of `iter`, up to the `;` that closes it
/// or to the end of the input. The closing `;` stays in `iter`. Where a
/// control character stops the reading, that character stays in `iter`
/// too, and is the one that the error names.
pub fn parse_value(iter: &mut Peekable2<Token>) -> (r: Result<Value, ParsingError>)
    ensures
        match (r, spec_value(old(iter)@)) {
            (Ok(value), Ok((text, n))) => value@ == text && n == value_run(old(iter)@),
            (Err(e), Err(f)) => e@ == f,
            _ => false,
        },
        value_run(old(iter)@) <= old(iter)@.len(),
        final(iter)@ == old(iter)@.skip(value_run(old(iter)@) as int),
        r matches Err(e) ==> {
            &&& final(iter)@.len() > 0
            &&& is_control(final(iter)@[0].1)
            &&& e@ == (ErrorKindView::InvalidCharInValue(final(iter)@[0].1), final(iter)@[0].0)
        },
{
    let ghost orig = iter@;
    let ghost mut k: nat = 0;
    let mut value = String::new();
    proof {
        assert(orig.skip(0) =~= orig);
        assert(Seq::<char>::empty() + Seq::<char>::empty() =~= Seq::<char>::empty());
        match spec_value(orig) {
            Ok((v, n)) => {
                assert(Seq::<char>::empty() + v =~= v);
            },
            Err(_) => {},
        }
    }
    loop
        invariant
            orig == old(iter)@,
            k <= orig.len(),
            iter@ == orig.skip(k as int),
            spec_value(orig) == prepend(value@, k, spec_value(iter@)),
            value_run(orig) == k + value_run(iter@),
        decreases orig.len() - k,
    {
        let ghost rest = iter@;
        proof {
            lemma_value_stop(rest);
        }
        let ghost so_far = value@;
        let c1: Option<Token> = match iter.peek0() {
            Some(t) => Some(*t),
            None => None,
        };
        let c2: Option<Token> = match iter.peek1() {
            Some(t) => Some(*t),
            None => None,
        };
        match c1 {
            None => {
                proof {
                    assert(so_far + Seq::<char>::empty() =~= so_far);
                }
                return Ok(value);
            },
            Some(t) => {
                let p = t.0;
                let c = t.1;
                let doubled = match c2 {
                    Some(u) => u.1 == ';',
                    None => false,
                };
                if c == ';' && doubled {
                    iter.next();
                    iter.next();
                    push_char(&mut value, ';');
                    proof {
                        assert(rest.drop_first().drop_first() =~= rest.skip(2));
                        assert(orig.skip(k as int).skip(2) =~= orig.skip(k as int + 2));
                        lemma_prepend_twice(so_far, k, seq![';'], 2, spec_value(rest.skip(2)));
                        assert(so_far + seq![';'] =~= so_far.push(';'));
                        k = k + 2;
                    }
                } else if c == ';' {
                    proof {
                        assert(so_far + Seq::<char>::empty() =~= so_far);
                    }
                    return Ok(value);
                } else if control_char(c) {
                    return Err(parse_err(ErrorKind::InvalidCharInValue(c), p));
                } else {
                    push_char(&mut value, c);
                    iter.next();
                    proof {
                        assert(rest.drop_first() =~= rest.skip(1));
                        assert(orig.skip(k as int).skip(1) =~= orig.skip(k as int + 1));
                        lemma_prepend_twice(so_far, k, seq![c], 1, spec_value(rest.skip(1)));
                        assert(so_far + seq![c] =~= so_far.push(c));
                        k = k + 1;
                    }
                }
            },
        }
    }
}

/// Reads the separator between the service name and the entries: `true`
/// for `::`, `false` where the input has ended.
pub fn parse_double_colon(iter: &mut Peekable2<Token>) -> (r: Result<bool, ParsingError>)
    ensures
        match (r, spec_double_colon(old(iter)@)) {
            (Ok(b), Ok(sb)) => b == sb,
            (Err(e), Err(f)) => e@ == f,
            _ => false,
        },
        old(iter)@.len() >= 2 ==> final(iter)@ == old(iter)@.skip(2),
        old(iter)@.len() < 2 ==> final(iter)@ == Seq::<Token>::empty(),
{
    let ghost orig = iter@;
    let c1 = iter.next();
    let c2 = iter.next();
    proof {
        if orig.len() >= 2 {
            assert(orig.drop_first().drop_first() =~= orig.skip(2));
        } else if orig.len() == 1 {
            assert(orig.drop_first() =~= Seq::<Token>::empty());
        } else {
            assert(orig =~= Seq::<Token>::empty());
        }
    }
    match c1 {
        None => Ok(false),
        Some(a) => {
            if a.1 != ':' {
                Err(parse_err(ErrorKind::BadSeparator((':', a.1)), a.0))
            } else {
                match c2 {
                    None => Err(parse_err(ErrorKind::BadSeparator((':', a.1)), a.0)),
                    Some(b) => {
                        if b.1 != ':' {
                            Err(parse_err(ErrorKind::BadSeparator((':', b.1)), b.0))
                        } else {
                            Ok(true)
                        }
                    },
                }
            }
        },
    }
}

/// Reads the entries `key=value;` that fill the rest of `iter`, until
/// nothing is left in it. `input_len` is the length of the whole input in
/// bytes: the position to report where the input ends behind a key.
pub fn parse_params(iter: &mut Peekable2<Token>, input_len: usize) -> (r: Result<
    Params,
    ParsingError,
>)
    ensures
        match (r, spec_params(old(iter)@, input_len, Seq::empty())) {
            (Ok(params), Ok(pairs)) => params.pairs() == pairs && params@ == map_of(pairs),
            (Err(e), Err(f)) => e@ == f,
            _ => false,
        },
        r is Ok ==> final(iter)@.len() == 0,
{
    let mut params = Params::new();
    loop
        invariant
            spec_params(old(iter)@, input_len, Seq::empty()) == spec_params(
                iter@,
                input_len,
                params.pairs(),
            ),
        decreases iter@.len(),
    {
        let ghost toks = iter@;
        let ghost acc = params.pairs();
        let key_pos = match iter.peek0() {
            Some(t) => t.0,
            None => {
                proof {
                    use_type_invariant(&params);
                    params.lemma_pairs();
                }
                return Ok(params);
            },
        };
        let key = match parse_ident(iter, key_pos) {
            Ok(key) => key,
            Err(e) => {
                return Err(e);
            },
        };
        let ghost n = ident_run(toks);
        proof {
            lemma_ident_run_bound(toks);
        }
        if params.contains_key(key.as_str()) {
            return Err(parse_err(ErrorKind::DuplicateKey(key), key_pos));
        }
        match iter.next() {
            Some(t) => {
                assert(toks.skip(n as int)[0] == toks[n as int]);
                if t.1 != '=' {
                    return Err(parse_err(ErrorKind::BadSeparator(('=', t.1)), t.0));
                }
            },
            None => {
                return Err(parse_err(ErrorKind::IncompleteKeyValue, input_len));
            },
        }
        proof {
            assert(toks.skip(n as int).drop_first() =~= toks.skip(n as int + 1));
        }
        let value = match parse_value(iter) {
            Ok(value) => value,
            Err(e) => {
                return Err(e);
            },
        };
        let ghost m = value_run(toks.skip(n as int + 1));
        proof {
            assert(toks.skip(n as int + 1).skip(m as int) =~= toks.skip(n as int + 1 + m as int));
        }
        iter.next();
        proof {
            if n + 1 + m < toks.len() {
                assert(toks.skip(n as int + 1 + m as int).drop_first() =~= toks.skip(
                    entry_len(toks, n, m) as int,
                ));
            } else {
                assert(toks.skip(n as int + 1 + m as int) =~= toks.skip(
                    entry_len(toks, n, m) as int,
                ));
            }
        }
        params.insert(key, value);
    }
}

/// Parse a config string.
///
/// The result is what `spec_parse` gives for the text of `input`: the
/// service name with its parameters, or the first failure with the byte
/// offset in `input` at which it shows.
pub fn parse_conf_str(input: &str) -> (r: Result<ConfStr, ParsingError>)
    ensures
        match (r, spec_parse(input@)) {
            (Ok(conf), Ok(model)) => conf@ == model,
            (Err(e), Err(f)) => e@ == f,
            _ => false,
        },
{
    let toks = char_indices(input);
    let input_len = input.len();
    let ghost all = toks@;
    let mut iter = peekable2(toks);
    let service = match parse_ident(&mut iter, 0) {
        Ok(service) => service,
        Err(e) => {
            return Err(e);
        },
    };
    let ghost n = ident_run(all);
    proof {
        lemma_ident_run_bound(all);
    }
    let has_separator = match parse_double_colon(&mut iter) {
        Ok(b) => b,
        Err(e) => {
            return Err(e);
        },
    };
    if !has_separator {
        return Ok(ConfStr::new(service, Params::new()));
    }
    proof {
        assert(all.skip(n as int).skip(2) =~= all.skip(n as int + 2));
    }
    let params = match parse_params(&mut iter, input_len) {
        Ok(params) => params,
        Err(e) => {
            return Err(e);
        },
    };
    Ok(ConfStr::new(service, params))
}

} // verus!
