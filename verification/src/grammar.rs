use crate::conf_str::ConfStrView;
use crate::error::ErrorKindView;
use crate::params::{has_key, map_of, Text};
use crate::text::{spec_char_indices, utf8_len};
use vstd::prelude::*;

verus! {

/// A character of the input together with the byte offset at which it
/// starts.
pub type Token = (usize, char);

/// A failure: what went wrong, and the byte offset at which it was seen.
pub type Fault = (ErrorKindView, usize);

/// Characters that an identifier is made of: ASCII letters, ASCII digits
/// and the underscore.
pub open spec fn is_ident_char(c: char) -> bool {
    ('0' <= c && c <= '9') || ('a' <= c && c <= 'z') || ('A' <= c && c <= 'Z') || c == '_'
}

/// The characters that hold the parts of a configuration string
/// together: `:`, `=` and `;`.
pub open spec fn is_structural(c: char) -> bool {
    c == ':' || c == '=' || c == ';'
}

/// Characters that may not stand directly behind an identifier: the space
/// and everything above it that is neither an identifier character nor
/// structural. A character below the space ends the identifier as a
/// structural character does, and what reads on decides about it.
pub open spec fn breaks_ident(c: char) -> bool {
    c >= ' ' && !is_ident_char(c) && !is_structural(c)
}

/// Control characters, which no value may hold.
pub open spec fn is_control(c: char) -> bool {
    c <= '\u{1f}' || ('\u{7f}' <= c && c <= '\u{9f}')
}

/// The characters of the tokens, without their offsets.
pub open spec fn chars_of(toks: Seq<Token>) -> Text {
    Seq::new(toks.len(), |i: int| toks[i].1)
}

/// How many identifier characters stand at the front of `toks`.
pub open spec fn ident_run(toks: Seq<Token>) -> nat
    decreases toks.len(),
{
    if toks.len() > 0 && is_ident_char(toks[0].1) {
        1 + ident_run(toks.drop_first())
    } else {
        0
    }
}

/// The run of identifier characters is no longer than the input.
pub proof fn lemma_ident_run_bound(toks: Seq<Token>)
    ensures
        ident_run(toks) <= toks.len(),
    decreases toks.len(),
{
    if toks.len() > 0 && is_ident_char(toks[0].1) {
        lemma_ident_run_bound(toks.drop_first());
    }
}

/// Behind `k` identifier characters the run goes on as it would from
/// there.
pub proof fn lemma_ident_run_split(toks: Seq<Token>, k: int)
    requires
        0 <= k <= toks.len(),
        forall|j: int| 0 <= j < k ==> is_ident_char(#[trigger] toks[j].1),
    ensures
        ident_run(toks) == k + ident_run(toks.skip(k)),
    decreases k,
{
    if k == 0 {
        assert(toks.skip(0) =~= toks);
    } else {
        lemma_ident_run_split(toks.drop_first(), k - 1);
        assert(toks.drop_first().skip(k - 1) =~= toks.skip(k));
    }
}

/// An identifier at the front of `toks`: the longest run of identifier
/// characters, which must not be empty and must not be followed by a
/// character that `breaks_ident`. Whatever comes of it, reading stops
/// behind that run: the character that ends or breaks the identifier is
/// not taken. Gives the identifier and the number of
/// tokens that it takes. `at` is the offset to report where `toks` is
/// empty.
pub open spec fn spec_ident(toks: Seq<Token>, at: usize) -> Result<(Text, nat), Fault> {
    let n = ident_run(toks);
    if toks.len() == 0 {
        Err((ErrorKindView::ExpectedIdentifierNotEmpty, at))
    } else if n == 0 {
        Err((ErrorKindView::ExpectedIdentifierNot(toks[0].1), toks[0].0))
    } else if n < toks.len() && breaks_ident(toks[n as int].1) {
        Err((ErrorKindView::MustBeAlphanumeric(toks[n as int].1), toks[n as int].0))
    } else {
        Ok((chars_of(toks.take(n as int)), n))
    }
}

/// Puts `prefix` in front of a value that was read, and counts `taken`
/// more tokens for it; a failure stays as it is.
pub open spec fn prepend(prefix: Text, taken: nat, r: Result<(Text, nat), Fault>) -> Result<
    (Text, nat),
    Fault,
> {
    match r {
        Ok((v, n)) => Ok((prefix + v, taken + n)),
        Err(e) => Err(e),
    }
}

/// A value at the front of `toks`. It ends before a single `;` or at the
/// end of the input; two `;` in a row stand for one `;` inside the value.
/// Gives the value with the doubled `;` undone, and the number of tokens
/// that it takes, the closing `;` not counted.
pub open spec fn spec_value(toks: Seq<Token>) -> Result<(Text, nat), Fault>
    decreases toks.len(),
{
    if toks.len() == 0 {
        Ok((Seq::empty(), 0))
    } else if toks[0].1 == ';' {
        if toks.len() > 1 && toks[1].1 == ';' {
            prepend(seq![';'], 2, spec_value(toks.skip(2)))
        } else {
            Ok((Seq::empty(), 0))
        }
    } else if is_control(toks[0].1) {
        Err((ErrorKindView::InvalidCharInValue(toks[0].1), toks[0].0))
    } else {
        prepend(seq![toks[0].1], 1, spec_value(toks.skip(1)))
    }
}

/// How many tokens reading a value takes before it stops: before the
/// `;` that closes the value, at the end of the input, or before a
/// control character. Two `;` in a row are taken together.
pub open spec fn value_run(toks: Seq<Token>) -> nat
    decreases toks.len(),
{
    if toks.len() == 0 {
        0
    } else if toks[0].1 == ';' {
        if toks.len() > 1 && toks[1].1 == ';' {
            2 + value_run(toks.skip(2))
        } else {
            0
        }
    } else if is_control(toks[0].1) {
        0
    } else {
        1 + value_run(toks.skip(1))
    }
}

/// Where reading a value stops: a value that is read takes `value_run`
/// tokens, and a failure is reported for the token that stands behind
/// them, which holds a control character.
pub proof fn lemma_value_stop(toks: Seq<Token>)
    ensures
        value_run(toks) <= toks.len(),
        spec_value(toks) matches Ok((_, n)) ==> n == value_run(toks),
        spec_value(toks) matches Err(f) ==> {
            &&& value_run(toks) < toks.len()
            &&& is_control(toks[value_run(toks) as int].1)
            &&& f == (
                ErrorKindView::InvalidCharInValue(toks[value_run(toks) as int].1),
                toks[value_run(toks) as int].0,
            )
        },
    decreases toks.len(),
{
    if toks.len() == 0 {
    } else if toks[0].1 == ';' {
        if toks.len() > 1 && toks[1].1 == ';' {
            lemma_value_stop(toks.skip(2));
        }
    } else if !is_control(toks[0].1) {
        lemma_value_stop(toks.skip(1));
    }
}

/// The separator behind the service name: nothing at all (`false`), or
/// exactly `::` (`true`). Anything else is a failure at the first
/// character that is not the expected `:`; a lone `:` at the end of the
/// input is reported at that `:`.
pub open spec fn spec_double_colon(toks: Seq<Token>) -> Result<bool, Fault> {
    if toks.len() == 0 {
        Ok(false)
    } else if toks[0].1 != ':' {
        Err((ErrorKindView::BadSeparator((':', toks[0].1)), toks[0].0))
    } else if toks.len() == 1 {
        Err((ErrorKindView::BadSeparator((':', ':')), toks[0].0))
    } else if toks[1].1 != ':' {
        Err((ErrorKindView::BadSeparator((':', toks[1].1)), toks[1].0))
    } else {
        Ok(true)
    }
}

/// The number of tokens that one entry takes: the key of `key_len`
/// tokens, the `=`, the value of `value_len` tokens, and the closing `;`
/// where there is one.
pub open spec fn entry_len(toks: Seq<Token>, key_len: nat, value_len: nat) -> nat {
    if key_len + 1 + value_len < toks.len() {
        key_len + 1 + value_len + 1
    } else {
        toks.len()
    }
}

/// The entries `key=value;` that fill `toks` to its end, added to the
/// pairs `acc` that were read before. A key that `acc` already has is a
/// failure at the start of that key; a key at the end of the input, with
/// no `=` behind it, is a failure at `input_len`.
pub open spec fn spec_params(toks: Seq<Token>, input_len: usize, acc: Seq<(Text, Text)>) -> Result<
    Seq<(Text, Text)>,
    Fault,
>
    decreases toks.len(),
{
    if toks.len() == 0 {
        Ok(acc)
    } else {
        match spec_ident(toks, toks[0].0) {
            Err(e) => Err(e),
            Ok((key, n)) => {
                if has_key(acc, key) {
                    Err((ErrorKindView::DuplicateKey(key), toks[0].0))
                } else if n >= toks.len() {
                    Err((ErrorKindView::IncompleteKeyValue, input_len))
                } else if toks[n as int].1 != '=' {
                    Err((ErrorKindView::BadSeparator(('=', toks[n as int].1)), toks[n as int].0))
                } else {
                    match spec_value(toks.skip(n as int + 1)) {
                        Err(e) => Err(e),
                        Ok((value, m)) => {
                            spec_params(
                                toks.skip(entry_len(toks, n, m) as int),
                                input_len,
                                acc.push((key, value)),
                            )
                        },
                    }
                }
            },
        }
    }
}

/// A whole configuration string: the service name, then either nothing
/// or `::` and the entries.
pub open spec fn spec_conf_str(toks: Seq<Token>, input_len: usize) -> Result<ConfStrView, Fault> {
    match spec_ident(toks, 0) {
        Err(e) => Err(e),
        Ok((service, n)) => match spec_double_colon(toks.skip(n as int)) {
            Err(e) => Err(e),
            Ok(false) => Ok(ConfStrView { service, params: Map::empty() }),
            Ok(true) => match spec_params(toks.skip(n as int + 2), input_len, Seq::empty()) {
                Err(e) => Err(e),
                Ok(pairs) => Ok(ConfStrView { service, params: map_of(pairs) }),
            },
        },
    }
}

/// What parsing the text `s` gives: the configuration that it denotes, or
/// the first failure with the byte offset in `s` at which it shows.
pub open spec fn spec_parse(s: Text) -> Result<ConfStrView, Fault> {
    spec_conf_str(spec_char_indices(s), utf8_len(s) as usize)
}

} // verus!
