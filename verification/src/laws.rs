use crate::conf_str::ConfStrView;
use crate::error::ErrorKindView;
use crate::grammar::{
    breaks_ident, chars_of, entry_len, ident_run, is_control, is_ident_char, lemma_ident_run_bound,
    lemma_ident_run_split, lemma_value_stop, spec_conf_str, spec_double_colon, spec_ident,
    spec_params, spec_parse, spec_value, Fault, Token,
};
use crate::params::{
    distinct_keys, has_key, lemma_map_of_dom, lemma_map_of_index, map_of, Text,
};
use crate::text::{byte_pos, spec_char_indices, utf8_len};
use vstd::prelude::*;

verus! {

/// A non-empty text made of identifier characters only.
pub open spec fn is_identifier(s: Text) -> bool {
    s.len() > 0 && forall|i: int| 0 <= i < s.len() ==> is_ident_char(#[trigger] s[i])
}

/// A text without control characters.
pub open spec fn is_plain(v: Text) -> bool {
    forall|i: int| 0 <= i < v.len() ==> !is_control(#[trigger] v[i])
}

/// The tokens of a text carry that text.
pub proof fn lemma_chars_of_indices(s: Text)
    ensures
        chars_of(spec_char_indices(s)) == s,
        spec_char_indices(s).len() == s.len(),
{
    assert(chars_of(spec_char_indices(s)) =~= s);
}

/// The characters behind the first `k` tokens are the text behind its
/// first `k` characters.
pub proof fn lemma_chars_of_skip(toks: Seq<Token>, k: int)
    requires
        0 <= k <= toks.len(),
    ensures
        chars_of(toks.skip(k)) == chars_of(toks).skip(k),
        chars_of(toks.take(k)) == chars_of(toks).take(k),
{
    assert(chars_of(toks.skip(k)) =~= chars_of(toks).skip(k));
    assert(chars_of(toks.take(k)) =~= chars_of(toks).take(k));
}

/// An identifier that is followed by nothing, or by a character that
/// ends it without breaking it, is read whole.
pub proof fn lemma_ident_reads(toks: Seq<Token>, id: Text, at: usize)
    requires
        is_identifier(id),
        id.len() <= toks.len(),
        chars_of(toks).take(id.len() as int) == id,
        id.len() < toks.len() ==> !is_ident_char(toks[id.len() as int].1) && !breaks_ident(
            toks[id.len() as int].1,
        ),
    ensures
        spec_ident(toks, at) == Ok::<(Text, nat), Fault>((id, id.len())),
        ident_run(toks) == id.len(),
{
    let k = id.len() as int;
    assert forall|j: int| 0 <= j < k implies is_ident_char(#[trigger] toks[j].1) by {
        assert(chars_of(toks).take(k)[j] == id[j]);
    }
    lemma_ident_run_split(toks, k);
    lemma_chars_of_skip(toks, k);
}

/// A valid service name alone parses to that service with no
/// parameters.
pub proof fn law_service_only(s: Text)
    requires
        is_identifier(s),
    ensures
        spec_parse(s) == Ok::<ConfStrView, Fault>(
            ConfStrView { service: s, params: Map::empty() },
        ),
{
    let toks = spec_char_indices(s);
    lemma_chars_of_indices(s);
    assert(chars_of(toks).take(s.len() as int) =~= s);
    lemma_ident_reads(toks, s, 0);
    assert(toks.skip(s.len() as int) =~= Seq::<Token>::empty());
}

/// A service name with a character directly behind it that is at or
/// above the space and is neither an identifier character nor one of
/// `:`, `=` and `;` makes the parse fail with the error for it, at the
/// byte offset of that character.
pub proof fn law_identifier_broken(id: Text, c: char, rest: Text)
    requires
        is_identifier(id),
        breaks_ident(c),
    ensures
        ({
            let text = id + seq![c] + rest;
            spec_parse(text) == Err::<ConfStrView, Fault>(
                (ErrorKindView::MustBeAlphanumeric(c), byte_pos(text, id.len() as int) as usize),
            )
        }),
{
    let text = id + seq![c] + rest;
    let toks = spec_char_indices(text);
    let k = id.len() as int;
    lemma_chars_of_indices(text);
    assert forall|j: int| 0 <= j < k implies is_ident_char(#[trigger] toks[j].1) by {
        assert(toks[j].1 == id[j]);
    }
    lemma_ident_run_split(toks, k);
    assert(toks.skip(k)[0] == toks[k]);
    assert(toks[k].1 == c);
}

/// The text that stands for the value `v` in a configuration string:
/// each `;` of the value is written twice.
pub open spec fn escape(v: Text) -> Text
    decreases v.len(),
{
    if v.len() == 0 {
        Seq::empty()
    } else if v[0] == ';' {
        seq![';', ';'] + escape(v.drop_first())
    } else {
        seq![v[0]] + escape(v.drop_first())
    }
}

/// A text that can follow a value in the input: nothing, or a `;` that
/// no second `;` follows.
pub open spec fn closes_value(rest: Text) -> bool {
    rest.len() == 0 || (rest[0] == ';' && (rest.len() == 1 || rest[1] != ';'))
}

/// Reading the escaped form of a value gives the value back, and takes
/// exactly the escaped form.
pub proof fn law_value_round_trip(toks: Seq<Token>, v: Text, rest: Text)
    requires
        is_plain(v),
        closes_value(rest),
        chars_of(toks) == escape(v) + rest,
    ensures
        spec_value(toks) == Ok::<(Text, nat), Fault>((v, escape(v).len())),
    decreases v.len(),
{
    let text = chars_of(toks);
    assert(toks.len() == text.len());
    if v.len() == 0 {
        assert(text =~= rest);
        assert(v =~= Seq::<char>::empty());
        if rest.len() > 0 {
            assert(toks[0].1 == text[0]);
            if rest.len() > 1 {
                assert(toks[1].1 == text[1]);
            }
        }
    } else {
        let tail = v.drop_first();
        assert(is_plain(tail)) by {
            assert forall|i: int| 0 <= i < tail.len() implies !is_control(#[trigger] tail[i]) by {
                assert(tail[i] == v[i + 1]);
            }
        }
        assert(!is_control(v[0]));
        assert(toks[0].1 == text[0]);
        if v[0] == ';' {
            assert(toks[1].1 == text[1]);
            lemma_chars_of_skip(toks, 2);
            assert(text.skip(2) =~= escape(tail) + rest);
            law_value_round_trip(toks.skip(2), tail, rest);
            assert(seq![';'] + tail =~= v);
        } else {
            lemma_chars_of_skip(toks, 1);
            assert(text.skip(1) =~= escape(tail) + rest);
            law_value_round_trip(toks.skip(1), tail, rest);
            assert(seq![v[0]] + tail =~= v);
        }
    }
}

/// A run of `n` characters `;`.
pub open spec fn semicolons(n: nat) -> Text {
    Seq::new(n, |i: int| ';')
}

/// A value of `n` characters `;` is written with `2 * n` of them.
pub proof fn law_escape_doubles(n: nat)
    ensures
        escape(semicolons(n)) == semicolons(2 * n),
    decreases n,
{
    if n == 0 {
        assert(escape(semicolons(0)) =~= semicolons(0));
    } else {
        law_escape_doubles((n - 1) as nat);
        assert(semicolons(n).drop_first() =~= semicolons((n - 1) as nat));
        assert(seq![';', ';'] + semicolons((2 * (n - 1)) as nat) =~= semicolons(2 * n));
    }
}

/// A control character inside a value makes reading the value fail at
/// that character, wherever in the value it stands: `v` is what the value
/// holds before it, `rest` whatever follows it.
pub proof fn law_control_char_in_value(toks: Seq<Token>, v: Text, c: char, rest: Text)
    requires
        is_plain(v),
        is_control(c),
        chars_of(toks) == escape(v) + seq![c] + rest,
    ensures
        escape(v).len() < toks.len(),
        spec_value(toks) == Err::<(Text, nat), Fault>(
            (ErrorKindView::InvalidCharInValue(c), toks[escape(v).len() as int].0),
        ),
    decreases v.len(),
{
    let text = chars_of(toks);
    assert(toks.len() == text.len());
    assert(toks[0].1 == text[0]);
    if v.len() == 0 {
        assert(text[0] == c);
    } else {
        let tail = v.drop_first();
        assert(is_plain(tail)) by {
            assert forall|i: int| 0 <= i < tail.len() implies !is_control(#[trigger] tail[i]) by {
                assert(tail[i] == v[i + 1]);
            }
        }
        assert(!is_control(v[0]));
        if v[0] == ';' {
            assert(toks[1].1 == text[1]);
            lemma_chars_of_skip(toks, 2);
            assert(text.skip(2) =~= escape(tail) + seq![c] + rest);
            law_control_char_in_value(toks.skip(2), tail, c, rest);
        } else {
            lemma_chars_of_skip(toks, 1);
            assert(text.skip(1) =~= escape(tail) + seq![c] + rest);
            law_control_char_in_value(toks.skip(1), tail, c, rest);
        }
    }
}

/// The text of one entry: the key, `=`, the escaped value and `;`.
pub open spec fn render_entry(pair: (Text, Text)) -> Text {
    pair.0 + seq!['='] + escape(pair.1) + seq![';']
}

/// The text of the entries, one after the other.
pub open spec fn render_entries(pairs: Seq<(Text, Text)>) -> Text
    decreases pairs.len(),
{
    if pairs.len() == 0 {
        Seq::empty()
    } else {
        render_entry(pairs[0]) + render_entries(pairs.drop_first())
    }
}

/// The configuration string that stands for a service and its entries:
/// `service::key=value;key=value;`.
pub open spec fn render(service: Text, pairs: Seq<(Text, Text)>) -> Text {
    service + seq![':', ':'] + render_entries(pairs)
}

/// Pairs that a configuration string can hold: the keys are identifiers,
/// no key occurs twice, and no value has a control character.
pub open spec fn well_formed(pairs: Seq<(Text, Text)>) -> bool {
    &&& distinct_keys(pairs)
    &&& forall|i: int| 0 <= i < pairs.len() ==> is_identifier(#[trigger] pairs[i].0)
    &&& forall|i: int| 0 <= i < pairs.len() ==> is_plain(#[trigger] pairs[i].1)
}

/// Entries at the front of the input are read one by one into the pairs
/// that stand for them; reading goes on behind them with those pairs
/// added. `tail` is what follows the entries: it must not start with `;`.
pub proof fn lemma_entries_read(
    toks: Seq<Token>,
    input_len: usize,
    acc: Seq<(Text, Text)>,
    pairs: Seq<(Text, Text)>,
    tail: Text,
)
    requires
        well_formed(pairs),
        forall|i: int| 0 <= i < pairs.len() ==> !has_key(acc, #[trigger] pairs[i].0),
        chars_of(toks) == render_entries(pairs) + tail,
        tail.len() == 0 || tail[0] != ';',
    ensures
        render_entries(pairs).len() <= toks.len(),
        spec_params(toks, input_len, acc) == spec_params(
            toks.skip(render_entries(pairs).len() as int),
            input_len,
            acc + pairs,
        ),
    decreases pairs.len(),
{
    let text = chars_of(toks);
    assert(toks.len() == text.len());
    if pairs.len() == 0 {
        assert(toks.skip(0) =~= toks);
        assert(acc + pairs =~= acc);
    } else {
        let key = pairs[0].0;
        let v = pairs[0].1;
        let more = pairs.drop_first();
        let klen = key.len() as int;
        let elen = escape(v).len() as int;
        let behind = render_entries(more) + tail;
        assert(is_identifier(key));
        assert(is_plain(v));
        assert(text =~= key + seq!['='] + escape(v) + seq![';'] + behind);
        // the key
        assert(text.take(klen) =~= key);
        assert(toks[klen].1 == text[klen]);
        assert(text[klen] == '=');
        lemma_ident_reads(toks, key, toks[0].0);
        // the value
        let value_toks = toks.skip(klen + 1);
        lemma_chars_of_skip(toks, klen + 1);
        let closing = seq![';'] + behind;
        assert(text.skip(klen + 1) =~= escape(v) + closing);
        assert(closes_value(closing)) by {
            if closing.len() > 1 {
                if more.len() > 0 {
                    let next_key = more[0].0;
                    assert(more[0] == pairs[1]);
                    assert(is_identifier(next_key));
                    assert(render_entries(more) =~= next_key + (seq!['='] + escape(more[0].1)
                        + seq![';'] + render_entries(more.drop_first())));
                    assert(closing[1] == next_key[0]);
                    assert(is_ident_char(next_key[0]));
                } else {
                    assert(render_entries(more) =~= Seq::<char>::empty());
                    assert(closing[1] == tail[0]);
                }
            }
        }
        law_value_round_trip(value_toks, v, closing);
        // what follows the entry
        let taken = klen + 1 + elen + 1;
        assert(entry_len(toks, klen as nat, elen as nat) == taken);
        let next_toks = toks.skip(taken);
        lemma_chars_of_skip(toks, taken);
        assert(text.skip(taken) =~= behind);
        let next_acc = acc.push(pairs[0]);
        assert(well_formed(more)) by {
            assert forall|i: int, j: int| 0 <= i < j < more.len() implies more[i].0 != more[j].0 by {
                assert(more[i] == pairs[i + 1]);
                assert(more[j] == pairs[j + 1]);
            }
            assert forall|i: int| 0 <= i < more.len() implies is_identifier(
                #[trigger] more[i].0,
            ) by {
                assert(more[i] == pairs[i + 1]);
            }
            assert forall|i: int| 0 <= i < more.len() implies is_plain(#[trigger] more[i].1) by {
                assert(more[i] == pairs[i + 1]);
            }
        }
        assert forall|i: int| 0 <= i < more.len() implies !has_key(
            next_acc,
            #[trigger] more[i].0,
        ) by {
            assert(more[i] == pairs[i + 1]);
            assert(!has_key(acc, pairs[i + 1].0));
            if has_key(next_acc, more[i].0) {
                let j = choose|j: int| 0 <= j < next_acc.len() && #[trigger] next_acc[j].0 == more[i].0;
                if j < acc.len() {
                    assert(acc[j].0 == more[i].0);
                } else {
                    assert(pairs[0].0 != pairs[i + 1].0);
                }
            }
        }
        lemma_entries_read(next_toks, input_len, next_acc, more, tail);
        assert(render_entries(pairs).len() == taken + render_entries(more).len());
        assert(next_toks.skip(render_entries(more).len() as int) =~= toks.skip(
            render_entries(pairs).len() as int,
        ));
        assert(next_acc + more =~= acc + pairs);
        assert(!has_key(acc, pairs[0].0));
    }
}

/// What parsing gives once the service name and `::` have been read,
/// from what reading the entries gives.
pub open spec fn with_service(service: Text, entries: Result<Seq<(Text, Text)>, Fault>) -> Result<
    ConfStrView,
    Fault,
> {
    match entries {
        Err(e) => Err(e),
        Ok(pairs) => Ok(ConfStrView { service, params: map_of(pairs) }),
    }
}

/// A service name with `::` behind it is read as such, and the entries
/// are read from what follows.
pub proof fn lemma_head_reads(toks: Seq<Token>, input_len: usize, service: Text, body: Text)
    requires
        is_identifier(service),
        chars_of(toks) == service + seq![':', ':'] + body,
    ensures
        service.len() + 2 <= toks.len(),
        chars_of(toks.skip(service.len() as int + 2)) == body,
        spec_conf_str(toks, input_len) == with_service(
            service,
            spec_params(toks.skip(service.len() as int + 2), input_len, Seq::empty()),
        ),
{
    let text = chars_of(toks);
    let n = service.len() as int;
    assert(toks.len() == text.len());
    assert(text.take(n) =~= service);
    assert(toks[n].1 == text[n]);
    assert(toks[n + 1].1 == text[n + 1]);
    lemma_ident_reads(toks, service, 0);
    assert(toks.skip(n)[0] == toks[n]);
    assert(toks.skip(n)[1] == toks[n + 1]);
    lemma_chars_of_skip(toks, n + 2);
    assert(text.skip(n + 2) =~= body);
}

/// A configuration string that is written out from a service name and
/// well-formed pairs parses to that service and to the mapping of those
/// pairs: every key that was written is found with its value, and no
/// other key is found. Keys are told apart character by character, so a
/// key in another case is another key.
pub proof fn law_parse_rendered(service: Text, pairs: Seq<(Text, Text)>)
    requires
        is_identifier(service),
        well_formed(pairs),
    ensures
        spec_parse(render(service, pairs)) == Ok::<ConfStrView, Fault>(
            ConfStrView { service, params: map_of(pairs) },
        ),
        forall|i: int|
            0 <= i < pairs.len() ==> map_of(pairs).contains_key(#[trigger] pairs[i].0) && map_of(
                pairs,
            )[pairs[i].0] == pairs[i].1,
        forall|k: Text| #[trigger] map_of(pairs).contains_key(k) <==> has_key(pairs, k),
{
    let text = render(service, pairs);
    let toks = spec_char_indices(text);
    let input_len = utf8_len(text) as usize;
    lemma_chars_of_indices(text);
    lemma_head_reads(toks, input_len, service, render_entries(pairs));
    let body_toks = toks.skip(service.len() as int + 2);
    let none = Seq::<(Text, Text)>::empty();
    assert(render_entries(pairs) + Seq::<char>::empty() =~= render_entries(pairs));
    assert forall|i: int| 0 <= i < pairs.len() implies !has_key(none, #[trigger] pairs[i].0) by {}
    lemma_entries_read(body_toks, input_len, none, pairs, Seq::empty());
    assert(body_toks.skip(render_entries(pairs).len() as int) =~= Seq::<Token>::empty());
    assert(none + pairs =~= pairs);
    assert forall|i: int| 0 <= i < pairs.len() implies map_of(pairs).contains_key(
        #[trigger] pairs[i].0,
    ) && map_of(pairs)[pairs[i].0] == pairs[i].1 by {
        lemma_map_of_index(pairs, i);
    }
    assert forall|k: Text| #[trigger] map_of(pairs).contains_key(k) <==> has_key(pairs, k) by {
        lemma_map_of_dom(pairs, k);
    }
}

/// Behind a service name, `::` and well-formed entries, parsing goes on
/// with what follows them, with the pairs of those entries read. `tail`
/// is what follows: it must not start with `;`.
pub proof fn lemma_prefix_reads(
    toks: Seq<Token>,
    input_len: usize,
    service: Text,
    pairs: Seq<(Text, Text)>,
    tail: Text,
)
    requires
        is_identifier(service),
        well_formed(pairs),
        chars_of(toks) == render(service, pairs) + tail,
        tail.len() == 0 || tail[0] != ';',
    ensures
        render(service, pairs).len() <= toks.len(),
        chars_of(toks.skip(render(service, pairs).len() as int)) == tail,
        spec_conf_str(toks, input_len) == with_service(
            service,
            spec_params(toks.skip(render(service, pairs).len() as int), input_len, pairs),
        ),
{
    let body = render_entries(pairs) + tail;
    let none = Seq::<(Text, Text)>::empty();
    let head = service.len() as int + 2;
    let skipped = render_entries(pairs).len() as int;
    let body_toks = toks.skip(head);
    assert(chars_of(toks) =~= service + seq![':', ':'] + body);
    lemma_head_reads(toks, input_len, service, body);
    assert forall|i: int| 0 <= i < pairs.len() implies !has_key(none, #[trigger] pairs[i].0) by {}
    lemma_entries_read(body_toks, input_len, none, pairs, tail);
    assert(none + pairs =~= pairs);
    lemma_chars_of_skip(body_toks, skipped);
    assert(body.skip(skipped) =~= tail);
    assert(body_toks.skip(skipped) =~= toks.skip(head + skipped));
    assert(render(service, pairs).len() == head + skipped);
}

/// An entry whose value holds a control character makes reading the
/// entries fail at that character.
pub proof fn lemma_broken_entry(
    toks: Seq<Token>,
    input_len: usize,
    acc: Seq<(Text, Text)>,
    key: Text,
    v: Text,
    c: char,
    rest: Text,
)
    requires
        is_identifier(key),
        !has_key(acc, key),
        is_plain(v),
        is_control(c),
        chars_of(toks) == key + seq!['='] + escape(v) + seq![c] + rest,
    ensures
        key.len() + 1 + escape(v).len() < toks.len(),
        spec_params(toks, input_len, acc) == Err::<Seq<(Text, Text)>, Fault>(
            (
                ErrorKindView::InvalidCharInValue(c),
                toks[key.len() as int + 1 + escape(v).len()].0,
            ),
        ),
{
    let text = chars_of(toks);
    let klen = key.len() as int;
    assert(toks.len() == text.len());
    assert(text.take(klen) =~= key);
    assert(toks[klen].1 == text[klen]);
    assert(text[klen] == '=');
    lemma_ident_reads(toks, key, toks[0].0);
    let value_toks = toks.skip(klen + 1);
    lemma_chars_of_skip(toks, klen + 1);
    assert(text.skip(klen + 1) =~= escape(v) + seq![c] + rest);
    law_control_char_in_value(value_toks, v, c, rest);
    assert(value_toks[escape(v).len() as int] == toks[klen + 1 + escape(v).len()]);
}

/// A control character inside a value makes the whole parse fail with
/// the error for it, at the byte offset of that character, wherever in
/// the value it stands and whatever follows it. The value belongs to the
/// key `key`, behind the service name and the well-formed entries
/// `pairs`; `v` is what the value holds before the character.
pub proof fn law_control_char_rejected(
    service: Text,
    pairs: Seq<(Text, Text)>,
    key: Text,
    v: Text,
    c: char,
    rest: Text,
)
    requires
        is_identifier(service),
        well_formed(pairs),
        is_identifier(key),
        !has_key(pairs, key),
        is_plain(v),
        is_control(c),
    ensures
        ({
            let before = render(service, pairs) + key + seq!['='] + escape(v);
            let text = before + seq![c] + rest;
            spec_parse(text) == Err::<ConfStrView, Fault>(
                (ErrorKindView::InvalidCharInValue(c), byte_pos(text, before.len() as int) as usize),
            )
        }),
{
    let before = render(service, pairs) + key + seq!['='] + escape(v);
    let text = before + seq![c] + rest;
    let toks = spec_char_indices(text);
    let input_len = utf8_len(text) as usize;
    let broken = key + seq!['='] + escape(v) + seq![c] + rest;
    let start = render(service, pairs).len() as int;
    let entry_toks = toks.skip(start);
    lemma_chars_of_indices(text);
    assert(text =~= render(service, pairs) + broken);
    assert(broken[0] == key[0]);
    assert(is_ident_char(key[0]));
    lemma_prefix_reads(toks, input_len, service, pairs, broken);
    lemma_broken_entry(entry_toks, input_len, pairs, key, v, c, rest);
    assert(before.len() == start + key.len() + 1 + escape(v).len());
    assert(entry_toks[key.len() as int + 1 + escape(v).len()] == toks[before.len() as int]);
}

/// A configuration that a configuration string can stand for: the
/// service name and the keys are identifiers, and no value has a control
/// character.
pub open spec fn valid_conf(c: ConfStrView) -> bool {
    &&& is_identifier(c.service)
    &&& c.params.dom().finite()
    &&& forall|k: Text| #[trigger]
        c.params.contains_key(k) ==> is_identifier(k) && is_plain(c.params[k])
}

/// The run of identifier characters holds identifier characters only.
pub proof fn lemma_ident_run_chars(toks: Seq<Token>, j: int)
    requires
        0 <= j < ident_run(toks),
    ensures
        j < toks.len(),
        is_ident_char(toks[j].1),
    decreases toks.len(),
{
    if j > 0 {
        lemma_ident_run_chars(toks.drop_first(), j - 1);
    }
}

/// What is read as an identifier is an identifier.
pub proof fn lemma_ident_output(toks: Seq<Token>, at: usize)
    ensures
        spec_ident(toks, at) matches Ok((id, n)) ==> is_identifier(id) && n == id.len(),
{
    if let Ok((id, n)) = spec_ident(toks, at) {
        lemma_ident_run_bound(toks);
        assert forall|i: int| 0 <= i < id.len() implies is_ident_char(#[trigger] id[i]) by {
            lemma_ident_run_chars(toks, i);
        }
    }
}

/// What is read as a value has no control character.
pub proof fn lemma_value_output(toks: Seq<Token>)
    ensures
        spec_value(toks) matches Ok((v, n)) ==> is_plain(v),
    decreases toks.len(),
{
    if toks.len() == 0 {
    } else if toks[0].1 == ';' {
        if toks.len() > 1 && toks[1].1 == ';' {
            lemma_value_output(toks.skip(2));
        }
    } else if !is_control(toks[0].1) {
        lemma_value_output(toks.skip(1));
    }
}

/// Reading entries keeps the pairs well-formed.
pub proof fn lemma_params_output(toks: Seq<Token>, input_len: usize, acc: Seq<(Text, Text)>)
    requires
        well_formed(acc),
    ensures
        spec_params(toks, input_len, acc) matches Ok(pairs) ==> well_formed(pairs),
    decreases toks.len(),
{
    if toks.len() > 0 {
        lemma_ident_output(toks, toks[0].0);
        lemma_ident_run_bound(toks);
        if let Ok((key, n)) = spec_ident(toks, toks[0].0) {
            if !has_key(acc, key) && n < toks.len() && toks[n as int].1 == '=' {
                let value_toks = toks.skip(n as int + 1);
                lemma_value_output(value_toks);
                lemma_value_stop(value_toks);
                if let Ok((value, m)) = spec_value(value_toks) {
                    let next = acc.push((key, value));
                    assert(well_formed(next)) by {
                        assert forall|i: int, j: int| 0 <= i < j < next.len() implies next[i].0
                            != next[j].0 by {
                            if j == acc.len() {
                                assert(acc[i].0 != key);
                            } else {
                                assert(acc[i].0 != acc[j].0);
                            }
                        }
                        assert forall|i: int| 0 <= i < next.len() implies is_identifier(
                            #[trigger] next[i].0,
                        ) by {
                            if i < acc.len() {
                                assert(next[i] == acc[i]);
                            }
                        }
                        assert forall|i: int| 0 <= i < next.len() implies is_plain(
                            #[trigger] next[i].1,
                        ) by {
                            if i < acc.len() {
                                assert(next[i] == acc[i]);
                            }
                        }
                    }
                    lemma_params_output(
                        toks.skip(entry_len(toks, n, m) as int),
                        input_len,
                        next,
                    );
                }
            }
        }
    }
}

/// The mapping of well-formed pairs holds identifiers as keys and no
/// control character in a value.
pub proof fn lemma_well_formed_map(service: Text, pairs: Seq<(Text, Text)>)
    requires
        is_identifier(service),
        well_formed(pairs),
    ensures
        valid_conf(ConfStrView { service, params: map_of(pairs) }),
{
    let m = map_of(pairs);
    assert forall|k: Text| #[trigger] m.contains_key(k) implies is_identifier(k) && is_plain(
        m[k],
    ) by {
        lemma_map_of_dom(pairs, k);
        let i = choose|i: int| 0 <= i < pairs.len() && #[trigger] pairs[i].0 == k;
        lemma_map_of_index(pairs, i);
    }
    lemma_map_of_dom(pairs, service);
}

/// Whatever a successful parse gives is a valid configuration.
pub proof fn law_parse_valid(s: Text)
    ensures
        spec_parse(s) matches Ok(c) ==> valid_conf(c),
{
    let toks = spec_char_indices(s);
    let input_len = utf8_len(s) as usize;
    lemma_ident_output(toks, 0);
    if let Ok((service, n)) = spec_ident(toks, 0) {
        let none = Seq::<(Text, Text)>::empty();
        lemma_params_output(toks.skip(n as int + 2), input_len, none);
        lemma_well_formed_map(service, none);
        if let Ok(pairs) = spec_params(toks.skip(n as int + 2), input_len, none) {
            lemma_well_formed_map(service, pairs);
        }
    }
}

/// Writing a parsed configuration out again, with its pairs in any
/// order and each value escaped, and parsing that text gives the same
/// configuration: the same service name and the same mapping.
pub proof fn law_reparse(s: Text, pairs: Seq<(Text, Text)>)
    requires
        spec_parse(s) is Ok,
        distinct_keys(pairs),
        map_of(pairs) == spec_parse(s)->Ok_0.params,
    ensures
        spec_parse(render(spec_parse(s)->Ok_0.service, pairs)) == spec_parse(s),
{
    let c = spec_parse(s)->Ok_0;
    law_parse_valid(s);
    assert forall|i: int| 0 <= i < pairs.len() implies is_identifier(#[trigger] pairs[i].0) by {
        lemma_map_of_index(pairs, i);
    }
    assert forall|i: int| 0 <= i < pairs.len() implies is_plain(#[trigger] pairs[i].1) by {
        lemma_map_of_index(pairs, i);
    }
    law_parse_rendered(c.service, pairs);
}

/// A key that was written before makes the parse fail with the error
/// for a duplicate key, at the byte offset at which the second writing of
/// the key starts. `rest` is what follows the key there: nothing, or
/// something that ends the key without breaking it.
pub proof fn law_duplicate_key(service: Text, pairs: Seq<(Text, Text)>, key: Text, rest: Text)
    requires
        is_identifier(service),
        well_formed(pairs),
        has_key(pairs, key),
        rest.len() > 0 ==> !is_ident_char(rest[0]) && !breaks_ident(rest[0]),
    ensures
        ({
            let before = render(service, pairs);
            let text = before + key + rest;
            spec_parse(text) == Err::<ConfStrView, Fault>(
                (ErrorKindView::DuplicateKey(key), byte_pos(text, before.len() as int) as usize),
            )
        }),
{
    let before = render(service, pairs);
    let text = before + key + rest;
    let toks = spec_char_indices(text);
    let input_len = utf8_len(text) as usize;
    let again = key + rest;
    let start = before.len() as int;
    let entry_toks = toks.skip(start);
    let klen = key.len() as int;
    let i = choose|i: int| 0 <= i < pairs.len() && #[trigger] pairs[i].0 == key;
    assert(is_identifier(pairs[i].0));
    lemma_chars_of_indices(text);
    assert(text =~= before + again);
    assert(again[0] == key[0]);
    assert(is_ident_char(key[0]));
    lemma_prefix_reads(toks, input_len, service, pairs, again);
    assert(entry_toks.len() == again.len());
    assert(chars_of(entry_toks).take(klen) =~= key);
    if rest.len() > 0 {
        assert(entry_toks[klen].1 == again[klen]);
        assert(again[klen] == rest[0]);
    }
    lemma_ident_reads(entry_toks, key, entry_toks[0].0);
    assert(entry_toks[0] == toks[start]);
}

/// The texts of entries written one after the other are the texts of
/// the first ones followed by the text of the last.
pub proof fn lemma_render_entries_push(pairs: Seq<(Text, Text)>, last: (Text, Text))
    ensures
        render_entries(pairs.push(last)) == render_entries(pairs) + render_entry(last),
    decreases pairs.len(),
{
    let all = pairs.push(last);
    if pairs.len() == 0 {
        assert(all.drop_first() =~= pairs);
        assert(render_entries(all) =~= render_entry(last) + render_entries(pairs));
        assert(render_entries(pairs) =~= Seq::<char>::empty());
        assert(render_entries(all) =~= render_entries(pairs) + render_entry(last));
    } else {
        lemma_render_entries_push(pairs.drop_first(), last);
        assert(all.drop_first() =~= pairs.drop_first().push(last));
        assert(render_entries(all) =~= render_entries(pairs) + render_entry(last));
    }
}

/// An entry that ends with the input, with no `;` behind its value, is
/// read like any other.
pub proof fn lemma_open_entry(
    toks: Seq<Token>,
    input_len: usize,
    acc: Seq<(Text, Text)>,
    key: Text,
    v: Text,
)
    requires
        is_identifier(key),
        !has_key(acc, key),
        is_plain(v),
        chars_of(toks) == key + seq!['='] + escape(v),
    ensures
        spec_params(toks, input_len, acc) == Ok::<Seq<(Text, Text)>, Fault>(acc.push((key, v))),
{
    let text = chars_of(toks);
    let klen = key.len() as int;
    let elen = escape(v).len() as int;
    assert(toks.len() == text.len());
    assert(text.take(klen) =~= key);
    assert(toks[klen].1 == text[klen]);
    assert(text[klen] == '=');
    lemma_ident_reads(toks, key, toks[0].0);
    let value_toks = toks.skip(klen + 1);
    lemma_chars_of_skip(toks, klen + 1);
    assert(text.skip(klen + 1) =~= escape(v) + Seq::<char>::empty());
    law_value_round_trip(value_toks, v, Seq::empty());
    assert(entry_len(toks, klen as nat, elen as nat) == toks.len());
    let done = toks.skip(toks.len() as int);
    assert(done.len() == 0);
    assert(spec_params(done, input_len, acc.push((key, v))) == Ok::<Seq<(Text, Text)>, Fault>(
        acc.push((key, v)),
    ));
}

/// The `;` behind the last entry may be left out: the text without it
/// parses to the same service and the same mapping.
pub proof fn law_last_semicolon_optional(service: Text, pairs: Seq<(Text, Text)>)
    requires
        is_identifier(service),
        well_formed(pairs),
        pairs.len() > 0,
    ensures
        render(service, pairs).len() > 0,
        spec_parse(render(service, pairs).drop_last()) == Ok::<ConfStrView, Fault>(
            ConfStrView { service, params: map_of(pairs) },
        ),
{
    let init = pairs.drop_last();
    let last = pairs.last();
    let open = last.0 + seq!['='] + escape(last.1);
    let text = render(service, pairs).drop_last();
    let toks = spec_char_indices(text);
    let input_len = utf8_len(text) as usize;
    let none = Seq::<(Text, Text)>::empty();
    let head = service.len() as int + 2;
    let skipped = render_entries(init).len() as int;
    let body = render_entries(init) + open;
    let body_toks = toks.skip(head);
    let entry_toks = body_toks.skip(skipped);
    assert(pairs =~= init.push(last));
    lemma_render_entries_push(init, last);
    assert(render_entry(last) =~= open + seq![';']);
    assert(text =~= service + seq![':', ':'] + body);
    assert(is_identifier(last.0));
    assert(is_plain(last.1));
    assert(well_formed(init)) by {
        assert forall|i: int, j: int| 0 <= i < j < init.len() implies init[i].0 != init[j].0 by {
            assert(init[i] == pairs[i]);
            assert(init[j] == pairs[j]);
        }
        assert forall|i: int| 0 <= i < init.len() implies is_identifier(#[trigger] init[i].0) by {
            assert(init[i] == pairs[i]);
        }
        assert forall|i: int| 0 <= i < init.len() implies is_plain(#[trigger] init[i].1) by {
            assert(init[i] == pairs[i]);
        }
    }
    assert(!has_key(init, last.0)) by {
        if has_key(init, last.0) {
            let i = choose|i: int| 0 <= i < init.len() && #[trigger] init[i].0 == last.0;
            assert(init[i] == pairs[i]);
            assert(pairs[i].0 != pairs[pairs.len() - 1].0);
        }
    }
    lemma_chars_of_indices(text);
    lemma_head_reads(toks, input_len, service, body);
    assert(spec_params(body_toks, input_len, none) == spec_params(entry_toks, input_len, init)) by {
        assert(open[0] == last.0[0]);
        assert(is_ident_char(last.0[0]));
        assert forall|i: int| 0 <= i < init.len() implies !has_key(none, #[trigger] init[i].0) by {}
        lemma_entries_read(body_toks, input_len, none, init, open);
        assert(none + init =~= init);
    }
    assert(chars_of(entry_toks) == open) by {
        lemma_chars_of_skip(body_toks, skipped);
        assert(body.skip(skipped) =~= open);
    }
    lemma_open_entry(entry_toks, input_len, init, last.0, last.1);
}

/// A key at the end of the input, with no `=` behind it, makes the parse
/// fail with the error for an incomplete entry, at the length of the
/// input in bytes.
pub proof fn law_incomplete_entry(service: Text, pairs: Seq<(Text, Text)>, key: Text)
    requires
        is_identifier(service),
        well_formed(pairs),
        is_identifier(key),
        !has_key(pairs, key),
    ensures
        ({
            let text = render(service, pairs) + key;
            spec_parse(text) == Err::<ConfStrView, Fault>(
                (ErrorKindView::IncompleteKeyValue, utf8_len(text) as usize),
            )
        }),
{
    let text = render(service, pairs) + key;
    let toks = spec_char_indices(text);
    let input_len = utf8_len(text) as usize;
    let entry_toks = toks.skip(render(service, pairs).len() as int);
    lemma_chars_of_indices(text);
    assert(is_ident_char(key[0]));
    lemma_prefix_reads(toks, input_len, service, pairs, key);
    assert(entry_toks.len() == key.len());
    assert(chars_of(entry_toks).take(key.len() as int) =~= key);
    lemma_ident_reads(entry_toks, key, entry_toks[0].0);
}

/// `p` is the offset that one of the tokens carries.
pub open spec fn from_tokens(toks: Seq<Token>, p: usize) -> bool {
    exists|j: int| 0 <= j < toks.len() && #[trigger] toks[j].0 == p
}

/// An offset of the tokens behind the first `k` is an offset of the
/// tokens.
pub proof fn lemma_from_tokens_skip(toks: Seq<Token>, k: int, p: usize)
    requires
        0 <= k <= toks.len(),
        from_tokens(toks.skip(k), p),
    ensures
        from_tokens(toks, p),
{
    let j = choose|j: int| 0 <= j < toks.skip(k).len() && #[trigger] toks.skip(k)[j].0 == p;
    assert(toks[k + j].0 == p);
}

/// A failure to read a value is reported at a token.
pub proof fn lemma_value_fault(toks: Seq<Token>)
    ensures
        spec_value(toks) matches Err(f) ==> from_tokens(toks, f.1),
    decreases toks.len(),
{
    if toks.len() == 0 {
    } else if toks[0].1 == ';' {
        if toks.len() > 1 && toks[1].1 == ';' {
            lemma_value_fault(toks.skip(2));
            if let Err(f) = spec_value(toks.skip(2)) {
                lemma_from_tokens_skip(toks, 2, f.1);
            }
        }
    } else if is_control(toks[0].1) {
        assert(toks[0].0 == toks[0].0);
    } else {
        lemma_value_fault(toks.skip(1));
        if let Err(f) = spec_value(toks.skip(1)) {
            lemma_from_tokens_skip(toks, 1, f.1);
        }
    }
}

/// A failure to read an identifier is reported at a token, or at `at`.
pub proof fn lemma_ident_fault(toks: Seq<Token>, at: usize)
    ensures
        spec_ident(toks, at) matches Err(f) ==> f.1 == at || from_tokens(toks, f.1),
{
    lemma_ident_run_bound(toks);
    if let Err(f) = spec_ident(toks, at) {
        let n = ident_run(toks) as int;
        if toks.len() == 0 {
        } else if n == 0 {
            assert(toks[0].0 == f.1);
        } else {
            assert(toks[n].0 == f.1);
        }
    }
}

/// A failure to read the entries is reported at a token, or at
/// `input_len`.
pub proof fn lemma_params_fault(toks: Seq<Token>, input_len: usize, acc: Seq<(Text, Text)>)
    ensures
        spec_params(toks, input_len, acc) matches Err(f) ==> f.1 == input_len || from_tokens(
            toks,
            f.1,
        ),
    decreases toks.len(),
{
    if toks.len() > 0 {
        lemma_ident_fault(toks, toks[0].0);
        lemma_ident_run_bound(toks);
        assert(from_tokens(toks, toks[0].0)) by {
            assert(toks[0].0 == toks[0].0);
        }
        if let Ok((key, n)) = spec_ident(toks, toks[0].0) {
            if !has_key(acc, key) && n < toks.len() {
                assert(toks[n as int].0 == toks[n as int].0);
                if toks[n as int].1 == '=' {
                    let value_toks = toks.skip(n as int + 1);
                    lemma_value_fault(value_toks);
                    lemma_value_stop(value_toks);
                    match spec_value(value_toks) {
                        Err(f) => {
                            lemma_from_tokens_skip(toks, n as int + 1, f.1);
                        },
                        Ok((value, m)) => {
                            let taken = entry_len(toks, n, m) as int;
                            let next = acc.push((key, value));
                            lemma_params_fault(toks.skip(taken), input_len, next);
                            if let Err(f) = spec_params(toks.skip(taken), input_len, next) {
                                if f.1 != input_len {
                                    lemma_from_tokens_skip(toks, taken, f.1);
                                }
                            }
                        },
                    }
                }
            }
        }
    }
}

/// `p` is the byte offset at which a character of `s` starts, or the
/// length of `s` in bytes.
pub open spec fn is_offset_of(s: Text, p: usize) -> bool {
    exists|i: int| 0 <= i <= s.len() && p == #[trigger] byte_pos(s, i) as usize
}

/// Every failure is reported at a byte offset of the input at which a
/// character starts, or at the end of the input: positions count bytes,
/// not characters, and never point into the middle of a character.
pub proof fn law_fault_position(s: Text)
    ensures
        spec_parse(s) matches Err(f) ==> is_offset_of(s, f.1),
{
    let toks = spec_char_indices(s);
    let input_len = utf8_len(s) as usize;
    if let Err(f) = spec_parse(s) {
        lemma_ident_fault(toks, 0);
        lemma_ident_run_bound(toks);
        assert(s.take(0) =~= Seq::<char>::empty());
        assert(s.take(s.len() as int) =~= s);
        assert(byte_pos(s, 0) == 0);
        assert(byte_pos(s, s.len() as int) == utf8_len(s));
        let p = f.1;
        if let Ok((service, n)) = spec_ident(toks, 0) {
            let behind = toks.skip(n as int);
            match spec_double_colon(behind) {
                Err(g) => {
                    assert(from_tokens(behind, g.1)) by {
                        if behind[0].1 != ':' || behind.len() == 1 {
                            assert(behind[0].0 == g.1);
                        } else {
                            assert(behind[1].0 == g.1);
                        }
                    }
                    lemma_from_tokens_skip(toks, n as int, p);
                },
                Ok(_) => {
                    let body = toks.skip(n as int + 2);
                    lemma_params_fault(body, input_len, Seq::empty());
                    if p != input_len {
                        lemma_from_tokens_skip(toks, n as int + 2, p);
                    }
                },
            }
        }
        if from_tokens(toks, p) {
            let j = choose|j: int| 0 <= j < toks.len() && #[trigger] toks[j].0 == p;
            assert(p == byte_pos(s, j) as usize);
        }
    }
}

} // verus!
