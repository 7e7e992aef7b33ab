//! The routing key of a request: the value of the first `"model"` key.
//!
//! The body is scanned, never parsed. The value is handed back as a slice of the
//! body itself.

use vstd::prelude::*;
use vstd::slice::slice_subrange;

use crate::scan;

verus! {

/// The text between the quotes that follow the first `"model"` key of `body`.
///
/// White space may stand around the colon. There is no value where the key does
/// not occur, where no colon and quote follow it, or where the closing quote is
/// missing.
pub open spec fn model_value(body: Seq<u8>) -> Option<Seq<u8>> {
    match scan::find(body, scan::ascii("\"model\"")) {
        None => None,
        Some(key) => {
            let colon = scan::past_space(body, key + 7);
            let open = scan::past_space(body, colon + 1);
            if colon < body.len() && body[colon] == ':' as u8 && open < body.len() && body[open]
                == '"' as u8 {
                match scan::find(body.skip(open + 1), seq!['"' as u8]) {
                    None => None,
                    Some(n) => Some(body.subrange(open + 1, open + 1 + n)),
                }
            } else {
                None
            }
        },
    }
}

/// The value of the first `"model"` key of `body`, borrowed from `body`.
pub fn extract_model(body: &[u8]) -> (r: Option<&[u8]>)
    ensures
        match (r, model_value(body@)) {
            (Some(v), Some(m)) => v@ == m,
            (None, None) => true,
            _ => false,
        },
{
    proof {
        reveal_strlit("\"model\"");
        scan::lemma_find(body@, scan::ascii("\"model\""));
    }
    let needle = scan::ascii_bytes("\"model\"");
    let key: usize = match memchr::memmem::find(body, needle) {
        Some(i) => i,
        None => {
            return None;
        },
    };
    proof {
        scan::lemma_find_first(body@, needle@, key as int);
    }
    assert(key + 7 <= body.len());
    let colon: usize = scan::skip_ws(body, key + 7);
    if colon >= body.len() || body[colon] != ':' as u8 {
        return None;
    }
    let open: usize = scan::skip_ws(body, colon + 1);
    if open >= body.len() || body[open] != '"' as u8 {
        return None;
    }
    let rest = slice_subrange(body, open + 1, body.len());
    proof {
        assert(rest@ =~= body@.skip(open + 1));
        scan::lemma_find_one(rest@, '"' as u8);
    }
    match memchr::memchr('"' as u8, rest) {
        Some(n) => Some(slice_subrange(body, open + 1, open + 1 + n)),
        None => None,
    }
}

/// The first chunk is enough: once a body's beginning holds the value, no bytes
/// that follow change it.
pub proof fn law_first_chunk_decides(first: Seq<u8>, rest: Seq<u8>)
    requires
        model_value(first) is Some,
    ensures
        model_value(first + rest) == model_value(first),
{
    reveal_strlit("\"model\"");
    let needle = scan::ascii("\"model\"");
    scan::lemma_find(first, needle);
    let key = scan::find(first, needle)->0;
    scan::lemma_find_extend(first, rest, needle, key);
    let colon = scan::past_space(first, key + 7);
    scan::lemma_past_space(first, key + 7);
    scan::lemma_past_space_extend(first, rest, key + 7);
    let open = scan::past_space(first, colon + 1);
    scan::lemma_past_space(first, colon + 1);
    scan::lemma_past_space_extend(first, rest, colon + 1);
    let quote = seq!['"' as u8];
    scan::lemma_find(first.skip(open + 1), quote);
    let n = scan::find(first.skip(open + 1), quote)->0;
    scan::lemma_find_extend(first.skip(open + 1), rest, quote, n);
    assert((first + rest).skip(open + 1) =~= first.skip(open + 1) + rest);
    assert((first + rest).subrange(open + 1, open + 1 + n) =~= first.subrange(
        open + 1,
        open + 1 + n,
    ));
}

/// The value is a piece of the body, and holds no quote.
pub proof fn law_value_lies_in_body(body: Seq<u8>)
    requires
        model_value(body) is Some,
    ensures
        scan::occurs(body, model_value(body)->0),
        forall|i: int|
            0 <= i < (model_value(body)->0).len() ==> (model_value(body)->0)[i] != '"' as u8,
{
    reveal_strlit("\"model\"");
    let needle = scan::ascii("\"model\"");
    scan::lemma_find(body, needle);
    let key = scan::find(body, needle)->0;
    scan::lemma_past_space(body, key + 7);
    let colon = scan::past_space(body, key + 7);
    scan::lemma_past_space(body, colon + 1);
    let open = scan::past_space(body, colon + 1);
    scan::lemma_find_one(body.skip(open + 1), '"' as u8);
    let n = scan::find(body.skip(open + 1), seq!['"' as u8])->0;
    let v = model_value(body)->0;
    assert(scan::occurs_at(body, v, open + 1));
    assert forall|i: int| 0 <= i < v.len() implies v[i] != '"' as u8 by {
        assert(v[i] == body.skip(open + 1)[i]);
    }
}

/// The text between the quotes behind the leftmost `"model"` key is the model, however
/// much white space stands around the colon and whatever follows.
pub proof fn law_model_is_what_stands_in_quotes(
    before: Seq<u8>,
    gap: Seq<u8>,
    gap2: Seq<u8>,
    value: Seq<u8>,
    after: Seq<u8>,
)
    requires
        forall|j: int|
            0 <= j < before.len() ==> (#[trigger] (before + scan::ascii("\"model\"")).skip(
                j,
            )).take(7) != scan::ascii("\"model\""),
        forall|i: int|
            0 <= i < gap.len() ==> (#[trigger] gap[i] == ' ' as u8 || gap[i] == '\t' as u8
                || gap[i] == '\n' as u8 || gap[i] == '\r' as u8),
        forall|i: int|
            0 <= i < gap2.len() ==> (#[trigger] gap2[i] == ' ' as u8 || gap2[i] == '\t' as u8
                || gap2[i] == '\n' as u8 || gap2[i] == '\r' as u8),
        forall|i: int| 0 <= i < value.len() ==> #[trigger] value[i] != '"' as u8,
    ensures
        model_value(
            (before + scan::ascii("\"model\"")) + (gap + (seq![':' as u8] + (gap2 + (seq!['"' as u8]
                + (value + (seq!['"' as u8] + after)))))),
        ) == Some(value),
{
    let key = scan::ascii("\"model\"");
    let head = before + key;
    let quoted = seq!['"' as u8] + (value + (seq!['"' as u8] + after));
    lemma_leftmost_key(before, gap + (seq![':' as u8] + (gap2 + quoted)));
    lemma_quoted(head, gap, gap2, value, after);
}

proof fn lemma_leftmost_key(before: Seq<u8>, rest: Seq<u8>)
    requires
        forall|j: int|
            0 <= j < before.len() ==> (#[trigger] (before + scan::ascii("\"model\"")).skip(
                j,
            )).take(7) != scan::ascii("\"model\""),
    ensures
        scan::find((before + scan::ascii("\"model\"")) + rest, scan::ascii("\"model\"")) == Some(
            before.len() as int,
        ),
        scan::ascii("\"model\"").len() == 7,
{
    reveal_strlit("\"model\"");
    let key = scan::ascii("\"model\"");
    let head = before + key;
    let k = before.len() as int;
    assert(head.subrange(k, k + 7) =~= key);
    assert forall|j: int| 0 <= j < k implies !scan::occurs_at(head, key, j) by {
        if scan::occurs_at(head, key, j) {
            assert(head.skip(j).take(7) =~= head.subrange(j, j + 7));
        }
    }
    assert(scan::first_at(head, key, k));
    scan::lemma_find_extend(head, rest, key, k);
}

proof fn lemma_quoted(
    head: Seq<u8>,
    gap: Seq<u8>,
    gap2: Seq<u8>,
    value: Seq<u8>,
    after: Seq<u8>,
)
    requires
        head.len() >= 7,
        scan::find(
            head + (gap + (seq![':' as u8] + (gap2 + (seq!['"' as u8] + (value + (seq!['"' as u8]
                + after)))))),
            scan::ascii("\"model\""),
        ) == Some(head.len() - 7),
        forall|i: int|
            0 <= i < gap.len() ==> (#[trigger] gap[i] == ' ' as u8 || gap[i] == '\t' as u8
                || gap[i] == '\n' as u8 || gap[i] == '\r' as u8),
        forall|i: int|
            0 <= i < gap2.len() ==> (#[trigger] gap2[i] == ' ' as u8 || gap2[i] == '\t' as u8
                || gap2[i] == '\n' as u8 || gap2[i] == '\r' as u8),
        forall|i: int| 0 <= i < value.len() ==> #[trigger] value[i] != '"' as u8,
    ensures
        model_value(
            head + (gap + (seq![':' as u8] + (gap2 + (seq!['"' as u8] + (value + (seq!['"' as u8]
                + after)))))),
        ) == Some(value),
{
    let tail = value + (seq!['"' as u8] + after);
    let quoted = seq!['"' as u8] + tail;
    let named = seq![':' as u8] + (gap2 + quoted);
    let body = head + (gap + named);
    let colon = (head.len() + gap.len()) as int;
    lemma_gap(head, gap, named);
    let open = colon + 1 + gap2.len();
    let front = head + gap + seq![':' as u8];
    assert(body =~= front + (gap2 + quoted));
    lemma_gap(front, gap2, quoted);
    let inner = body.skip(open + 1);
    assert(inner =~= tail);
    lemma_closing_quote(value, after);
    assert(body.subrange(open + 1, open + 1 + value.len()) =~= tail.take(value.len() as int));
    assert(tail.take(value.len() as int) =~= value);
}

proof fn lemma_closing_quote(value: Seq<u8>, after: Seq<u8>)
    requires
        forall|i: int| 0 <= i < value.len() ==> #[trigger] value[i] != '"' as u8,
    ensures
        scan::find(value + (seq!['"' as u8] + after), seq!['"' as u8]) == Some(value.len() as int),
{
    let quote = '"' as u8;
    let rest = seq![quote] + after;
    let inner = value + rest;
    let n = value.len() as int;
    assert(inner[n] == rest[0]);
    scan::lemma_occurs_one(inner, quote, n);
    assert forall|j: int| 0 <= j < n implies !scan::occurs_at(inner, seq![quote], j) by {
        scan::lemma_occurs_one(inner, quote, j);
        assert(inner[j] == value[j]);
    }
    scan::lemma_find_first(inner, seq![quote], n);
}

proof fn lemma_gap(front: Seq<u8>, gap: Seq<u8>, rest: Seq<u8>)
    requires
        forall|k: int|
            0 <= k < gap.len() ==> (#[trigger] gap[k] == ' ' as u8 || gap[k] == '\t' as u8
                || gap[k] == '\n' as u8 || gap[k] == '\r' as u8),
        rest.len() > 0,
        !scan::is_space(rest[0]),
    ensures
        scan::past_space(front + (gap + rest), front.len() as int) == front.len() + gap.len(),
        (front + (gap + rest))[(front.len() + gap.len()) as int] == rest[0],
{
    let body = front + (gap + rest);
    let i = front.len() as int;
    scan::lemma_past_space(body, i);
    let p = scan::past_space(body, i);
    if p < i + gap.len() {
        assert(body[p] == gap[p - i]);
    } else if p > i + gap.len() {
        assert(body[i + gap.len()] == rest[0]);
    }
}

/// A body that holds no `"model"` key names no model.
pub proof fn law_no_key_no_model(body: Seq<u8>)
    requires
        forall|j: int|
            0 <= j <= body.len() - 7 ==> (#[trigger] body.skip(j)).take(7) != scan::ascii(
                "\"model\"",
            ),
    ensures
        model_value(body) is None,
{
    reveal_strlit("\"model\"");
    let key = scan::ascii("\"model\"");
    scan::lemma_find(body, key);
    if let Some(i) = scan::find(body, key) {
        assert(body.skip(i).take(7) =~= body.subrange(i, i + 7));
    }
}

/// Only a text in quotes is a model. Where something else than a colon follows the key,
/// something else than a quote follows the colon, or no quote closes the text, no model
/// is named, and no later key is looked for.
pub proof fn law_only_a_text_in_quotes_is_a_model(
    before: Seq<u8>,
    gap: Seq<u8>,
    gap2: Seq<u8>,
    rest: Seq<u8>,
)
    requires
        forall|j: int|
            0 <= j < before.len() ==> (#[trigger] (before + scan::ascii("\"model\"")).skip(
                j,
            )).take(7) != scan::ascii("\"model\""),
        forall|i: int| 0 <= i < gap.len() ==> scan::is_space(#[trigger] gap[i]),
        forall|i: int| 0 <= i < gap2.len() ==> scan::is_space(#[trigger] gap2[i]),
        rest.len() > 0 ==> !scan::is_space(rest[0]),
    ensures
        rest.len() == 0 || rest[0] != ':' as u8 ==> model_value(
            (before + scan::ascii("\"model\"")) + (gap + rest),
        ) is None,
        rest.len() == 0 || rest[0] != '"' as u8 ==> model_value(
            (before + scan::ascii("\"model\"")) + (gap + (seq![':' as u8] + (gap2 + rest))),
        ) is None,
        (forall|i: int| 0 < i < rest.len() ==> rest[i] != '"' as u8) ==> model_value(
            (before + scan::ascii("\"model\"")) + (gap + (seq![':' as u8] + (gap2 + rest))),
        ) is None,
{
    let head = before + scan::ascii("\"model\"");
    reveal_strlit("\"model\"");
    assert(head.len() == before.len() + 7);
    lemma_leftmost_key(before, gap + rest);
    lemma_space_to(head, gap, rest);
    if rest.len() > 0 {
        assert((head + (gap + rest))[(head.len() + gap.len()) as int] == rest[0]);
    }
    lemma_behind_the_colon(before, gap, gap2, rest);
}

proof fn lemma_behind_the_colon(before: Seq<u8>, gap: Seq<u8>, gap2: Seq<u8>, rest: Seq<u8>)
    requires
        forall|j: int|
            0 <= j < before.len() ==> (#[trigger] (before + scan::ascii("\"model\"")).skip(
                j,
            )).take(7) != scan::ascii("\"model\""),
        forall|i: int| 0 <= i < gap.len() ==> scan::is_space(#[trigger] gap[i]),
        forall|i: int| 0 <= i < gap2.len() ==> scan::is_space(#[trigger] gap2[i]),
        rest.len() > 0 ==> !scan::is_space(rest[0]),
    ensures
        ({
            let body = (before + scan::ascii("\"model\"")) + (gap + (seq![':' as u8] + (gap2
                + rest)));
            &&& rest.len() == 0 || rest[0] != '"' as u8 ==> model_value(body) is None
            &&& (forall|i: int| 0 < i < rest.len() ==> rest[i] != '"' as u8) ==> model_value(
                body,
            ) is None
        }),
{
    reveal_strlit("\"model\"");
    let head = before + scan::ascii("\"model\"");
    let colon = seq![':' as u8] + (gap2 + rest);
    let body = head + (gap + colon);
    lemma_leftmost_key(before, gap + colon);
    assert(colon[0] == ':' as u8);
    lemma_space_to(head, gap, colon);
    let front = head + gap + seq![':' as u8];
    assert(body =~= front + (gap2 + rest));
    lemma_space_to(front, gap2, rest);
    let open = (front.len() + gap2.len()) as int;
    if rest.len() > 0 {
        assert(body[open] == rest[0]);
    }
    if rest.len() > 0 && (forall|i: int| 0 < i < rest.len() ==> rest[i] != '"' as u8) {
        let behind = body.skip(open + 1);
        scan::lemma_find(behind, seq!['"' as u8]);
        if let Some(n) = scan::find(behind, seq!['"' as u8]) {
            scan::lemma_occurs_one(behind, '"' as u8, n);
            assert(behind[n] == body[open + 1 + n]);
            assert(body[open + 1 + n] == rest[n + 1]);
        }
    }
}

/// White space ends where something else begins.
proof fn lemma_space_to(front: Seq<u8>, gap: Seq<u8>, rest: Seq<u8>)
    requires
        forall|i: int| 0 <= i < gap.len() ==> scan::is_space(#[trigger] gap[i]),
        rest.len() > 0 ==> !scan::is_space(rest[0]),
    ensures
        scan::past_space(front + (gap + rest), front.len() as int) == front.len() + gap.len(),
{
    let body = front + (gap + rest);
    let i = front.len() as int;
    scan::lemma_past_space(body, i);
    let p = scan::past_space(body, i);
    if p < i + gap.len() {
        assert(body[p] == gap[p - i]);
    } else if p > i + gap.len() {
        assert(body[i + gap.len()] == rest[0]);
    }
}

} // verus!
