//! Usage scanning of responses: server-sent events and plain JSON bodies.
//!
//! [`UsageScanner::scan_chunk`] takes one response chunk at a time. A chunk
//! without `"usage"` costs a byte search and nothing else. Where the key occurs,
//! only the usage object behind it is parsed. A `data:` line that a chunk leaves
//! unfinished is held back and joined with the next chunk. The line `data: [DONE]`
//! ends the stream, and whatever follows it is ignored.

use vstd::prelude::*;
use vstd::slice::slice_subrange;

use crate::json;
use crate::model::{ProviderKind, Usage};
use crate::scan;

verus! {

/// What scanning one chunk found.
#[derive(Clone, Copy, Debug, PartialEq, Eq, Structural)]
pub enum ScanResult {
    /// No usage object and no terminator, or nothing that still counts.
    Skip,
    /// A usage object was read.
    Found,
    /// The terminator `data: [DONE]` stands in the chunk. Scanning stops.
    Done,
}

/// The usage object of an OpenAI-compatible provider.
#[derive(Clone, Copy, Debug, PartialEq, Eq, Structural)]
pub struct OpenAiUsageFields {
    pub prompt_tokens: Option<u64>,
    pub completion_tokens: Option<u64>,
    pub total_tokens: Option<u64>,
    /// Some gateways use this name for `prompt_tokens`.
    pub input_tokens: Option<u64>,
    /// Some gateways use this name for `completion_tokens`.
    pub output_tokens: Option<u64>,
    /// `prompt_tokens_details.cached_tokens`.
    pub details_cached_tokens: Option<u64>,
    /// Some gateways put `cached_tokens` outside the details.
    pub cached_tokens: Option<u64>,
}

/// The usage object of Anthropic.
#[derive(Clone, Copy, Debug, PartialEq, Eq, Structural)]
pub struct AnthropicUsageFields {
    pub input_tokens: Option<u64>,
    pub output_tokens: Option<u64>,
    pub cache_read_input_tokens: Option<u64>,
}

// ---------------------------------------------------------------------------
// Lines and payloads
// ---------------------------------------------------------------------------

/// The key that introduces a usage object, quotes included.
pub open spec fn usage_key() -> Seq<u8> {
    scan::ascii("\"usage\"")
}

/// The field name that introduces the payload of an event.
pub open spec fn data_tag() -> Seq<u8> {
    scan::ascii("data:")
}

/// The payload that ends the stream.
pub open spec fn done_mark() -> Seq<u8> {
    scan::ascii("[DONE]")
}

/// The end of the first line of `s`, its line feed left out.
pub open spec fn line_end(s: Seq<u8>) -> int {
    match scan::find(s, seq!['\n' as u8]) {
        Some(n) => n,
        None => s.len() as int,
    }
}

/// The first line of `s`, without its line feed.
pub open spec fn first_line(s: Seq<u8>) -> Seq<u8> {
    s.take(line_end(s))
}

/// The first line of `s`, with its line feed where it has one.
pub open spec fn first_feed(s: Seq<u8>) -> Seq<u8> {
    if line_end(s) < s.len() {
        s.take(line_end(s) + 1)
    } else {
        s
    }
}

/// What stands behind the first line of `s` and its line feed.
pub open spec fn other_lines(s: Seq<u8>) -> Seq<u8> {
    s.skip(first_feed(s).len() as int)
}

/// What stands in `s` behind its last line feed.
pub open spec fn last_line(s: Seq<u8>) -> Seq<u8>
    decreases s.len(),
{
    if s.len() == 0 || s.last() == '\n' as u8 {
        Seq::empty()
    } else {
        last_line(s.drop_last()).push(s.last())
    }
}

/// `o` as a list of none or one.
pub open spec fn listed(o: Option<Seq<u8>>) -> Seq<Seq<u8>> {
    match o {
        Some(x) => seq![x],
        None => Seq::empty(),
    }
}

/// The payload of a `data:` line: what stands behind the field name and the white
/// space that follows it.
pub open spec fn payload_of(line: Seq<u8>) -> Option<Seq<u8>> {
    match scan::find(line, data_tag()) {
        Some(i) => Some(line.skip(scan::past_space(line, i + 5))),
        None => None,
    }
}

/// The payloads of the `data:` lines of `s`, in order.
pub open spec fn payloads(s: Seq<u8>) -> Seq<Seq<u8>>
    decreases s.len(),
{
    if s.len() == 0 {
        Seq::empty()
    } else {
        proof {
            lemma_first_line(s);
        }
        listed(payload_of(first_line(s))) + payloads(other_lines(s))
    }
}

/// `s` without the white space at its end.
pub open spec fn without_end_space(s: Seq<u8>) -> Seq<u8>
    decreases s.len(),
{
    if s.len() > 0 && scan::is_space(s.last()) {
        without_end_space(s.drop_last())
    } else {
        s
    }
}

/// The line is the terminator: its payload is `[DONE]` and nothing else.
pub open spec fn terminates(line: Seq<u8>) -> bool {
    payload_of(line) matches Some(p) && without_end_space(p) == done_mark()
}

/// One of the lines of `s` is the terminator.
pub open spec fn ended(s: Seq<u8>) -> bool
    decreases s.len(),
{
    if s.len() == 0 {
        false
    } else {
        proof {
            lemma_first_line(s);
        }
        terminates(first_line(s)) || ended(other_lines(s))
    }
}

/// The lines of `s` before the terminator: all of `s` where there is none.
pub open spec fn live(s: Seq<u8>) -> Seq<u8>
    decreases s.len(),
{
    if s.len() == 0 || terminates(first_line(s)) {
        Seq::empty()
    } else {
        proof {
            lemma_first_line(s);
        }
        first_feed(s) + live(other_lines(s))
    }
}

/// A text is its first line and the others.
pub proof fn lemma_first_line(s: Seq<u8>)
    ensures
        0 <= line_end(s) <= s.len(),
        forall|i: int| 0 <= i < line_end(s) ==> s[i] != '\n' as u8,
        line_end(s) < s.len() ==> s[line_end(s)] == '\n' as u8,
        s.len() > 0 ==> first_feed(s).len() > 0,
        s.len() > 0 ==> other_lines(s).len() < s.len(),
        s == first_feed(s) + other_lines(s),
        other_lines(s).len() > 0 ==> line_end(s) < s.len(),
        other_lines(s).len() > 0 ==> other_lines(s).last() == s.last(),
{
    scan::lemma_find_one(s, '\n' as u8);
    assert(s =~= first_feed(s) + other_lines(s));
}

// ---------------------------------------------------------------------------
// Usage objects
// ---------------------------------------------------------------------------

/// Where a reader of JSON text stands: how many braces are open, whether it is
/// inside a string, and whether the next byte of that string is escaped.
pub struct Lex {
    pub depth: nat,
    pub in_string: bool,
    pub escaped: bool,
}

/// One byte further.
pub open spec fn lex_step(st: Lex, b: u8) -> Lex {
    if st.in_string {
        if st.escaped {
            Lex { escaped: false, ..st }
        } else if b == '\\' as u8 {
            Lex { escaped: true, ..st }
        } else if b == '"' as u8 {
            Lex { in_string: false, ..st }
        } else {
            st
        }
    } else if b == '"' as u8 {
        Lex { in_string: true, ..st }
    } else if b == '{' as u8 {
        Lex { depth: st.depth + 1, ..st }
    } else if b == '}' as u8 && st.depth > 0 {
        Lex { depth: (st.depth - 1) as nat, ..st }
    } else {
        st
    }
}

/// Where a reader stands that has read all of `s`.
pub open spec fn lex(s: Seq<u8>) -> Lex
    decreases s.len(),
{
    if s.len() == 0 {
        Lex { depth: 0, in_string: false, escaped: false }
    } else {
        lex_step(lex(s.drop_last()), s.last())
    }
}

/// The first `n` bytes of `s` are the shortest beginning after which no brace is
/// open any more.
pub open spec fn closes_at(s: Seq<u8>, n: int) -> bool {
    0 < n <= s.len() && lex(s.take(n)).depth == 0 && forall|k: int|
        0 < k < n ==> lex(#[trigger] s.take(k)).depth > 0
}

/// The object that stands at the beginning of `s`: up to the brace that closes
/// the first one.
pub open spec fn leading_object(s: Seq<u8>) -> Option<Seq<u8>> {
    if s.len() > 0 && s[0] == '{' as u8 && exists|n: int| closes_at(s, n) {
        Some(s.take(choose|n: int| closes_at(s, n)))
    } else {
        None
    }
}

/// The object behind the first `"usage"` key of `buf` and the colon that follows
/// it.
pub open spec fn usage_object(buf: Seq<u8>) -> Option<Seq<u8>> {
    match scan::find(buf, usage_key()) {
        None => None,
        Some(key) => match scan::find(buf.skip(key + 7), seq![':' as u8]) {
            None => None,
            Some(n) => leading_object(buf.skip(scan::past_space(buf, key + 7 + n + 1))),
        },
    }
}

/// One of the payloads holds the `"usage"` key.
pub open spec fn any_usage(ps: Seq<Seq<u8>>) -> bool {
    exists|i: int| 0 <= i < ps.len() && scan::occurs(#[trigger] ps[i], usage_key())
}

/// The usage objects of the payloads, in order.
pub open spec fn objects_of(ps: Seq<Seq<u8>>) -> Seq<Seq<u8>>
    decreases ps.len(),
{
    if ps.len() == 0 {
        Seq::empty()
    } else {
        listed(usage_object(ps[0])) + objects_of(ps.drop_first())
    }
}

/// The usage objects of `buf`: one per `data:` line that holds one. A text in
/// which no `data:` line holds the key is taken as one JSON body.
pub open spec fn usage_objects(buf: Seq<u8>) -> Seq<Seq<u8>> {
    if any_usage(payloads(buf)) {
        objects_of(payloads(buf))
    } else {
        listed(usage_object(buf))
    }
}

/// The unfinished last line of `buf` that the next chunk is joined to: it holds
/// a `data:` field, and no usage object that was already read.
pub open spec fn held_back(buf: Seq<u8>) -> Seq<u8> {
    let trailing = last_line(buf);
    if scan::occurs(trailing, data_tag()) && usage_object(trailing) is None {
        trailing
    } else {
        Seq::empty()
    }
}

// ---------------------------------------------------------------------------
// Finding them
// ---------------------------------------------------------------------------

/// The object behind the `"usage"` key of `buf`, borrowed from `buf`. Braces
/// inside string values do not count.
#[verifier::rlimit(30)]
pub fn extract_usage_object(buf: &[u8]) -> (r: Option<&[u8]>)
    ensures
        match (r, usage_object(buf@)) {
            (Some(v), Some(o)) => v@ == o,
            (None, None) => true,
            _ => false,
        },
{
    proof {
        reveal_strlit("\"usage\"");
        scan::lemma_find(buf@, usage_key());
    }
    let key: usize = match memchr::memmem::find(buf, scan::ascii_bytes("\"usage\"")) {
        Some(i) => i,
        None => {
            return None;
        },
    };
    proof {
        scan::lemma_find_first(buf@, usage_key(), key as int);
    }
    assert(key + 7 <= buf.len());
    let rest = slice_subrange(buf, key + 7, buf.len());
    proof {
        assert(rest@ =~= buf@.skip(key + 7));
        scan::lemma_find_one(rest@, ':' as u8);
    }
    let colon: usize = match memchr::memchr(':' as u8, rest) {
        Some(i) => i,
        None => {
            return None;
        },
    };
    let start: usize = scan::skip_ws(buf, key + 7 + colon + 1);
    if start >= buf.len() || buf[start] != '{' as u8 {
        return None;
    }
    let ghost s = buf@.skip(start as int);
    let mut depth: usize = 0;
    let mut in_string = false;
    let mut escaped = false;
    let mut i: usize = start;
    assert(s.take(0) =~= Seq::<u8>::empty());
    while i < buf.len()
        invariant
            start <= i <= buf@.len(),
            start < buf@.len(),
            s == buf@.skip(start as int),
            s[0] == '{' as u8,
            depth <= i - start,
            lex(s.take(i - start)) == (Lex { depth: depth as nat, in_string, escaped }),
            i > start ==> depth > 0,
            forall|k: int| 0 < k <= i - start ==> lex(#[trigger] s.take(k)).depth > 0,
            usage_object(buf@) == leading_object(s),
        decreases buf@.len() - i,
    {
        let byte: u8 = buf[i];
        proof {
            assert(s.take(i - start + 1).drop_last() =~= s.take(i - start));
            assert(s.take(i - start + 1).last() == byte);
        }
        if in_string {
            if escaped {
                escaped = false;
            } else if byte == '\\' as u8 {
                escaped = true;
            } else if byte == '"' as u8 {
                in_string = false;
            }
        } else if byte == '"' as u8 {
            in_string = true;
        } else if byte == '{' as u8 {
            depth = depth + 1;
        } else if byte == '}' as u8 && depth > 0 {
            depth = depth - 1;
            if depth == 0 {
                proof {
                    assert(closes_at(s, i - start + 1));
                    let n = choose|n: int| closes_at(s, n);
                    assert(closes_at(s, n));
                    assert(n == i - start + 1);
                    assert(s.take(n) =~= buf@.subrange(start as int, i + 1));
                }
                return Some(slice_subrange(buf, start, i + 1));
            }
        }
        i = i + 1;
    }
    proof {
        assert forall|n: int| !closes_at(s, n) by {
            if 0 < n <= s.len() {
                assert(lex(s.take(n)).depth > 0);
            }
        }
    }
    None
}

/// The payload of a `data:` line, borrowed from it.
fn payload_slice(line: &[u8]) -> (r: Option<&[u8]>)
    ensures
        match (r, payload_of(line@)) {
            (Some(v), Some(p)) => v@ == p,
            (None, None) => true,
            _ => false,
        },
{
    proof {
        reveal_strlit("data:");
        scan::lemma_find(line@, data_tag());
    }
    match memchr::memmem::find(line, scan::ascii_bytes("data:")) {
        Some(i) => {
            proof {
                scan::lemma_find_first(line@, data_tag(), i as int);
            }
            assert(i + 5 <= line.len());
            let start: usize = scan::skip_ws(line, i + 5);
            let payload = slice_subrange(line, start, line.len());
            assert(payload@ =~= line@.skip(start as int));
            Some(payload)
        },
        None => None,
    }
}

/// Whether the line is the terminator.
fn is_terminator(line: &[u8]) -> (r: bool)
    ensures
        r == terminates(line@),
{
    let p = match payload_slice(line) {
        Some(p) => p,
        None => {
            return false;
        },
    };
    let mut n: usize = p.len();
    assert(p@.take(n as int) =~= p@);
    while n > 0 && scan::is_space_byte(p[n - 1])
        invariant
            n <= p@.len(),
            without_end_space(p@) == without_end_space(p@.take(n as int)),
        decreases n,
    {
        assert(p@.take(n as int).drop_last() =~= p@.take(n - 1));
        n = n - 1;
    }
    let ghost bare = p@.take(n as int);
    assert(without_end_space(p@) == bare);
    proof {
        reveal_strlit("[DONE]");
    }
    let mark = scan::ascii_bytes("[DONE]");
    if n != mark.len() {
        return false;
    }
    let mut i: usize = 0;
    while i < n
        invariant
            i <= n <= p@.len(),
            n == mark@.len(),
            bare == p@.take(n as int),
            mark@ == done_mark(),
            forall|k: int| 0 <= k < i ==> p@[k] == mark@[k],
            without_end_space(p@) == bare,
            payload_of(line@) == Some(p@),
        decreases n - i,
    {
        if p[i] != mark[i] {
            assert(bare[i as int] != done_mark()[i as int]);
            return false;
        }
        i = i + 1;
    }
    assert(bare =~= done_mark());
    true
}

/// Where the first line of `buf` from `from` on ends, its line feed left out.
fn end_of_line(buf: &[u8], from: usize) -> (r: usize)
    requires
        from <= buf@.len(),
    ensures
        r == from + line_end(buf@.skip(from as int)),
        from <= r <= buf@.len(),
{
    let rest = slice_subrange(buf, from, buf.len());
    assert(rest@ =~= buf@.skip(from as int));
    proof {
        scan::lemma_find_one(rest@, '\n' as u8);
    }
    match memchr::memchr('\n' as u8, rest) {
        Some(n) => {
            assert(from + n <= buf.len());
            from + n
        },
        None => buf.len(),
    }
}

/// Where the lines before the terminator end, and whether there is a terminator.
fn end_of_stream(buf: &[u8]) -> (r: (usize, bool))
    ensures
        r.0 <= buf@.len(),
        buf@.take(r.0 as int) == live(buf@),
        r.1 == ended(buf@),
{
    proof {
        reveal_strlit("[DONE]");
    }
    if memchr::memmem::find(buf, scan::ascii_bytes("[DONE]")).is_none() {
        proof {
            lemma_not_ended(buf@);
            lemma_live_all(buf@);
            assert(buf@.take(buf@.len() as int) =~= buf@);
        }
        return (buf.len(), false);
    }
    let mut from: usize = 0;
    assert(buf@.skip(0) =~= buf@);
    assert(buf@.take(0) + live(buf@) =~= live(buf@));
    while from < buf.len()
        invariant
            from <= buf@.len(),
            live(buf@) == buf@.take(from as int) + live(buf@.skip(from as int)),
            ended(buf@) == ended(buf@.skip(from as int)),
        decreases buf@.len() - from,
    {
        let ghost s = buf@.skip(from as int);
        let end: usize = end_of_line(buf, from);
        let line = slice_subrange(buf, from, end);
        proof {
            lemma_first_line(s);
            assert(line@ =~= first_line(s));
        }
        if is_terminator(line) {
            assert(buf@.take(from as int) + live(s) =~= buf@.take(from as int));
            return (from, true);
        }
        let next: usize = if end < buf.len() {
            end + 1
        } else {
            end
        };
        proof {
            assert(other_lines(s) =~= buf@.skip(next as int));
            assert(buf@.take(from as int) + (first_feed(s) + live(other_lines(s)))
                =~= buf@.take(next as int) + live(other_lines(s)));
        }
        from = next;
    }
    assert(buf@.skip(from as int) =~= Seq::empty());
    assert(buf@.take(from as int) + live(buf@.skip(from as int)) =~= buf@.take(from as int));
    (from, false)
}

/// The usage objects of `buf` in stream order, borrowed from `buf`.
pub fn extract_all_usage_objects(buf: &[u8]) -> (r: Vec<&[u8]>)
    ensures
        r@.len() == usage_objects(buf@).len(),
        forall|i: int| 0 <= i < r@.len() ==> (#[trigger] r@[i])@ == usage_objects(buf@)[i],
{
    let mut out: Vec<&[u8]> = Vec::new();
    let mut from: usize = 0;
    let mut found_sse_line = false;
    let ghost all = payloads(buf@);
    let ghost mut done: Seq<Seq<u8>> = Seq::empty();
    proof {
        reveal_strlit("\"usage\"");
        assert(objects_of(done) =~= Seq::empty());
        assert(buf@.skip(0) =~= buf@);
        assert(done + all =~= all);
    }
    while from < buf.len()
        invariant
            from <= buf@.len(),
            all == payloads(buf@),
            done + payloads(buf@.skip(from as int)) == all,
            found_sse_line == any_usage(done),
            out@.len() == objects_of(done).len(),
            forall|i: int| 0 <= i < out@.len() ==> (#[trigger] out@[i])@ == objects_of(done)[i],
            "\"usage\"".is_ascii(),
        decreases buf@.len() - from,
    {
        let ghost s = buf@.skip(from as int);
        let end: usize = end_of_line(buf, from);
        let line = slice_subrange(buf, from, end);
        let next: usize = if end < buf.len() {
            end + 1
        } else {
            end
        };
        proof {
            lemma_first_line(s);
            assert(line@ =~= first_line(s));
            assert(other_lines(s) =~= buf@.skip(next as int));
        }
        match payload_slice(line) {
            Some(payload) => {
                proof {
                    assert(done + payloads(s) =~= done.push(payload@) + payloads(other_lines(s)));
                    lemma_objects_push(done, payload@);
                    lemma_any_usage_push(done, payload@);
                    scan::lemma_find(payload@, usage_key());
                    done = done.push(payload@);
                }
                if memchr::memmem::find(payload, scan::ascii_bytes("\"usage\"")).is_some() {
                    found_sse_line = true;
                    if let Some(json) = extract_usage_object(payload) {
                        out.push(json);
                    }
                }
            },
            None => {
                assert(done + payloads(s) =~= done + payloads(other_lines(s)));
            },
        }
        from = next;
    }
    proof {
        assert(buf@.skip(from as int) =~= Seq::empty());
        assert(done =~= all);
    }
    if !found_sse_line {
        proof {
            lemma_no_usage_no_objects(all);
        }
        if let Some(json) = extract_usage_object(buf) {
            out.push(json);
        }
    }
    out
}

/// Without the mark there is no terminator.
proof fn lemma_not_ended(s: Seq<u8>)
    requires
        !scan::occurs(s, done_mark()),
    ensures
        !ended(s),
    decreases s.len(),
{
    if s.len() > 0 {
        lemma_first_line(s);
        let line = first_line(s);
        if terminates(line) {
            let p = payload_of(line)->0;
            let start = scan::past_space(line, scan::find(line, data_tag())->0 + 5);
            lemma_payload_start(line);
            lemma_without_end_space(p);
            assert(scan::occurs_at(s, done_mark(), start)) by {
                assert(s.subrange(start, start + done_mark().len()) =~= p.take(
                    done_mark().len() as int,
                ));
            }
        }
        if scan::occurs(other_lines(s), done_mark()) {
            assert(other_lines(s) =~= s.subrange(first_feed(s).len() as int, s.len() as int));
            lemma_occurs_piece(s, first_feed(s).len() as int, s.len() as int, done_mark());
        }
        lemma_not_ended(other_lines(s));
    }
}

/// A payload lies behind its field name.
proof fn lemma_payload_start(line: Seq<u8>)
    requires
        payload_of(line) is Some,
    ensures
        ({
            let i = scan::find(line, data_tag())->0;
            let start = scan::past_space(line, i + 5);
            &&& scan::first_at(line, data_tag(), i)
            &&& i + 5 <= start <= line.len()
            &&& payload_of(line) == Some(line.skip(start))
            &&& forall|j: int| i + 5 <= j < start ==> scan::is_space(line[j])
        }),
{
    reveal_strlit("data:");
    scan::lemma_find(line, data_tag());
    scan::lemma_past_space(line, scan::find(line, data_tag())->0 + 5);
}

proof fn lemma_without_end_space(s: Seq<u8>)
    ensures
        without_end_space(s).len() <= s.len(),
        without_end_space(s) == s.take(without_end_space(s).len() as int),
    decreases s.len(),
{
    if s.len() > 0 && scan::is_space(s.last()) {
        lemma_without_end_space(s.drop_last());
        let n = without_end_space(s).len() as int;
        assert(s.drop_last().take(n) =~= s.take(n));
    } else {
        assert(s.take(s.len() as int) =~= s);
    }
}

/// Without a terminator all lines count.
proof fn lemma_live_all(s: Seq<u8>)
    requires
        !ended(s),
    ensures
        live(s) == s,
    decreases s.len(),
{
    if s.len() > 0 {
        lemma_first_line(s);
        lemma_live_all(other_lines(s));
    } else {
        assert(live(s) =~= s);
    }
}

proof fn lemma_objects_push(ps: Seq<Seq<u8>>, p: Seq<u8>)
    ensures
        objects_of(ps.push(p)) == objects_of(ps) + listed(usage_object(p)),
    decreases ps.len(),
{
    if ps.len() == 0 {
        let rest = ps.push(p).drop_first();
        assert(objects_of(rest) =~= Seq::empty());
        assert(objects_of(ps.push(p)) == listed(usage_object(p)) + objects_of(rest));
        assert(objects_of(ps.push(p)) =~= objects_of(ps) + listed(usage_object(p)));
    } else {
        assert(ps.push(p).drop_first() =~= ps.drop_first().push(p));
        lemma_objects_push(ps.drop_first(), p);
        assert(objects_of(ps.push(p)) =~= objects_of(ps) + listed(usage_object(p)));
    }
}

proof fn lemma_any_usage_push(ps: Seq<Seq<u8>>, p: Seq<u8>)
    ensures
        any_usage(ps.push(p)) == (any_usage(ps) || scan::occurs(p, usage_key())),
{
    let qs = ps.push(p);
    if any_usage(ps) {
        let i = choose|i: int| 0 <= i < ps.len() && scan::occurs(#[trigger] ps[i], usage_key());
        assert(qs[i] == ps[i]);
    }
    if scan::occurs(p, usage_key()) {
        assert(qs[ps.len() as int] == p);
    }
    if any_usage(qs) {
        let i = choose|i: int| 0 <= i < qs.len() && scan::occurs(#[trigger] qs[i], usage_key());
        if i < ps.len() {
            assert(ps[i] == qs[i]);
        }
    }
}

proof fn lemma_no_usage_no_objects(ps: Seq<Seq<u8>>)
    requires
        !any_usage(ps),
    ensures
        objects_of(ps) == Seq::<Seq<u8>>::empty(),
    decreases ps.len(),
{
    if ps.len() > 0 {
        assert(!scan::occurs(ps[0], usage_key()));
        scan::lemma_find(ps[0], usage_key());
        assert forall|i: int| 0 <= i < ps.drop_first().len() implies !scan::occurs(
            #[trigger] ps.drop_first()[i],
            usage_key(),
        ) by {
            assert(ps.drop_first()[i] == ps[i + 1]);
        }
        lemma_no_usage_no_objects(ps.drop_first());
    }
}

// ---------------------------------------------------------------------------
// Reading a usage object
// ---------------------------------------------------------------------------

/// `a`, or `b` where `a` is missing.
pub open spec fn or(a: Option<u64>, b: Option<u64>) -> Option<u64> {
    match a {
        Some(_) => a,
        None => b,
    }
}

/// The cached-token count in the text of `prompt_tokens_details`: an object with
/// a `cached_tokens` member, a list of at most one count, or `null`.
pub open spec fn details_count(text: Seq<u8>) -> Option<Option<u64>> {
    match json::object_members(text) {
        Some(m) => json::count_member(m, "cached_tokens"@),
        None => match json::json_counts(text) {
            Some(c) => if c.len() == 0 {
                Some(None)
            } else if c.len() == 1 {
                Some(c[0])
            } else {
                None
            },
            None => if json::json_count(text) == Some(None::<u64>) {
                Some(None)
            } else {
                None
            },
        },
    }
}

/// The cached-token count in the member `prompt_tokens_details`.
pub open spec fn details_member(m: Seq<(Seq<char>, Seq<u8>)>) -> Option<Option<u64>> {
    match json::only(m, "prompt_tokens_details"@) {
        None => None,
        Some(None) => Some(None),
        Some(Some(t)) => details_count(t),
    }
}

/// The fields of an OpenAI-compatible usage object, or `None` where `text` is no
/// JSON object or one of the fields holds no count. Only the total may be anything:
/// one that is no count counts as missing.
pub open spec fn openai_fields(text: Seq<u8>) -> Option<OpenAiUsageFields> {
    match json::object_members(text) {
        None => None,
        Some(m) => match (
            (
                json::count_member(m, "prompt_tokens"@),
                json::count_member(m, "completion_tokens"@),
            ),
            (
                json::count_member(m, "input_tokens"@),
                json::count_member(m, "output_tokens"@),
                details_member(m),
                json::count_member(m, "cached_tokens"@),
            ),
        ) {
            ((Some(p), Some(c)), (Some(i), Some(o), Some(d), Some(k))) => Some(
                OpenAiUsageFields {
                    prompt_tokens: p,
                    completion_tokens: c,
                    total_tokens: match json::count_member(m, "total_tokens"@) {
                        Some(t) => t,
                        None => None,
                    },
                    input_tokens: i,
                    output_tokens: o,
                    details_cached_tokens: d,
                    cached_tokens: k,
                },
            ),
            _ => None,
        },
    }
}

/// The fields of an Anthropic usage object, or `None` where `text` is no JSON
/// object or one of the fields holds no count.
pub open spec fn anthropic_fields(text: Seq<u8>) -> Option<AnthropicUsageFields> {
    match json::object_members(text) {
        None => None,
        Some(m) => match (
            json::count_member(m, "input_tokens"@),
            json::count_member(m, "output_tokens"@),
            json::count_member(m, "cache_read_input_tokens"@),
        ) {
            (Some(i), Some(o), Some(k)) => Some(
                AnthropicUsageFields {
                    input_tokens: i,
                    output_tokens: o,
                    cache_read_input_tokens: k,
                },
            ),
            _ => None,
        },
    }
}

/// What an OpenAI-compatible usage object says. It stands for itself: nothing
/// said before it counts.
pub open spec fn openai_usage(f: OpenAiUsageFields) -> Usage {
    Usage {
        prompt_tokens: or(f.prompt_tokens, f.input_tokens),
        completion_tokens: or(f.completion_tokens, f.output_tokens),
        total_tokens: f.total_tokens,
        cached_tokens: or(f.details_cached_tokens, f.cached_tokens),
    }
}

/// What is known once an Anthropic usage object has followed `u`. Its counts are
/// running totals: each that it gives replaces the one before.
pub open spec fn anthropic_usage(u: Usage, f: AnthropicUsageFields) -> Usage {
    Usage {
        prompt_tokens: or(f.input_tokens, u.prompt_tokens),
        completion_tokens: or(f.output_tokens, u.completion_tokens),
        total_tokens: u.total_tokens,
        cached_tokens: or(f.cache_read_input_tokens, u.cached_tokens),
    }
}

/// What is known once the usage object `text` has followed `u`, or `None` where
/// `text` cannot be read.
pub open spec fn absorbed(kind: ProviderKind, u: Usage, text: Seq<u8>) -> Option<Usage> {
    match kind {
        ProviderKind::Anthropic => match anthropic_fields(text) {
            Some(f) => Some(anthropic_usage(u, f)),
            None => None,
        },
        ProviderKind::OpenAi | ProviderKind::Generic => match openai_fields(text) {
            Some(f) => Some(openai_usage(f)),
            None => None,
        },
    }
}

/// What is known once the objects `texts` have followed `u`, in order, and
/// whether any of them could be read.
pub open spec fn absorbed_all(kind: ProviderKind, u: Usage, texts: Seq<Seq<u8>>) -> (Usage, bool)
    decreases texts.len(),
{
    if texts.len() == 0 {
        (u, false)
    } else {
        let before = absorbed_all(kind, u, texts.drop_last());
        match absorbed(kind, before.0, texts.last()) {
            Some(v) => (v, true),
            None => before,
        }
    }
}

fn either(a: Option<u64>, b: Option<u64>) -> (r: Option<u64>)
    ensures
        r == or(a, b),
{
    match a {
        Some(_) => a,
        None => b,
    }
}

fn read_details(
    v: &Vec<(String, &[u8])>,
    Ghost(m): Ghost<Seq<(Seq<char>, Seq<u8>)>>,
) -> (r: Option<Option<u64>>)
    requires
        json::same_members(v@, m),
    ensures
        r == details_member(m),
{
    let text = match json::find_member(v, "prompt_tokens_details", Ghost(m)) {
        None => {
            return None;
        },
        Some(None) => {
            return Some(None);
        },
        Some(Some(t)) => t,
    };
    if let Some(d) = json::parse_object(text) {
        return json::read_count(&d, "cached_tokens", Ghost(json::object_members(text@)->0));
    }
    if let Some(c) = json::parse_counts(text) {
        if c.len() == 0 {
            return Some(None);
        }
        if c.len() == 1 {
            return Some(c[0]);
        }
        return None;
    }
    match json::parse_count(text) {
        Some(None) => Some(None),
        _ => None,
    }
}

/// Reads an OpenAI-compatible usage object.
pub fn read_openai(text: &[u8]) -> (r: Option<OpenAiUsageFields>)
    ensures
        r == openai_fields(text@),
{
    let v = match json::parse_object(text) {
        Some(v) => v,
        None => {
            return None;
        },
    };
    let ghost m = json::object_members(text@)->0;
    let prompt_tokens = json::read_count(&v, "prompt_tokens", Ghost(m));
    let completion_tokens = json::read_count(&v, "completion_tokens", Ghost(m));
    let total_tokens = json::read_count(&v, "total_tokens", Ghost(m));
    let input_tokens = json::read_count(&v, "input_tokens", Ghost(m));
    let output_tokens = json::read_count(&v, "output_tokens", Ghost(m));
    let details_cached_tokens = read_details(&v, Ghost(m));
    let cached_tokens = json::read_count(&v, "cached_tokens", Ghost(m));
    Some(
        OpenAiUsageFields {
            prompt_tokens: prompt_tokens?,
            completion_tokens: completion_tokens?,
            total_tokens: match total_tokens {
                Some(t) => t,
                None => None,
            },
            input_tokens: input_tokens?,
            output_tokens: output_tokens?,
            details_cached_tokens: details_cached_tokens?,
            cached_tokens: cached_tokens?,
        },
    )
}

/// Reads an Anthropic usage object.
pub fn read_anthropic(text: &[u8]) -> (r: Option<AnthropicUsageFields>)
    ensures
        r == anthropic_fields(text@),
{
    let v = match json::parse_object(text) {
        Some(v) => v,
        None => {
            return None;
        },
    };
    let ghost m = json::object_members(text@)->0;
    let input_tokens = json::read_count(&v, "input_tokens", Ghost(m));
    let output_tokens = json::read_count(&v, "output_tokens", Ghost(m));
    let cache_read_input_tokens = json::read_count(&v, "cache_read_input_tokens", Ghost(m));
    Some(
        AnthropicUsageFields {
            input_tokens: input_tokens?,
            output_tokens: output_tokens?,
            cache_read_input_tokens: cache_read_input_tokens?,
        },
    )
}

// ---------------------------------------------------------------------------
// The scanner
// ---------------------------------------------------------------------------

/// What a scanner knows.
pub struct ScannerState {
    pub provider: ProviderKind,
    /// The unfinished line held back for the next chunk.
    pub tail: Seq<u8>,
    pub usage: Usage,
    /// Whether any usage object was read.
    pub seen_any: bool,
    /// Whether the stream has ended.
    pub done: bool,
}

/// What a scan leaves behind that has found `objects`, and what it answers. `tail` is
/// held back, and `over` says whether the terminator was found.
pub open spec fn scan_of(
    st: ScannerState,
    objects: Seq<Seq<u8>>,
    tail: Seq<u8>,
    over: bool,
) -> (ScannerState, ScanResult) {
    let (usage, any) = absorbed_all(st.provider, st.usage, objects);
    (
        ScannerState { tail, usage, seen_any: st.seen_any || any, done: over, ..st },
        if over {
            ScanResult::Done
        } else if any {
            ScanResult::Found
        } else {
            ScanResult::Skip
        },
    )
}

/// The part of `buf` that is kept for the next chunk: its unfinished line, and
/// nothing once the terminator was found.
pub open spec fn left_behind(buf: Seq<u8>) -> Seq<u8> {
    if ended(buf) {
        Seq::empty()
    } else {
        held_back(buf)
    }
}

/// What scanning `chunk` leaves behind, and what it answers. Nothing counts from
/// the terminator on, neither in the same chunk nor in a later one.
pub open spec fn scanned(st: ScannerState, chunk: Seq<u8>) -> (ScannerState, ScanResult) {
    let buf = st.tail + chunk;
    if st.done {
        (st, ScanResult::Skip)
    } else {
        scan_of(st, usage_objects(live(buf)), left_behind(buf), ended(buf))
    }
}

/// The usage that is reported in the end. Anthropic gives no total: it is the
/// sum of prompt and completion, where both are known and the sum fits.
pub open spec fn reported(kind: ProviderKind, u: Usage) -> Usage {
    match kind {
        ProviderKind::Anthropic => Usage {
            total_tokens: match (u.prompt_tokens, u.completion_tokens) {
                (Some(p), Some(c)) => if p + c <= u64::MAX {
                    Some((p + c) as u64)
                } else {
                    None
                },
                _ => None,
            },
            ..u
        },
        ProviderKind::OpenAi | ProviderKind::Generic => u,
    }
}

/// What a scanner reports in the end: nothing where it has read no usage object.
pub open spec fn outcome(st: ScannerState) -> Option<Usage> {
    if st.seen_any {
        Some(reported(st.provider, st.usage))
    } else {
        None
    }
}

/// Incremental usage scanner for one response.
pub struct UsageScanner {
    provider: ProviderKind,
    tail: Vec<u8>,
    usage: Usage,
    seen_any: bool,
    done: bool,
}

impl View for UsageScanner {
    type V = ScannerState;

    closed spec fn view(&self) -> ScannerState {
        ScannerState {
            provider: self.provider,
            tail: self.tail@,
            usage: self.usage,
            seen_any: self.seen_any,
            done: self.done,
        }
    }
}

impl UsageScanner {
    /// A scanner that has read nothing yet.
    pub fn new(provider: ProviderKind) -> (r: Self)
        ensures
            r@.provider == provider,
            r@.tail == Seq::<u8>::empty(),
            r@.usage == (Usage {
                prompt_tokens: None,
                completion_tokens: None,
                total_tokens: None,
                cached_tokens: None,
            }),
            !r@.seen_any,
            !r@.done,
    {
        UsageScanner {
            provider,
            tail: Vec::new(),
            usage: Usage::default(),
            seen_any: false,
            done: false,
        }
    }

    /// Scans one response chunk. Malformed input is skipped, and so is all that
    /// follows the end of the stream.
    pub fn scan_chunk(&mut self, chunk: &[u8]) -> (r: ScanResult)
        ensures
            final(self)@ == scanned(old(self)@, chunk@).0,
            r == scanned(old(self)@, chunk@).1,
    {
        proof {
            reveal_strlit("\"usage\"");
        }
        if self.done {
            return ScanResult::Skip;
        }
        let mut joined: Vec<u8> = Vec::new();
        let buf: &[u8] = if self.tail.len() == 0 {
            assert(self.tail@ + chunk@ =~= chunk@);
            chunk
        } else {
            joined.append(&mut self.tail);
            joined.extend_from_slice(chunk);
            assert(joined@ =~= old(self).tail@ + chunk@);
            joined.as_slice()
        };
        assert(buf@ == old(self)@.tail + chunk@);
        assert(self.tail@ =~= Seq::empty());
        let (end, has_done) = end_of_stream(buf);
        let part = slice_subrange(buf, 0, end);
        assert(part@ =~= live(buf@));
        let absorbed_any = self.absorb_all(part);
        if has_done {
            self.done = true;
            return ScanResult::Done;
        }
        self.buffer_incomplete_tail(buf);
        if absorbed_any {
            ScanResult::Found
        } else {
            ScanResult::Skip
        }
    }

    /// Folds the usage objects of `buf` in, in order. Says whether any could be
    /// read.
    fn absorb_all(&mut self, buf: &[u8]) -> (r: bool)
        ensures
            ({
                let (usage, any) = absorbed_all(
                    old(self)@.provider,
                    old(self)@.usage,
                    usage_objects(buf@),
                );
                &&& r == any
                &&& final(self)@ == (ScannerState {
                    usage,
                    seen_any: old(self)@.seen_any || any,
                    ..old(self)@
                })
                &&& final(self).tail@ == old(self).tail@
            }),
    {
        proof {
            reveal_strlit("\"usage\"");
        }
        if memchr::memmem::find(buf, scan::ascii_bytes("\"usage\"")).is_none() {
            proof {
                lemma_no_key_no_objects(buf@);
            }
            return false;
        }
        let objects = extract_all_usage_objects(buf);
        let ghost texts = usage_objects(buf@);
        let mut absorbed_any = false;
        let mut i: usize = 0;
        assert(texts.take(0) =~= Seq::empty());
        while i < objects.len()
            invariant
                i <= objects@.len(),
                objects@.len() == texts.len(),
                forall|k: int| 0 <= k < objects@.len() ==> (#[trigger] objects@[k])@ == texts[k],
                self.provider == old(self).provider,
                self.tail@ == old(self).tail@,
                self.done == old(self).done,
                self.seen_any == (old(self).seen_any || absorbed_any),
                (self.usage, absorbed_any) == absorbed_all(
                    old(self).provider,
                    old(self).usage,
                    texts.take(i as int),
                ),
            decreases objects@.len() - i,
        {
            assert(texts.take(i + 1).drop_last() =~= texts.take(i as int));
            if self.absorb(objects[i]) {
                absorbed_any = true;
            }
            i = i + 1;
        }
        assert(texts.take(texts.len() as int) =~= texts);
        absorbed_any
    }

    /// The usage that was read, if any was.
    pub fn finalize(self) -> (r: Option<Usage>)
        ensures
            r == outcome(self@),
    {
        if !self.seen_any {
            return None;
        }
        let u = self.usage;
        match self.provider {
            ProviderKind::Anthropic => {
                let total_tokens = match (u.prompt_tokens, u.completion_tokens) {
                    (Some(p), Some(c)) => p.checked_add(c),
                    _ => None,
                };
                Some(
                    Usage {
                        prompt_tokens: u.prompt_tokens,
                        completion_tokens: u.completion_tokens,
                        total_tokens,
                        cached_tokens: u.cached_tokens,
                    },
                )
            },
            ProviderKind::OpenAi | ProviderKind::Generic => Some(u),
        }
    }

    /// Folds one usage object in. Says whether it could be read; where it could
    /// not, nothing changes.
    pub fn absorb(&mut self, text: &[u8]) -> (r: bool)
        ensures
            match absorbed(old(self)@.provider, old(self)@.usage, text@) {
                Some(u) => r && final(self)@ == (ScannerState {
                    usage: u,
                    seen_any: true,
                    ..old(self)@
                }),
                None => !r && final(self)@ == old(self)@,
            },
    {
        match self.provider {
            ProviderKind::OpenAi | ProviderKind::Generic => match read_openai(text) {
                Some(f) => {
                    self.absorb_openai(f);
                    true
                },
                None => false,
            },
            ProviderKind::Anthropic => match read_anthropic(text) {
                Some(f) => {
                    self.absorb_anthropic(f);
                    true
                },
                None => false,
            },
        }
    }

    /// Takes the fields of an OpenAI-compatible usage object. The last object
    /// wins.
    pub fn absorb_openai(&mut self, f: OpenAiUsageFields)
        ensures
            final(self)@ == (ScannerState {
                usage: openai_usage(f),
                seen_any: true,
                ..old(self)@
            }),
    {
        self.usage =
        Usage {
            prompt_tokens: either(f.prompt_tokens, f.input_tokens),
            completion_tokens: either(f.completion_tokens, f.output_tokens),
            total_tokens: f.total_tokens,
            cached_tokens: either(f.details_cached_tokens, f.cached_tokens),
        };
        self.seen_any = true;
    }

    /// Takes the fields of an Anthropic usage object. Each count that it gives
    /// replaces the one before; counts are never added up.
    pub fn absorb_anthropic(&mut self, f: AnthropicUsageFields)
        ensures
            final(self)@ == (ScannerState {
                usage: anthropic_usage(old(self)@.usage, f),
                seen_any: true,
                ..old(self)@
            }),
    {
        self.usage =
        Usage {
            prompt_tokens: either(f.input_tokens, self.usage.prompt_tokens),
            completion_tokens: either(f.output_tokens, self.usage.completion_tokens),
            total_tokens: self.usage.total_tokens,
            cached_tokens: either(f.cache_read_input_tokens, self.usage.cached_tokens),
        };
        self.seen_any = true;
    }

    /// Holds the unfinished last line of `buf` back for the next chunk.
    fn buffer_incomplete_tail(&mut self, buf: &[u8])
        requires
            old(self).tail@ == Seq::<u8>::empty(),
        ensures
            final(self)@ == (ScannerState { tail: held_back(buf@), ..old(self)@ }),
    {
        proof {
            reveal_strlit("data:");
        }
        let start: usize = match memchr::memrchr('\n' as u8, buf) {
            Some(i) => {
                assert(i < buf.len());
                i + 1
            },
            None => 0,
        };
        let trailing = slice_subrange(buf, start, buf.len());
        proof {
            assert(trailing@ =~= buf@.skip(start as int));
            lemma_last_line(buf@, start as int);
        }
        if memchr::memmem::find(trailing, scan::ascii_bytes("data:")).is_none() {
            return;
        }
        if extract_usage_object(trailing).is_some() {
            return;
        }
        self.tail.extend_from_slice(trailing);
        assert(self.tail@ =~= trailing@);
    }
}

/// The last line begins behind the last line feed, or at the beginning.
proof fn lemma_last_line(s: Seq<u8>, start: int)
    requires
        0 <= start <= s.len(),
        start > 0 ==> s[start - 1] == '\n' as u8,
        forall|j: int| start <= j < s.len() ==> s[j] != '\n' as u8,
    ensures
        last_line(s) == s.skip(start),
    decreases s.len(),
{
    if s.len() == 0 || start == s.len() {
        assert(s.skip(start) =~= Seq::empty());
    } else {
        lemma_last_line(s.drop_last(), start);
        assert(s.skip(start) =~= s.drop_last().skip(start).push(s.last()));
    }
}

/// What occurs in a piece of `s` occurs in `s`.
proof fn lemma_occurs_piece(s: Seq<u8>, from: int, to: int, needle: Seq<u8>)
    requires
        0 <= from <= to <= s.len(),
        scan::occurs(s.subrange(from, to), needle),
    ensures
        scan::occurs(s, needle),
{
    let p = s.subrange(from, to);
    let i = choose|i: int| scan::occurs_at(p, needle, i);
    assert(s.subrange(from + i, from + i + needle.len()) =~= p.subrange(i, i + needle.len()));
    assert(scan::occurs_at(s, needle, from + i));
}

/// What occurs in a text occurs in one of its lines.
proof fn lemma_occurs_lines(s: Seq<u8>, needle: Seq<u8>)
    requires
        needle.len() > 0,
        forall|k: int| 0 <= k < needle.len() ==> needle[k] != '\n' as u8,
    ensures
        scan::occurs(s, needle) <==> scan::occurs(first_line(s), needle) || scan::occurs(
            other_lines(s),
            needle,
        ),
{
    lemma_first_line(s);
    let e = line_end(s);
    let from = first_feed(s).len() as int;
    assert(first_line(s) =~= s.subrange(0, e));
    assert(other_lines(s) =~= s.subrange(from, s.len() as int));
    if scan::occurs(first_line(s), needle) {
        lemma_occurs_piece(s, 0, e, needle);
    }
    if scan::occurs(other_lines(s), needle) {
        lemma_occurs_piece(s, from, s.len() as int, needle);
    }
    if scan::occurs(s, needle) {
        let i = choose|i: int| scan::occurs_at(s, needle, i);
        let found = s.subrange(i, i + needle.len());
        if i + needle.len() <= e {
            assert(first_line(s).subrange(i, i + needle.len()) =~= found);
            assert(scan::occurs_at(first_line(s), needle, i));
        } else if i <= e {
            if e < s.len() {
                assert(found[e - i] == '\n' as u8);
            }
        } else {
            assert(other_lines(s).subrange(i - from, i - from + needle.len()) =~= found);
            assert(scan::occurs_at(other_lines(s), needle, i - from));
        }
    }
}

/// A text without the `"usage"` key has no payload with it.
proof fn lemma_no_key_no_payload(s: Seq<u8>)
    requires
        !scan::occurs(s, usage_key()),
    ensures
        !any_usage(payloads(s)),
    decreases s.len(),
{
    if s.len() > 0 {
        reveal_strlit("\"usage\"");
        lemma_first_line(s);
        lemma_occurs_lines(s, usage_key());
        lemma_no_key_no_payload(other_lines(s));
        let line = first_line(s);
        if payload_of(line) is Some {
            let p = payload_of(line)->0;
            lemma_payload_start(line);
            if scan::occurs(p, usage_key()) {
                let start = scan::past_space(line, scan::find(line, data_tag())->0 + 5);
                assert(p =~= line.subrange(start, line.len() as int));
                lemma_occurs_piece(line, start, line.len() as int, usage_key());
            }
            lemma_any_usage_one(p);
        }
        lemma_any_usage_join(listed(payload_of(line)), payloads(other_lines(s)));
    }
}

proof fn lemma_any_usage_one(p: Seq<u8>)
    ensures
        any_usage(seq![p]) <==> scan::occurs(p, usage_key()),
{
    if scan::occurs(p, usage_key()) {
        assert(scan::occurs(seq![p][0], usage_key()));
    }
}

/// A text without the `"usage"` key holds no usage object.
proof fn lemma_no_key_no_objects(buf: Seq<u8>)
    requires
        !scan::occurs(buf, usage_key()),
    ensures
        usage_objects(buf) == Seq::<Seq<u8>>::empty(),
        usage_object(buf) is None,
{
    scan::lemma_find(buf, usage_key());
    lemma_no_key_no_payload(buf);
}

proof fn lemma_objects_join(p: Seq<Seq<u8>>, q: Seq<Seq<u8>>)
    ensures
        objects_of(p + q) == objects_of(p) + objects_of(q),
    decreases p.len(),
{
    if p.len() == 0 {
        assert(p + q =~= q);
        assert(objects_of(p) + objects_of(q) =~= objects_of(q));
    } else {
        assert((p + q).drop_first() =~= p.drop_first() + q);
        lemma_objects_join(p.drop_first(), q);
        assert(objects_of(p + q) =~= objects_of(p) + objects_of(q));
    }
}

proof fn lemma_any_usage_join(p: Seq<Seq<u8>>, q: Seq<Seq<u8>>)
    ensures
        any_usage(p + q) <==> any_usage(p) || any_usage(q),
{
    if any_usage(p) {
        let i = choose|i: int| 0 <= i < p.len() && scan::occurs(#[trigger] p[i], usage_key());
        assert((p + q)[i] == p[i]);
    }
    if any_usage(q) {
        let i = choose|i: int| 0 <= i < q.len() && scan::occurs(#[trigger] q[i], usage_key());
        assert((p + q)[p.len() + i] == q[i]);
    }
    if any_usage(p + q) {
        let i = choose|i: int|
            0 <= i < (p + q).len() && scan::occurs(#[trigger] (p + q)[i], usage_key());
        if i < p.len() {
            assert(p[i] == (p + q)[i]);
        } else {
            assert(q[i - p.len()] == (p + q)[i]);
        }
    }
}

// ---------------------------------------------------------------------------
// Laws
// ---------------------------------------------------------------------------

/// `s` is empty or ends with a line feed.
pub open spec fn ends_line(s: Seq<u8>) -> bool {
    s.len() == 0 || s.last() == '\n' as u8
}

/// Where the `"usage"` key stands in `s`, a `data:` payload holds it.
pub open spec fn framed(s: Seq<u8>) -> bool {
    scan::occurs(s, usage_key()) ==> any_usage(payloads(s))
}

/// Every line of `s` that holds the `"usage"` key begins with `data:`.
pub open spec fn tagged(s: Seq<u8>) -> bool
    decreases s.len(),
{
    if s.len() == 0 {
        true
    } else {
        proof {
            lemma_first_line(s);
        }
        &&& scan::occurs(first_line(s), usage_key()) ==> scan::occurs_at(
            first_line(s),
            data_tag(),
            0,
        )
        &&& tagged(other_lines(s))
    }
}

/// Nothing that a scanner looks for stands in `s`.
pub open spec fn unmarked(s: Seq<u8>) -> bool {
    !scan::occurs(s, data_tag()) && !scan::occurs(s, usage_key())
}

/// What two answers amount to when the two chunks come as one.
pub open spec fn joined(a: ScanResult, b: ScanResult) -> ScanResult {
    if a == ScanResult::Done || b == ScanResult::Done {
        ScanResult::Done
    } else if a == ScanResult::Found || b == ScanResult::Found {
        ScanResult::Found
    } else {
        ScanResult::Skip
    }
}

/// A scanner that has been given `chunks`, one after the other.
pub open spec fn streamed(st: ScannerState, chunks: Seq<Seq<u8>>) -> ScannerState
    decreases chunks.len(),
{
    if chunks.len() == 0 {
        st
    } else {
        scanned(streamed(st, chunks.drop_last()), chunks.last()).0
    }
}

/// The chunks as one text.
pub open spec fn flat(chunks: Seq<Seq<u8>>) -> Seq<u8>
    decreases chunks.len(),
{
    if chunks.len() == 0 {
        Seq::empty()
    } else {
        flat(chunks.drop_last()) + chunks.last()
    }
}

proof fn lemma_occurs_tail<T>(a: Seq<T>, b: Seq<T>, needle: Seq<T>, i: int)
    requires
        a.len() <= i,
    ensures
        scan::occurs_at(a + b, needle, i) <==> scan::occurs_at(b, needle, i - a.len()),
{
    if i + needle.len() <= a.len() + b.len() {
        assert((a + b).subrange(i, i + needle.len()) =~= b.subrange(
            i - a.len(),
            i - a.len() + needle.len(),
        ));
    }
}

/// A text without line feeds that stands in `a + b` stands in one of the two,
/// where `a` is empty or ends a line.
proof fn lemma_no_straddle(a: Seq<u8>, b: Seq<u8>, needle: Seq<u8>, i: int)
    requires
        a.len() == 0 || a.last() == '\n' as u8,
        needle.len() > 0,
        forall|k: int| 0 <= k < needle.len() ==> needle[k] != '\n' as u8,
        scan::occurs_at(a + b, needle, i),
    ensures
        i + needle.len() <= a.len() || a.len() <= i,
{
    if i < a.len() && a.len() < i + needle.len() {
        let k = a.len() - 1 - i;
        assert((a + b).subrange(i, i + needle.len())[k] == a.last());
    }
}

proof fn lemma_occurs_join(a: Seq<u8>, b: Seq<u8>, needle: Seq<u8>)
    requires
        a.len() == 0 || a.last() == '\n' as u8,
        needle.len() > 0,
        forall|k: int| 0 <= k < needle.len() ==> needle[k] != '\n' as u8,
    ensures
        scan::occurs(a + b, needle) <==> scan::occurs(a, needle) || scan::occurs(b, needle),
{
    if scan::occurs(a, needle) {
        let i = choose|i: int| scan::occurs_at(a, needle, i);
        scan::lemma_occurs_extend(a, b, needle, i);
        assert(scan::occurs_at(a + b, needle, i));
    }
    if scan::occurs(b, needle) {
        let i = choose|i: int| scan::occurs_at(b, needle, i);
        lemma_occurs_tail(a, b, needle, i + a.len());
        assert(scan::occurs_at(a + b, needle, i + a.len()));
    }
    if scan::occurs(a + b, needle) {
        let i = choose|i: int| scan::occurs_at(a + b, needle, i);
        lemma_no_straddle(a, b, needle, i);
        if i + needle.len() <= a.len() {
            scan::lemma_occurs_extend(a, b, needle, i);
            assert(scan::occurs_at(a, needle, i));
        } else {
            lemma_occurs_tail(a, b, needle, i);
            assert(scan::occurs_at(b, needle, i - a.len()));
        }
    }
}

proof fn lemma_occurs_prefix(a: Seq<u8>, b: Seq<u8>, needle: Seq<u8>)
    requires
        scan::occurs(a, needle),
    ensures
        scan::occurs(a + b, needle),
{
    let i = choose|i: int| scan::occurs_at(a, needle, i);
    scan::lemma_occurs_extend(a, b, needle, i);
    assert(scan::occurs_at(a + b, needle, i));
}

proof fn lemma_no_feed_in_marks()
    ensures
        forall|k: int| 0 <= k < usage_key().len() ==> usage_key()[k] != '\n' as u8,
        forall|k: int| 0 <= k < data_tag().len() ==> data_tag()[k] != '\n' as u8,
        usage_key().len() == 7,
        data_tag().len() == 5,
{
    reveal_strlit("\"usage\"");
    reveal_strlit("data:");
}

/// What follows whole lines does not change the first of them.
proof fn lemma_lines_join(a: Seq<u8>, b: Seq<u8>)
    requires
        a.len() > 0,
        a.last() == '\n' as u8,
    ensures
        line_end(a + b) == line_end(a),
        first_line(a + b) == first_line(a),
        first_feed(a + b) == first_feed(a),
        other_lines(a + b) == other_lines(a) + b,
        ends_line(other_lines(a)),
{
    let feed = seq!['\n' as u8];
    lemma_first_line(a);
    scan::lemma_find_one(a, '\n' as u8);
    assert(a[a.len() - 1] == '\n' as u8);
    scan::lemma_find(a, feed);
    scan::lemma_find_extend(a, b, feed, scan::find(a, feed)->0);
    assert(first_line(a + b) =~= first_line(a));
    assert(first_feed(a + b) =~= first_feed(a));
    assert(other_lines(a + b) =~= other_lines(a) + b);
}

/// A text without line feeds is one line.
proof fn lemma_one_line(l: Seq<u8>)
    requires
        forall|i: int| 0 <= i < l.len() ==> l[i] != '\n' as u8,
    ensures
        first_line(l) == l,
        first_feed(l) == l,
        other_lines(l).len() == 0,
        payloads(l) == listed(payload_of(l)),
        ended(l) == terminates(l),
        last_line(l) == l,
{
    lemma_first_line(l);
    scan::lemma_find_one(l, '\n' as u8);
    assert(first_line(l) =~= l);
    assert(payloads(other_lines(l)) =~= Seq::empty());
    assert(!ended(other_lines(l)));
    assert(listed(payload_of(l)) + payloads(other_lines(l)) =~= listed(payload_of(l)));
    if l.len() == 0 {
        assert(payload_of(l) is None) by {
            if payload_of(l) is Some {
                lemma_payload_start(l);
            }
        }
        assert(payloads(l) =~= listed(payload_of(l)));
    }
    lemma_last_line(l, 0);
    assert(l.skip(0) =~= l);
}

/// The beginning of a line belongs to the first line of what follows.
proof fn lemma_cut_line(cut: Seq<u8>, y: Seq<u8>)
    requires
        forall|i: int| 0 <= i < cut.len() ==> cut[i] != '\n' as u8,
    ensures
        first_line(cut + y) == cut + first_line(y),
        first_feed(cut + y) == cut + first_feed(y),
        other_lines(cut + y) == other_lines(y),
{
    let s = cut + y;
    lemma_first_line(y);
    lemma_first_line(s);
    scan::lemma_find_one(y, '\n' as u8);
    scan::lemma_find_one(s, '\n' as u8);
    let e = line_end(s);
    assert(e == cut.len() + line_end(y)) by {
        if line_end(y) < y.len() {
            assert(s[cut.len() + line_end(y)] == '\n' as u8);
        }
        if e < cut.len() {
            assert(s[e] == cut[e]);
        } else if e < s.len() {
            assert(s[e] == y[e - cut.len()]);
        }
    }
    assert(first_line(s) =~= cut + first_line(y));
    assert(first_feed(s) =~= cut + first_feed(y));
    assert(other_lines(s) =~= other_lines(y));
}

/// The payloads of `a + b` are those of `a` and those of `b`, where `a` ends a
/// line.
proof fn lemma_payloads_join(a: Seq<u8>, b: Seq<u8>)
    requires
        ends_line(a),
    ensures
        payloads(a + b) == payloads(a) + payloads(b),
    decreases a.len(),
{
    if a.len() == 0 {
        assert(a + b =~= b);
        assert(payloads(a) + payloads(b) =~= payloads(b));
    } else {
        lemma_first_line(a);
        lemma_lines_join(a, b);
        lemma_payloads_join(other_lines(a), b);
        assert(payloads(a + b) =~= payloads(a) + payloads(b));
    }
}

/// The terminator of `a + b` is that of `a`, or else that of `b`, where `a` ends a
/// line.
proof fn lemma_live_join(a: Seq<u8>, b: Seq<u8>)
    requires
        ends_line(a),
    ensures
        ended(a + b) == (ended(a) || ended(b)),
        live(a + b) == if ended(a) {
            live(a)
        } else {
            a + live(b)
        },
    decreases a.len(),
{
    if a.len() == 0 {
        assert(a + b =~= b);
        assert(a + live(b) =~= live(b));
    } else {
        lemma_first_line(a);
        lemma_lines_join(a, b);
        lemma_live_join(other_lines(a), b);
        if !ended(a) {
            assert(first_feed(a) + (other_lines(a) + live(b)) =~= a + live(b));
        }
    }
}

/// A line with its line feed is that line and no other.
proof fn lemma_first_feed(s: Seq<u8>)
    requires
        line_end(s) < s.len(),
    ensures
        first_feed(s).len() > 0,
        first_feed(s).last() == '\n' as u8,
        first_line(first_feed(s)) == first_line(s),
        other_lines(first_feed(s)).len() == 0,
{
    let feed = seq!['\n' as u8];
    lemma_first_line(s);
    lemma_cut_line(first_line(s), feed);
    lemma_feed_alone();
    assert(first_feed(s) =~= first_line(s) + feed);
    assert(first_line(s) + Seq::<u8>::empty() =~= first_line(s));
}

/// The first line of the lines that count is the first line.
proof fn lemma_live_first(s: Seq<u8>)
    requires
        s.len() > 0,
        !terminates(first_line(s)),
    ensures
        live(s).len() > 0,
        first_line(live(s)) == first_line(s),
        other_lines(live(s)) == live(other_lines(s)),
{
    let o = live(other_lines(s));
    lemma_first_line(s);
    if line_end(s) < s.len() {
        lemma_first_feed(s);
        lemma_lines_join(first_feed(s), o);
        assert(other_lines(first_feed(s)) + o =~= o);
    } else {
        assert(other_lines(s) =~= Seq::empty());
        assert(o =~= Seq::empty());
        assert(live(s) =~= s);
    }
}

/// What the lines that count hold, line by line.
proof fn lemma_live_step(s: Seq<u8>)
    requires
        s.len() > 0,
        !terminates(first_line(s)),
    ensures
        payloads(live(s)) == listed(payload_of(first_line(s))) + payloads(live(other_lines(s))),
        scan::occurs(live(s), usage_key()) <==> scan::occurs(first_line(s), usage_key())
            || scan::occurs(live(other_lines(s)), usage_key()),
{
    lemma_no_feed_in_marks();
    lemma_live_first(s);
    lemma_occurs_lines(live(s), usage_key());
}

proof fn lemma_feed_alone()
    ensures
        first_line(seq!['\n' as u8]) == Seq::<u8>::empty(),
        other_lines(seq!['\n' as u8]) == Seq::<u8>::empty(),
{
    let f = seq!['\n' as u8];
    lemma_first_line(f);
    scan::lemma_find_one(f, '\n' as u8);
    assert(f[0] == '\n' as u8);
    assert(first_line(f) =~= Seq::<u8>::empty());
    assert(other_lines(f) =~= Seq::<u8>::empty());
}

/// The usage objects of `a + b` are those of `a` and those of `b`, where `a`
/// ends a line.
proof fn lemma_usage_objects_join(a: Seq<u8>, b: Seq<u8>)
    requires
        ends_line(a),
        framed(a),
        framed(b),
    ensures
        usage_objects(a + b) == usage_objects(a) + usage_objects(b),
{
    lemma_no_feed_in_marks();
    lemma_payloads_join(a, b);
    let p = payloads(a);
    let q = payloads(b);
    lemma_objects_join(p, q);
    lemma_any_usage_join(p, q);
    lemma_occurs_join(a, b, usage_key());
    lemma_framed_objects(a);
    lemma_framed_objects(b);
    lemma_framed_objects(a + b);
}

/// In a framed text the usage objects are those of the payloads.
proof fn lemma_framed_objects(s: Seq<u8>)
    requires
        framed(s),
    ensures
        usage_objects(s) == objects_of(payloads(s)),
{
    if !scan::occurs(s, usage_key()) {
        lemma_no_key_no_objects(s);
        lemma_no_key_no_payload(s);
    }
    if !any_usage(payloads(s)) {
        lemma_no_usage_no_objects(payloads(s));
    }
}

proof fn lemma_absorbed_join(kind: ProviderKind, u: Usage, x: Seq<Seq<u8>>, y: Seq<Seq<u8>>)
    ensures
        absorbed_all(kind, u, x + y).0 == absorbed_all(kind, absorbed_all(kind, u, x).0, y).0,
        absorbed_all(kind, u, x + y).1 == (absorbed_all(kind, u, x).1 || absorbed_all(
            kind,
            absorbed_all(kind, u, x).0,
            y,
        ).1),
    decreases y.len(),
{
    if y.len() == 0 {
        assert(x + y =~= x);
    } else {
        assert((x + y).drop_last() =~= x + y.drop_last());
        lemma_absorbed_join(kind, u, x, y.drop_last());
    }
}

proof fn lemma_last_line_shape(s: Seq<u8>)
    ensures
        last_line(s).len() <= s.len(),
        s == s.take(s.len() - last_line(s).len()) + last_line(s),
        ({
            let head = s.take(s.len() - last_line(s).len());
            head.len() == 0 || head.last() == '\n' as u8
        }),
        forall|j: int| 0 <= j < last_line(s).len() ==> last_line(s)[j] != '\n' as u8,
    decreases s.len(),
{
    if s.len() == 0 || s.last() == '\n' as u8 {
        assert(s.take(s.len() as int) =~= s);
        assert(s =~= s + last_line(s));
    } else {
        let d = s.drop_last();
        lemma_last_line_shape(d);
        let n = d.len() - last_line(d).len();
        assert(s.take(n) =~= d.take(n));
        assert(s =~= (d.take(n) + last_line(d)).push(s.last()));
        assert(s =~= s.take(n) + last_line(s));
    }
}

proof fn lemma_last_line_join(a: Seq<u8>, b: Seq<u8>)
    requires
        a.len() == 0 || a.last() == '\n' as u8,
    ensures
        last_line(a + b) == last_line(b),
    decreases b.len(),
{
    if b.len() == 0 {
        assert(a + b =~= a);
    } else if b.last() == '\n' as u8 {
    } else {
        assert((a + b).drop_last() =~= a + b.drop_last());
        lemma_last_line_join(a, b.drop_last());
    }
}

proof fn lemma_same_bytes(
    tail: Seq<u8>,
    x: Seq<u8>,
    y: Seq<u8>,
    lines: Seq<u8>,
    cut: Seq<u8>,
)
    requires
        tail + x == lines + cut,
    ensures
        tail + (x + y) == lines + (cut + y),
{
    assert(tail + (x + y) =~= (tail + x) + y);
    assert((lines + cut) + y =~= lines + (cut + y));
}

/// Two scans come to what one does, where the one finds the objects of both.
proof fn lemma_scans_join(
    st: ScannerState,
    first: Seq<Seq<u8>>,
    second: Seq<Seq<u8>>,
    left: Seq<u8>,
    tail: Seq<u8>,
    over: bool,
)
    requires
        !st.done,
    ensures
        ({
            let one = scan_of(st, first + second, tail, over);
            let a = scan_of(st, first, left, false);
            let b = scan_of(a.0, second, tail, over);
            one.0 == b.0 && one.1 == joined(a.1, b.1)
        }),
{
    lemma_absorbed_join(st.provider, st.usage, first, second);
}

/// What one chunk finds in the whole lines `lines` and in what follows them, two find
/// one after the other.
proof fn lemma_two_finds(lines: Seq<u8>, cut: Seq<u8>, y: Seq<u8>, second: Seq<Seq<u8>>)
    requires
        ends_line(lines),
        !ended(lines),
        !ended(cut),
        framed(lines),
        framed(cut),
        framed(live(cut + y)),
        usage_objects(live(cut + y)) == usage_objects(cut) + second,
    ensures
        !ended(lines + cut),
        live(lines + cut) == lines + cut,
        usage_objects(live(lines + (cut + y))) == usage_objects(lines + cut) + second,
        ended(lines + (cut + y)) == ended(cut + y),
        left_behind(lines + (cut + y)) == left_behind(cut + y),
{
    let all = lines + (cut + y);
    lemma_live_join(lines, cut);
    lemma_live_all(lines + cut);
    lemma_live_join(lines, cut + y);
    lemma_last_line_join(lines, cut + y);
    assert(usage_objects(live(all)) =~= usage_objects(lines + cut) + second) by {
        lemma_usage_objects_join(lines, cut);
        lemma_usage_objects_join(lines, live(cut + y));
        lemma_grouped(usage_objects(lines), usage_objects(cut), second);
    }
}

proof fn lemma_grouped(a: Seq<Seq<u8>>, b: Seq<Seq<u8>>, c: Seq<Seq<u8>>)
    ensures
        a + (b + c) == (a + b) + c,
{
    assert(a + (b + c) =~= (a + b) + c);
}

/// Two chunks are as good as one where the cut leaves `cut` behind the whole lines
/// `lines`, and what is found in it and the second chunk is found in the two one
/// after the other.
#[verifier::rlimit(30)]
proof fn lemma_two_chunks(
    st: ScannerState,
    x: Seq<u8>,
    y: Seq<u8>,
    lines: Seq<u8>,
    cut: Seq<u8>,
)
    requires
        !st.done,
        st.tail + x == lines + cut,
        ends_line(lines),
        !ended(lines),
        !ended(cut),
        framed(lines),
        framed(cut),
        framed(live(cut + y)),
        ({
            let next = held_back(lines + cut) + y;
            &&& usage_objects(live(cut + y)) == usage_objects(cut) + usage_objects(live(next))
            &&& ended(cut + y) == ended(next)
            &&& held_back(cut + y) == held_back(next)
        }),
    ensures
        scanned(st, x + y).0 == scanned(scanned(st, x).0, y).0,
        scanned(st, x + y).1 == joined(scanned(st, x).1, scanned(scanned(st, x).0, y).1),
{
    let buf = lines + cut;
    let next = held_back(buf) + y;
    let all = lines + (cut + y);
    let first = usage_objects(buf);
    let second = usage_objects(live(next));
    lemma_same_bytes(st.tail, x, y, lines, cut);
    lemma_two_finds(lines, cut, y, second);
    assert(scanned(st, x) == scan_of(st, first, held_back(buf), false));
    assert(scanned(st, x + y) == scan_of(st, first + second, left_behind(all), ended(all)));
    lemma_scans_join(st, first, second, held_back(buf), left_behind(all), ended(all));
}

/// What follows the end of the stream makes no difference to one chunk or two.
proof fn lemma_over(st: ScannerState, x: Seq<u8>, y: Seq<u8>, lines: Seq<u8>, cut: Seq<u8>)
    requires
        st.tail + x == lines + cut,
        ends_line(lines),
        forall|i: int| 0 <= i < cut.len() ==> cut[i] != '\n' as u8,
        st.done || ended(lines) || terminates(cut) && terminates(cut + first_line(y)),
    ensures
        scanned(st, x + y).0 == scanned(scanned(st, x).0, y).0,
        scanned(st, x + y).1 == joined(scanned(st, x).1, scanned(scanned(st, x).0, y).1),
{
    lemma_same_bytes(st.tail, x, y, lines, cut);
    lemma_live_join(lines, cut);
    lemma_live_join(lines, cut + y);
    if !st.done && !ended(lines) {
        lemma_payload_start(cut);
        lemma_one_line(cut);
        lemma_cut_line(cut, y);
        assert(live(cut) =~= live(cut + y));
    }
}

/// How a response is cut into chunks does not matter: two chunks leave behind
/// what the two together would, and answer what their one answer amounts to.
///
/// The first chunk ends a line, or it cuts a `data:` line before its usage
/// object is complete, and what is read stands in `data:` lines. Or the stream has
/// ended in the first chunk.
pub proof fn law_chunking(st: ScannerState, x: Seq<u8>, y: Seq<u8>)
    requires
        ({
            let buf = st.tail + x;
            let cut = last_line(buf);
            let lines = buf.take(buf.len() - cut.len());
            ||| st.done
            ||| ended(lines)
            ||| terminates(cut) && terminates(cut + first_line(y))
            ||| framed(lines) && framed(cut) && framed(live(cut + y)) && (cut.len() > 0
                ==> !terminates(cut) && held_back(buf) == cut && usage_objects(cut).len() == 0)
        }),
    ensures
        scanned(st, x + y).0 == scanned(scanned(st, x).0, y).0,
        scanned(st, x + y).1 == joined(scanned(st, x).1, scanned(scanned(st, x).0, y).1),
{
    let buf = st.tail + x;
    let cut = last_line(buf);
    let lines = buf.take(buf.len() - cut.len());
    lemma_last_line_shape(buf);
    if st.done || ended(lines) || terminates(cut) && terminates(cut + first_line(y)) {
        lemma_over(st, x, y, lines, cut);
    } else {
        lemma_one_line(cut);
        if cut.len() == 0 {
            lemma_no_feed_in_marks();
            lemma_no_key_no_objects(cut);
            assert(held_back(buf) =~= cut);
            if terminates(cut) {
                lemma_payload_start(cut);
            }
        }
        assert(usage_objects(cut) + usage_objects(live(cut + y)) =~= usage_objects(
            live(cut + y),
        ));
        lemma_two_chunks(st, x, y, lines, cut);
    }
}

proof fn lemma_lex_prefix(s: Seq<u8>, more: Seq<u8>, n: int)
    requires
        0 <= n <= s.len(),
    ensures
        (s + more).take(n) == s.take(n),
{
    assert((s + more).take(n) =~= s.take(n));
}

/// A usage object that is complete stays what it is, whatever follows it.
pub proof fn law_complete_object_is_final(s: Seq<u8>, more: Seq<u8>)
    requires
        usage_object(s) is Some,
    ensures
        usage_object(s + more) == usage_object(s),
{
    reveal_strlit("\"usage\"");
    let key = scan::find(s, usage_key())->0;
    scan::lemma_find(s, usage_key());
    scan::lemma_find_extend(s, more, usage_key(), key);
    let colon = seq![':' as u8];
    let n = scan::find(s.skip(key + 7), colon)->0;
    scan::lemma_find(s.skip(key + 7), colon);
    scan::lemma_find_extend(s.skip(key + 7), more, colon, n);
    assert((s + more).skip(key + 7) =~= s.skip(key + 7) + more);
    scan::lemma_past_space(s, key + 7 + n + 1);
    let start = scan::past_space(s, key + 7 + n + 1);
    scan::lemma_past_space_extend(s, more, key + 7 + n + 1);
    assert((s + more).skip(start) =~= s.skip(start) + more);
    let t = s.skip(start);
    let m = choose|m: int| closes_at(t, m);
    assert forall|k: int| 0 <= k <= t.len() implies (#[trigger] (t + more).take(k)) == t.take(
        k,
    ) by {
        lemma_lex_prefix(t, more, k);
    }
    assert(closes_at(t + more, m));
    let m2 = choose|m2: int| closes_at(t + more, m2);
    assert(closes_at(t + more, m2));
    if m2 < m {
        assert(lex(t.take(m2)).depth > 0);
    } else if m < m2 {
        assert(lex((t + more).take(m)).depth > 0);
    }
    assert((t + more)[0] == t[0]);
}

proof fn lemma_unmarked_piece(s: Seq<u8>, from: int, to: int)
    requires
        0 <= from <= to <= s.len(),
        unmarked(s),
    ensures
        unmarked(s.subrange(from, to)),
{
    if scan::occurs(s.subrange(from, to), data_tag()) {
        lemma_occurs_piece(s, from, to, data_tag());
    }
    if scan::occurs(s.subrange(from, to), usage_key()) {
        lemma_occurs_piece(s, from, to, usage_key());
    }
}

/// An unmarked line gives nothing.
proof fn lemma_unmarked_line(line: Seq<u8>)
    requires
        unmarked(line),
    ensures
        payload_of(line) is None,
        !terminates(line),
        usage_objects(line) == Seq::<Seq<u8>>::empty(),
{
    scan::lemma_find(line, data_tag());
    lemma_no_key_no_objects(line);
}

/// Whether a line begins before `y` or in it, what is held back at the end of `y`
/// is the same where `y` has more than one line.
proof fn lemma_held_back_later(cut: Seq<u8>, y: Seq<u8>)
    requires
        forall|i: int| 0 <= i < cut.len() ==> cut[i] != '\n' as u8,
        line_end(y) < y.len(),
    ensures
        held_back(cut + y) == held_back(y),
{
    lemma_first_line(y);
    let f = first_feed(y);
    let o = other_lines(y);
    assert(f.last() == '\n' as u8);
    assert((cut + f).last() == '\n' as u8);
    assert(cut + y =~= (cut + f) + o);
    lemma_last_line_join(f, o);
    lemma_last_line_join(cut + f, o);
}

/// The beginning of an unmarked line adds nothing to what is found behind it.
proof fn lemma_unmarked_cut(cut: Seq<u8>, y: Seq<u8>)
    requires
        unmarked(cut + first_line(y)),
        framed(live(y)),
        forall|i: int| 0 <= i < cut.len() ==> cut[i] != '\n' as u8,
    ensures
        unmarked(cut),
        framed(live(cut + y)),
        usage_objects(live(cut + y)) == usage_objects(live(y)),
        ended(cut + y) == ended(y),
        held_back(cut + y) == held_back(y),
{
    let s = cut + y;
    let line = cut + first_line(y);
    lemma_first_line(y);
    lemma_cut_line(cut, y);
    lemma_unmarked_piece(line, 0, cut.len() as int);
    assert(line.subrange(0, cut.len() as int) =~= cut);
    lemma_unmarked_piece(line, cut.len() as int, line.len() as int);
    assert(line.subrange(cut.len() as int, line.len() as int) =~= first_line(y));
    lemma_unmarked_line(line);
    lemma_unmarked_line(cut);
    lemma_unmarked_line(first_line(y));
    if line_end(y) < y.len() {
        lemma_held_back_later(cut, y);
    } else {
        assert(first_line(y) =~= y);
        lemma_one_line(y);
        lemma_one_line(s);
    }
    if y.len() > 0 {
        lemma_live_step(y);
        lemma_live_step(s);
        assert(payloads(live(s)) =~= payloads(live(y)));
        lemma_framed_objects(live(y));
        lemma_framed_objects(live(s));
    } else {
        assert(s =~= cut);
        lemma_one_line(cut);
        lemma_live_all(cut);
        assert(live(y) =~= y);
        assert(first_line(y) =~= y);
    }
}

/// A cut in a line that the scanner has no interest in (an `event:` line, say)
/// makes no difference either.
pub proof fn law_chunking_elsewhere(st: ScannerState, x: Seq<u8>, y: Seq<u8>)
    requires
        ({
            let buf = st.tail + x;
            let cut = last_line(buf);
            let lines = buf.take(buf.len() - cut.len());
            ||| st.done
            ||| ended(lines)
            ||| unmarked(cut + first_line(y)) && framed(lines) && framed(live(y))
        }),
    ensures
        scanned(st, x + y).0 == scanned(scanned(st, x).0, y).0,
        scanned(st, x + y).1 == joined(scanned(st, x).1, scanned(scanned(st, x).0, y).1),
{
    let buf = st.tail + x;
    let cut = last_line(buf);
    let lines = buf.take(buf.len() - cut.len());
    lemma_last_line_shape(buf);
    if st.done || ended(lines) {
        lemma_over(st, x, y, lines, cut);
    } else {
        lemma_unmarked_cut(cut, y);
        lemma_unmarked_line(cut);
        lemma_one_line(cut);
        lemma_last_line_join(lines, cut);
        assert(held_back(buf) + y =~= y);
        assert(usage_objects(cut) + usage_objects(live(y)) =~= usage_objects(live(y)));
        lemma_two_chunks(st, x, y, lines, cut);
    }
}

/// More of a line makes its payload longer.
proof fn lemma_payload_grows(l: Seq<u8>, r: Seq<u8>)
    requires
        payload_of(l) is Some,
        (payload_of(l)->0).len() > 0,
    ensures
        payload_of(l + r) == Some(payload_of(l)->0 + r),
{
    reveal_strlit("data:");
    lemma_payload_start(l);
    let i = scan::find(l, data_tag())->0;
    scan::lemma_find_extend(l, r, data_tag(), i);
    scan::lemma_past_space_extend(l, r, i + 5);
    let start = scan::past_space(l, i + 5);
    assert((l + r).skip(start) =~= l.skip(start) + r);
}

/// A line whose payload holds the key is not the terminator.
proof fn lemma_key_goes_on(line: Seq<u8>)
    requires
        payload_of(line) is Some,
        scan::occurs(payload_of(line)->0, usage_key()),
    ensures
        !terminates(line),
        (payload_of(line)->0).len() > 0,
{
    reveal_strlit("\"usage\"");
    reveal_strlit("[DONE]");
    let p = payload_of(line)->0;
    let k = choose|k: int| scan::occurs_at(p, usage_key(), k);
    assert(p.subrange(k, k + 7)[0] == '"' as u8);
    assert(p[k] == '"' as u8);
    lemma_end_space(p);
    if terminates(line) {
        let n = without_end_space(p).len() as int;
        lemma_without_end_space(p);
        if k < n {
            assert(p.take(n)[k] == done_mark()[k]);
        }
    }
}

proof fn lemma_end_space(s: Seq<u8>)
    ensures
        forall|i: int| without_end_space(s).len() <= i < s.len() ==> scan::is_space(s[i]),
    decreases s.len(),
{
    if s.len() > 0 && scan::is_space(s.last()) {
        let d = s.drop_last();
        lemma_end_space(d);
        assert forall|i: int| without_end_space(s).len() <= i < s.len() implies scan::is_space(
            s[i],
        ) by {
            if i < d.len() {
                assert(s[i] == d[i]);
            }
        }
    }
}

/// A text that gives an object names the key.
proof fn lemma_keyed(s: Seq<u8>)
    requires
        usage_object(s) is Some,
    ensures
        scan::occurs(s, usage_key()),
{
    if !scan::occurs(s, usage_key()) {
        lemma_no_key_no_objects(s);
    }
}

/// A line with a complete object and the chunk behind it give the object, and what
/// the chunk gives.
proof fn lemma_object_line(cut: Seq<u8>, y: Seq<u8>)
    requires
        forall|i: int| 0 <= i < cut.len() ==> cut[i] != '\n' as u8,
        usage_object(cut) is Some,
        payload_of(cut) is Some,
        usage_object(payload_of(cut)->0) is Some,
        unmarked(first_line(y)),
        framed(live(y)),
    ensures
        framed(cut),
        !terminates(cut),
        usage_objects(live(cut + y)) == usage_objects(cut) + usage_objects(live(y)),
        framed(live(cut + y)),
        ended(cut + y) == ended(y),
        held_back(cut + y) == held_back(y),
{
    let s = cut + y;
    let r = first_line(y);
    let p = payload_of(cut)->0;
    lemma_first_line(y);
    lemma_cut_line(cut, y);
    lemma_keyed(p);
    lemma_key_goes_on(cut);
    lemma_payload_grows(cut, r);
    law_complete_object_is_final(p, r);
    lemma_keyed(p + r);
    lemma_key_goes_on(cut + r);
    lemma_unmarked_line(r);
    lemma_one_line(cut);
    lemma_any_usage_one(p);
    lemma_any_usage_one(p + r);
    lemma_framed_objects(cut);
    lemma_object_held_back(cut, y);
    if y.len() > 0 {
        let rest = payloads(live(other_lines(y)));
        lemma_live_step(y);
        lemma_live_step(s);
        lemma_objects_join(seq![p + r], rest);
        lemma_any_usage_join(seq![p + r], rest);
        lemma_objects_of_one(p);
        lemma_objects_of_one(p + r);
        assert(payloads(live(y)) =~= rest);
        lemma_framed_objects(live(y));
        lemma_framed_objects(live(s));
    } else {
        assert(s =~= cut);
        lemma_live_all(cut);
        assert(live(y) =~= y);
        lemma_unmarked_line(r);
        assert(r =~= y);
        assert(usage_objects(cut) + usage_objects(y) =~= usage_objects(cut));
    }
}

proof fn lemma_object_held_back(cut: Seq<u8>, y: Seq<u8>)
    requires
        forall|i: int| 0 <= i < cut.len() ==> cut[i] != '\n' as u8,
        usage_object(cut) is Some,
        unmarked(first_line(y)),
    ensures
        held_back(cut + y) == held_back(y),
{
    lemma_first_line(y);
    if line_end(y) < y.len() {
        lemma_held_back_later(cut, y);
    } else {
        assert(first_line(y) =~= y);
        lemma_one_line(y);
        lemma_one_line(cut + y);
        law_complete_object_is_final(cut, y);
    }
}

proof fn lemma_objects_of_one(p: Seq<u8>)
    ensures
        objects_of(seq![p]) == listed(usage_object(p)),
{
    assert(seq![p].drop_first() =~= Seq::<Seq<u8>>::empty());
    assert(objects_of(seq![p].drop_first()) =~= Seq::empty());
    assert(objects_of(seq![p]) =~= listed(usage_object(p)));
}

/// A cut behind a complete usage object makes no difference either, where the
/// rest of its line holds nothing that a scanner looks for: the object is read
/// once, and not held back to be read again.
pub proof fn law_chunking_behind_an_object(st: ScannerState, x: Seq<u8>, y: Seq<u8>)
    requires
        ({
            let buf = st.tail + x;
            let cut = last_line(buf);
            let lines = buf.take(buf.len() - cut.len());
            ||| st.done
            ||| ended(lines)
            ||| usage_object(cut) is Some && payload_of(cut) is Some && usage_object(
                payload_of(cut)->0,
            ) is Some && unmarked(first_line(y)) && framed(lines) && framed(live(y))
        }),
    ensures
        scanned(st, x + y).0 == scanned(scanned(st, x).0, y).0,
        scanned(st, x + y).1 == joined(scanned(st, x).1, scanned(scanned(st, x).0, y).1),
{
    let buf = st.tail + x;
    let cut = last_line(buf);
    let lines = buf.take(buf.len() - cut.len());
    lemma_last_line_shape(buf);
    if st.done || ended(lines) {
        lemma_over(st, x, y, lines, cut);
    } else {
        lemma_object_line(cut, y);
        lemma_one_line(cut);
        lemma_last_line_join(lines, cut);
        assert(held_back(buf) + y =~= y);
        lemma_two_chunks(st, x, y, lines, cut);
    }
}

/// A line that begins with the field name and holds the key has it in its payload.
proof fn lemma_tagged_line(line: Seq<u8>)
    requires
        scan::occurs(line, usage_key()),
        scan::occurs_at(line, data_tag(), 0),
    ensures
        payload_of(line) is Some,
        scan::occurs(payload_of(line)->0, usage_key()),
{
    reveal_strlit("\"usage\"");
    reveal_strlit("data:");
    scan::lemma_find_first(line, data_tag(), 0);
    lemma_payload_start(line);
    let start = scan::past_space(line, 5);
    let k = choose|k: int| scan::occurs_at(line, usage_key(), k);
    assert(line.subrange(k, k + 7)[0] == '"' as u8);
    assert(line[k] == '"' as u8);
    if k < 5 {
        assert(line.subrange(0, 5)[k] == data_tag()[k]);
    }
    assert(start <= k);
    assert(line.skip(start).subrange(k - start, k - start + 7) =~= line.subrange(k, k + 7));
    assert(scan::occurs_at(line.skip(start), usage_key(), k - start));
}

proof fn lemma_tagged_is_framed(s: Seq<u8>)
    requires
        tagged(s),
    ensures
        framed(s),
    decreases s.len(),
{
    lemma_no_feed_in_marks();
    if s.len() > 0 {
        lemma_first_line(s);
        lemma_tagged_is_framed(other_lines(s));
        lemma_occurs_lines(s, usage_key());
        let line = first_line(s);
        lemma_any_usage_join(listed(payload_of(line)), payloads(other_lines(s)));
        if scan::occurs(line, usage_key()) {
            lemma_tagged_line(line);
            lemma_any_usage_one(payload_of(line)->0);
        }
    }
}

proof fn lemma_tagged_join(a: Seq<u8>, b: Seq<u8>)
    requires
        ends_line(a),
        tagged(a),
        tagged(b),
    ensures
        tagged(a + b),
    decreases a.len(),
{
    if a.len() == 0 {
        assert(a + b =~= b);
    } else {
        lemma_first_line(a);
        lemma_lines_join(a, b);
        lemma_tagged_join(other_lines(a), b);
    }
}

proof fn lemma_tagged_live(s: Seq<u8>)
    requires
        tagged(s),
    ensures
        framed(live(s)),
    decreases s.len(),
{
    lemma_no_feed_in_marks();
    if s.len() == 0 || terminates(first_line(s)) {
        lemma_tagged_is_framed(live(s));
    } else {
        let line = first_line(s);
        lemma_first_line(s);
        lemma_tagged_live(other_lines(s));
        lemma_live_step(s);
        lemma_any_usage_join(listed(payload_of(line)), payloads(live(other_lines(s))));
        if scan::occurs(line, usage_key()) {
            lemma_tagged_line(line);
            lemma_any_usage_one(payload_of(line)->0);
        }
    }
}

/// Whole lines come to the same in one chunk or in two: no usage object is dropped
/// and none is counted twice. Every line with the `"usage"` key begins with
/// `data:`; all else may stand in the lines, blank fields among it.
pub proof fn law_whole_lines(st: ScannerState, a: Seq<u8>, b: Seq<u8>)
    requires
        st.tail.len() == 0,
        ends_line(a),
        tagged(a),
        tagged(b),
    ensures
        scanned(st, a + b).0 == scanned(scanned(st, a).0, b).0,
        scanned(st, a + b).1 == joined(scanned(st, a).1, scanned(scanned(st, a).0, b).1),
        outcome(scanned(st, a + b).0) == outcome(scanned(scanned(st, a).0, b).0),
{
    let buf = st.tail + a;
    let cut = last_line(buf);
    assert(buf =~= a);
    assert(cut.len() == 0);
    assert(buf.take(buf.len() - cut.len()) =~= a);
    assert(cut + b =~= b);
    lemma_tagged_is_framed(a);
    lemma_tagged_is_framed(cut);
    lemma_tagged_live(b);
    law_chunking(st, a, b);
}

/// Whole lines come to the same however they are cut into chunks.
pub proof fn law_lines_in_any_chunks(st: ScannerState, chunks: Seq<Seq<u8>>)
    requires
        st.tail.len() == 0,
        forall|i: int|
            0 <= i < chunks.len() ==> ends_line(#[trigger] chunks[i]) && tagged(chunks[i]),
    ensures
        streamed(st, chunks) == scanned(st, flat(chunks)).0,
{
    lemma_lines_in_any_chunks(st, chunks);
}

#[verifier::rlimit(30)]
proof fn lemma_lines_in_any_chunks(st: ScannerState, chunks: Seq<Seq<u8>>)
    requires
        st.tail.len() == 0,
        forall|i: int|
            0 <= i < chunks.len() ==> ends_line(#[trigger] chunks[i]) && tagged(chunks[i]),
    ensures
        ends_line(flat(chunks)),
        tagged(flat(chunks)),
        streamed(st, chunks) == scanned(st, flat(chunks)).0,
    decreases chunks.len(),
{
    if chunks.len() == 0 {
        let none = st.tail + flat(chunks);
        assert(none =~= Seq::empty());
        lemma_no_feed_in_marks();
        lemma_no_key_no_objects(none);
        assert(live(none) =~= none);
        assert(held_back(none) =~= st.tail);
    } else {
        let less = chunks.drop_last();
        let last = chunks.last();
        assert forall|i: int| 0 <= i < less.len() implies ends_line(#[trigger] less[i]) && tagged(
            less[i],
        ) by {
            assert(less[i] == chunks[i]);
        }
        assert(chunks[chunks.len() - 1] == last);
        lemma_lines_in_any_chunks(st, less);
        lemma_tagged_join(flat(less), last);
        law_whole_lines(st, flat(less), last);
    }
}

/// Once the stream has ended, nothing counts any more.
pub proof fn law_nothing_counts_after_the_end(st: ScannerState, chunks: Seq<Seq<u8>>)
    requires
        st.done,
    ensures
        streamed(st, chunks) == st,
        outcome(streamed(st, chunks)) == outcome(st),
    decreases chunks.len(),
{
    if chunks.len() > 0 {
        law_nothing_counts_after_the_end(st, chunks.drop_last());
    }
}

/// The terminator ends the stream: what stands behind its line, in the same chunk
/// or in a later one, makes no difference.
pub proof fn law_terminator_ends(st: ScannerState, x: Seq<u8>, y: Seq<u8>)
    requires
        st.tail.len() == 0,
        ends_line(x),
        ended(x),
    ensures
        !st.done ==> scanned(st, x).1 == ScanResult::Done,
        scanned(st, x).0.done,
        scanned(st, x + y) == scanned(st, x),
        scanned(scanned(st, x).0, y).0 == scanned(st, x).0,
{
    assert(st.tail + x =~= x);
    assert(st.tail + (x + y) =~= x + y);
    lemma_live_join(x, y);
}

/// With an OpenAI-compatible provider the last readable usage object is the one
/// that counts; whatever came before it is forgotten.
pub proof fn law_openai_last_wins(kind: ProviderKind, u: Usage, texts: Seq<Seq<u8>>, i: int)
    requires
        kind != ProviderKind::Anthropic,
        0 <= i < texts.len(),
        openai_fields(texts[i]) is Some,
        forall|j: int| i < j < texts.len() ==> openai_fields(#[trigger] texts[j]) is None,
    ensures
        absorbed_all(kind, u, texts) == (openai_usage(openai_fields(texts[i])->0), true),
    decreases texts.len(),
{
    if i < texts.len() - 1 {
        assert(openai_fields(texts.last()) is None);
        law_openai_last_wins(kind, u, texts.drop_last(), i);
    }
}

/// With Anthropic each count is the last one that a readable usage object gave:
/// running totals are replaced, never added up.
pub proof fn law_anthropic_last_wins(u: Usage, texts: Seq<Seq<u8>>, i: int)
    requires
        0 <= i < texts.len(),
        anthropic_fields(texts[i]) is Some,
    ensures
        ({
            let last = absorbed_all(ProviderKind::Anthropic, u, texts).0;
            let given = anthropic_fields(texts[i])->0;
            &&& (given.input_tokens is Some && forall|j: int|
                i < j < texts.len() && anthropic_fields(#[trigger] texts[j]) is Some ==> (
                anthropic_fields(texts[j])->0).input_tokens is None) ==> last.prompt_tokens
                == given.input_tokens
            &&& (given.output_tokens is Some && forall|j: int|
                i < j < texts.len() && anthropic_fields(#[trigger] texts[j]) is Some ==> (
                anthropic_fields(texts[j])->0).output_tokens is None) ==> last.completion_tokens
                == given.output_tokens
            &&& (given.cache_read_input_tokens is Some && forall|j: int|
                i < j < texts.len() && anthropic_fields(#[trigger] texts[j]) is Some ==> (
                anthropic_fields(texts[j])->0).cache_read_input_tokens is None)
                ==> last.cached_tokens == given.cache_read_input_tokens
        }),
    decreases texts.len(),
{
    if i < texts.len() - 1 {
        let d = texts.drop_last();
        law_anthropic_last_wins(u, d, i);
        assert forall|j: int| i < j < d.len() implies d[j] == #[trigger] texts[j] by {}
        assert(d[i] == texts[i]);
        assert(texts[texts.len() - 1] == texts.last());
    }
}

/// The lines that count are a beginning of the text.
proof fn lemma_live_is_beginning(s: Seq<u8>)
    ensures
        live(s).len() <= s.len(),
        live(s) == s.take(live(s).len() as int),
    decreases s.len(),
{
    if s.len() == 0 || terminates(first_line(s)) {
        assert(live(s) =~= s.take(0));
    } else {
        lemma_first_line(s);
        lemma_live_is_beginning(other_lines(s));
        assert(live(s) =~= s.take(live(s).len() as int));
    }
}

#[verifier::rlimit(30)]
proof fn lemma_tail_is_suffix(st: ScannerState, chunks: Seq<Seq<u8>>)
    requires
        st.tail.len() == 0,
        !scan::occurs(flat(chunks), usage_key()),
    ensures
        ({
            let now = streamed(st, chunks);
            let all = flat(chunks);
            &&& now.tail.len() <= all.len()
            &&& now.tail == all.skip(all.len() - now.tail.len())
            &&& now.usage == st.usage
            &&& now.seen_any == st.seen_any
            &&& now.provider == st.provider
            &&& now.done ==> now.tail.len() == 0
        }),
    decreases chunks.len(),
{
    let all = flat(chunks);
    if chunks.len() == 0 {
        assert(st.tail =~= all.skip(0));
    } else {
        let before = flat(chunks.drop_last());
        let chunk = chunks.last();
        if scan::occurs(before, usage_key()) {
            lemma_occurs_prefix(before, chunk, usage_key());
        }
        lemma_tail_is_suffix(st, chunks.drop_last());
        let mid = streamed(st, chunks.drop_last());
        let buf = mid.tail + chunk;
        let from = all.len() - buf.len();
        assert(buf =~= all.subrange(from, all.len() as int));
        let part = live(buf);
        lemma_live_is_beginning(buf);
        assert(part =~= all.subrange(from, from + part.len()));
        if scan::occurs(part, usage_key()) {
            lemma_occurs_piece(all, from, from + part.len(), usage_key());
        }
        lemma_no_key_no_objects(part);
        let now = scanned(mid, chunk).0;
        lemma_last_line_shape(buf);
        if now.tail.len() > 0 {
            let n = buf.len() - now.tail.len();
            assert(now.tail =~= (buf.take(n) + last_line(buf)).skip(n));
            assert(now.tail =~= all.skip(all.len() - now.tail.len()));
        } else {
            assert(now.tail =~= all.skip(all.len() as int));
        }
    }
}

/// A response that never names `"usage"` leaves nothing to report, however it
/// is cut into chunks.
pub proof fn law_no_usage_reports_nothing(st: ScannerState, chunks: Seq<Seq<u8>>)
    requires
        st.tail.len() == 0,
        !st.seen_any,
        !scan::occurs(flat(chunks), usage_key()),
    ensures
        outcome(streamed(st, chunks)) is None,
{
    lemma_tail_is_suffix(st, chunks);
}

/// The counts of an OpenAI-compatible usage object come from the members that are named
/// for them. A prompt count is that of `prompt_tokens`, and where that is missing that
/// of `input_tokens`; a completion count is that of `completion_tokens`, and where that
/// is missing that of `output_tokens`; neither looks at the members of the other. The
/// total is that of `total_tokens`. What was known before has no part in any of them.
pub proof fn law_openai_counts_come_from_their_members(
    kind: ProviderKind,
    u: Usage,
    text: Seq<u8>,
    v: Usage,
)
    requires
        kind is OpenAi || kind is Generic,
        absorbed(kind, u, text) == Some(v),
    ensures
        json::object_members(text) is Some,
        ({
            let m = json::object_members(text)->0;
            &&& match json::count_member(m, "prompt_tokens"@) {
                Some(Some(n)) => v.prompt_tokens == Some(n),
                Some(None) => Some(v.prompt_tokens) == json::count_member(m, "input_tokens"@),
                None => false,
            }
            &&& match json::count_member(m, "completion_tokens"@) {
                Some(Some(n)) => v.completion_tokens == Some(n),
                Some(None) => Some(v.completion_tokens) == json::count_member(m, "output_tokens"@),
                None => false,
            }
            &&& match json::count_member(m, "total_tokens"@) {
                Some(t) => v.total_tokens == t,
                None => v.total_tokens is None,
            }
        }),
{
}

/// The cached tokens of an OpenAI-compatible usage object are those of its
/// `prompt_tokens_details`, and where these give none, those of its own
/// `cached_tokens`.
pub proof fn law_openai_cached_tokens(
    kind: ProviderKind,
    u: Usage,
    text: Seq<u8>,
    v: Usage,
    details: Seq<u8>,
)
    requires
        kind is OpenAi || kind is Generic,
        absorbed(kind, u, text) == Some(v),
    ensures
        ({
            let m = json::object_members(text)->0;
            let own = json::count_member(m, "cached_tokens"@);
            &&& json::only(m, "prompt_tokens_details"@) == Some(None::<Seq<u8>>) ==> Some(
                v.cached_tokens,
            ) == own
            &&& json::only(m, "prompt_tokens_details"@) == Some(Some(details))
                && json::object_members(details) is Some ==> match json::count_member(
                json::object_members(details)->0,
                "cached_tokens"@,
            ) {
                Some(Some(n)) => v.cached_tokens == Some(n),
                Some(None) => Some(v.cached_tokens) == own,
                None => false,
            }
        }),
{
}

/// An OpenAI-compatible usage object is read wherever its text is an object, each of
/// its counts is a count or missing, and it has no details: the total never spoils it.
pub proof fn law_openai_object_is_read(
    kind: ProviderKind,
    u: Usage,
    text: Seq<u8>,
)
    requires
        kind is OpenAi || kind is Generic,
    ensures
        json::object_members(text) is None ==> absorbed(kind, u, text) is None,
        json::object_members(text) is Some ==> {
            let m = json::object_members(text)->0;
            &&& json::only(m, "prompt_tokens_details"@) == Some(None::<Seq<u8>>) ==> (absorbed(
                kind,
                u,
                text,
            ) is Some <==> {
                &&& json::count_member(m, "prompt_tokens"@) is Some
                &&& json::count_member(m, "completion_tokens"@) is Some
                &&& json::count_member(m, "input_tokens"@) is Some
                &&& json::count_member(m, "output_tokens"@) is Some
                &&& json::count_member(m, "cached_tokens"@) is Some
            })
        },
        forall|w: Usage| #[trigger] absorbed(kind, w, text) == absorbed(kind, u, text),
{
}

/// The fields that are read from a usage object are the members of the same name.
pub proof fn law_fields_are_the_members(text: Seq<u8>)
    ensures
        openai_fields(text) matches Some(f) ==> {
            let m = json::object_members(text)->0;
            &&& Some(f.prompt_tokens) == json::count_member(m, "prompt_tokens"@)
            &&& Some(f.completion_tokens) == json::count_member(m, "completion_tokens"@)
            &&& Some(f.input_tokens) == json::count_member(m, "input_tokens"@)
            &&& Some(f.output_tokens) == json::count_member(m, "output_tokens"@)
            &&& Some(f.cached_tokens) == json::count_member(m, "cached_tokens"@)
            &&& f.total_tokens is Some ==> Some(f.total_tokens) == json::count_member(
                m,
                "total_tokens"@,
            )
        },
        anthropic_fields(text) matches Some(f) ==> {
            let m = json::object_members(text)->0;
            &&& Some(f.input_tokens) == json::count_member(m, "input_tokens"@)
            &&& Some(f.output_tokens) == json::count_member(m, "output_tokens"@)
            &&& Some(f.cache_read_input_tokens) == json::count_member(
                m,
                "cache_read_input_tokens"@,
            )
        },
{
}

/// An Anthropic usage object replaces each count that it gives and leaves the others:
/// the prompt count by `input_tokens`, the completion count by `output_tokens`, and the
/// cached tokens by `cache_read_input_tokens`. Nothing is added up.
pub proof fn law_anthropic_counts_replace(u: Usage, text: Seq<u8>)
    ensures
        ({
            let m = json::object_members(text)->0;
            let prompt = json::count_member(m, "input_tokens"@);
            let completion = json::count_member(m, "output_tokens"@);
            let cached = json::count_member(m, "cache_read_input_tokens"@);
            match absorbed(ProviderKind::Anthropic, u, text) {
                Some(v) => {
                    &&& json::object_members(text) is Some
                    &&& v.prompt_tokens == if prompt == Some(None::<u64>) {
                        u.prompt_tokens
                    } else {
                        prompt->0
                    }
                    &&& v.completion_tokens == if completion == Some(None::<u64>) {
                        u.completion_tokens
                    } else {
                        completion->0
                    }
                    &&& v.cached_tokens == if cached == Some(None::<u64>) {
                        u.cached_tokens
                    } else {
                        cached->0
                    }
                    &&& v.total_tokens == u.total_tokens
                },
                None => json::object_members(text) is None || prompt is None || completion is None
                    || cached is None,
            }
        }),
{
}

/// A scanner reports what it has read, and nothing only where it has read nothing.
/// Anthropic sends no total: there it is the sum of prompt and completion.
pub proof fn law_report_is_what_was_read(st: ScannerState)
    ensures
        outcome(st) is Some <==> st.seen_any,
        st.seen_any ==> {
            let r = outcome(st)->0;
            &&& r.prompt_tokens == st.usage.prompt_tokens
            &&& r.completion_tokens == st.usage.completion_tokens
            &&& r.cached_tokens == st.usage.cached_tokens
            &&& !(st.provider is Anthropic) ==> r.total_tokens == st.usage.total_tokens
            &&& st.provider is Anthropic ==> match (
                st.usage.prompt_tokens,
                st.usage.completion_tokens,
            ) {
                (Some(p), Some(c)) => if p + c <= u64::MAX {
                    r.total_tokens is Some && (r.total_tokens->0) as int == p + c
                } else {
                    r.total_tokens is None
                },
                _ => r.total_tokens is None,
            }
        },
{
}

// How objects are told apart from what surrounds them.

/// Outside a string a brace opens or closes one level, and no other byte but a quote
/// does anything.
pub proof fn law_braces_make_levels(s: Seq<u8>, b: u8)
    requires
        !lex(s).in_string,
    ensures
        lex(s.push('{' as u8)).depth == lex(s).depth + 1,
        lex(s).depth > 0 ==> lex(s.push('}' as u8)).depth == lex(s).depth - 1,
        !lex(s.push('{' as u8)).in_string,
        !lex(s.push('}' as u8)).in_string,
        lex(s.push('"' as u8)).in_string,
        lex(s.push('"' as u8)).depth == lex(s).depth,
        b != '{' as u8 && b != '}' as u8 && b != '"' as u8 ==> lex(s.push(b)) == lex(s),
{
    assert(s.push('{' as u8).drop_last() =~= s);
    assert(s.push('}' as u8).drop_last() =~= s);
    assert(s.push('"' as u8).drop_last() =~= s);
    assert(s.push(b).drop_last() =~= s);
}

/// Inside a string nothing makes a level. A quote ends the string, unless a backslash
/// stands before it.
pub proof fn law_strings_hide_braces(s: Seq<u8>, b: u8)
    requires
        lex(s).in_string,
        !lex(s).escaped,
    ensures
        lex(s.push(b)).depth == lex(s).depth,
        !lex(s.push('"' as u8)).in_string,
        !lex(s.push('"' as u8)).escaped,
        b != '"' as u8 && b != '\\' as u8 ==> lex(s.push(b)) == lex(s),
        lex(s.push('\\' as u8).push(b)) == lex(s),
{
    assert(s.push(b).drop_last() =~= s);
    assert(s.push('"' as u8).drop_last() =~= s);
    assert(s.push('\\' as u8).drop_last() =~= s);
    let t = s.push('\\' as u8);
    assert(lex(t) == (Lex { escaped: true, ..lex(s) }));
    assert(t.push(b).drop_last() =~= t);
    assert(lex(t.push(b)) == lex_step(lex(t), b));
}

/// Braces around a text that has none, with whole strings in it, make an object that
/// closes at its last byte.
pub proof fn law_flat_object_closes_at_its_end(inner: Seq<u8>)
    requires
        forall|i: int|
            0 <= i < inner.len() ==> #[trigger] inner[i] != '{' as u8 && inner[i] != '}' as u8
                && inner[i] != '\\' as u8,
        inner.filter(|b: u8| b == '"' as u8).len() % 2 == 0,
    ensures
        closes_at(seq!['{' as u8] + inner + seq!['}' as u8], (inner.len() + 2) as int),
{
    let o = seq!['{' as u8] + inner + seq!['}' as u8];
    let n = o.len() as int;
    assert forall|k: int| 0 < k < n implies lex(#[trigger] o.take(k)).depth == 1 by {
        lemma_flat_lex(inner, k - 1);
        assert(o.take(k) =~= seq!['{' as u8] + inner.take(k - 1));
    }
    lemma_flat_lex(inner, inner.len() as int);
    assert(inner.take(inner.len() as int) =~= inner);
    assert(o.take(n) =~= (seq!['{' as u8] + inner).push('}' as u8));
    assert((seq!['{' as u8] + inner).push('}' as u8).drop_last() =~= seq!['{' as u8] + inner);
}

proof fn lemma_flat_lex(inner: Seq<u8>, k: int)
    requires
        0 <= k <= inner.len(),
        forall|i: int|
            0 <= i < inner.len() ==> #[trigger] inner[i] != '{' as u8 && inner[i] != '}' as u8
                && inner[i] != '\\' as u8,
    ensures
        ({
            let st = lex(seq!['{' as u8] + inner.take(k));
            &&& st.depth == 1
            &&& !st.escaped
            &&& st.in_string == (inner.take(k).filter(|b: u8| b == '"' as u8).len() % 2 == 1)
        }),
    decreases k,
{
    reveal(Seq::filter);
    let open = seq!['{' as u8];
    if k == 0 {
        assert(inner.take(0) =~= Seq::empty());
        assert(open + inner.take(0) =~= open);
        assert(open.drop_last() =~= Seq::empty());
        assert(lex(open.drop_last()) == (Lex { depth: 0, in_string: false, escaped: false }));
        assert(inner.take(0).filter(|b: u8| b == '"' as u8).len() == 0);
    } else {
        lemma_flat_lex(inner, k - 1);
        let s = open + inner.take(k);
        assert(s.drop_last() =~= open + inner.take(k - 1));
        assert(inner.take(k).drop_last() =~= inner.take(k - 1));
        assert(s.last() == inner[k - 1]);
        assert(inner.take(k).last() == inner[k - 1]);
    }
}

/// The usage object is what stands behind the leftmost `"usage"` key, the next colon
/// and the white space after it, up to the brace that closes it, whatever follows.
pub proof fn law_usage_object_stands_behind_its_key(
    before: Seq<u8>,
    gap: Seq<u8>,
    gap2: Seq<u8>,
    object: Seq<u8>,
    after: Seq<u8>,
)
    requires
        forall|j: int|
            0 <= j < before.len() ==> (#[trigger] (before + scan::ascii("\"usage\"")).skip(
                j,
            )).take(7) != scan::ascii("\"usage\""),
        forall|i: int| 0 <= i < gap.len() ==> #[trigger] gap[i] != ':' as u8,
        forall|i: int|
            0 <= i < gap2.len() ==> (#[trigger] gap2[i] == ' ' as u8 || gap2[i] == '\t' as u8
                || gap2[i] == '\n' as u8 || gap2[i] == '\r' as u8),
        object.len() > 0,
        object[0] == '{' as u8,
        closes_at(object, object.len() as int),
    ensures
        usage_object(
            (before + scan::ascii("\"usage\"")) + (gap + (seq![':' as u8] + (gap2 + (object
                + after)))),
        ) == Some(object),
{
    let head = before + scan::ascii("\"usage\"");
    lemma_leftmost_usage(before, gap + (seq![':' as u8] + (gap2 + (object + after))));
    lemma_object_behind(head, gap, gap2, object, after);
}

proof fn lemma_leftmost_usage(before: Seq<u8>, rest: Seq<u8>)
    requires
        forall|j: int|
            0 <= j < before.len() ==> (#[trigger] (before + scan::ascii("\"usage\"")).skip(
                j,
            )).take(7) != scan::ascii("\"usage\""),
    ensures
        scan::find((before + scan::ascii("\"usage\"")) + rest, usage_key()) == Some(
            before.len() as int,
        ),
        scan::ascii("\"usage\"").len() == 7,
{
    reveal_strlit("\"usage\"");
    let key = scan::ascii("\"usage\"");
    let head = before + key;
    let k = before.len() as int;
    assert(head.subrange(k, k + 7) =~= key);
    assert forall|j: int| 0 <= j < k implies !scan::occurs_at(head, key, j) by {
        if scan::occurs_at(head, key, j) {
            assert(head.skip(j).take(7) =~= head.subrange(j, j + 7));
        }
    }
    assert(scan::first_at(head, key, k));
    scan::lemma_find_extend(head, rest, key, k);
}

proof fn lemma_first_byte(front: Seq<u8>, b: u8, rest: Seq<u8>)
    requires
        forall|i: int| 0 <= i < front.len() ==> #[trigger] front[i] != b,
    ensures
        scan::find(front + (seq![b] + rest), seq![b]) == Some(front.len() as int),
{
    let tail = seq![b] + rest;
    let s = front + tail;
    let n = front.len() as int;
    assert(s[n] == tail[0]);
    scan::lemma_occurs_one(s, b, n);
    assert forall|j: int| 0 <= j < n implies !scan::occurs_at(s, seq![b], j) by {
        scan::lemma_occurs_one(s, b, j);
        assert(s[j] == front[j]);
    }
    scan::lemma_find_first(s, seq![b], n);
}

proof fn lemma_white_gap(front: Seq<u8>, gap: Seq<u8>, rest: Seq<u8>)
    requires
        forall|k: int|
            0 <= k < gap.len() ==> (#[trigger] gap[k] == ' ' as u8 || gap[k] == '\t' as u8
                || gap[k] == '\n' as u8 || gap[k] == '\r' as u8),
        rest.len() > 0,
        !scan::is_space(rest[0]),
    ensures
        scan::past_space(front + (gap + rest), front.len() as int) == front.len() + gap.len(),
{
    let body = front + (gap + rest);
    let i = front.len() as int;
    scan::lemma_past_space(body, i);
    let p = scan::past_space(body, i);
    if p < i + gap.len() {
        assert(body[p] == gap[p - i]);
    } else if p > i + gap.len() {
        assert(body[i + gap.len()] == rest[0]);
    }
}

proof fn lemma_object_behind(
    head: Seq<u8>,
    gap: Seq<u8>,
    gap2: Seq<u8>,
    object: Seq<u8>,
    after: Seq<u8>,
)
    requires
        head.len() >= 7,
        scan::find(
            head + (gap + (seq![':' as u8] + (gap2 + (object + after)))),
            usage_key(),
        ) == Some(head.len() - 7),
        forall|i: int| 0 <= i < gap.len() ==> #[trigger] gap[i] != ':' as u8,
        forall|i: int|
            0 <= i < gap2.len() ==> (#[trigger] gap2[i] == ' ' as u8 || gap2[i] == '\t' as u8
                || gap2[i] == '\n' as u8 || gap2[i] == '\r' as u8),
        object.len() > 0,
        object[0] == '{' as u8,
        closes_at(object, object.len() as int),
    ensures
        usage_object(head + (gap + (seq![':' as u8] + (gap2 + (object + after))))) == Some(object),
{
    let rest = object + after;
    assert(rest[0] == object[0]);
    lemma_usage_at(head, gap, gap2, rest);
    lemma_leading(object, after);
}

/// What is looked at behind the key, the colon and the white space.
#[verifier::spinoff_prover]
proof fn lemma_usage_at(head: Seq<u8>, gap: Seq<u8>, gap2: Seq<u8>, rest: Seq<u8>)
    requires
        head.len() >= 7,
        scan::find(head + (gap + (seq![':' as u8] + (gap2 + rest))), usage_key()) == Some(
            head.len() - 7,
        ),
        forall|i: int| 0 <= i < gap.len() ==> #[trigger] gap[i] != ':' as u8,
        forall|i: int|
            0 <= i < gap2.len() ==> (#[trigger] gap2[i] == ' ' as u8 || gap2[i] == '\t' as u8
                || gap2[i] == '\n' as u8 || gap2[i] == '\r' as u8),
        rest.len() > 0,
        !scan::is_space(rest[0]),
    ensures
        usage_object(head + (gap + (seq![':' as u8] + (gap2 + rest)))) == leading_object(rest),
{
    let named = gap + (seq![':' as u8] + (gap2 + rest));
    let front = head + gap + seq![':' as u8];
    lemma_regrouped(head, gap, gap2, rest);
    lemma_first_byte(gap, ':' as u8, gap2 + rest);
    lemma_white_gap(front, gap2, rest);
    lemma_usage_steps(
        head + named,
        head.len() - 7,
        gap.len() as int,
        (front.len() + gap2.len()) as int,
    );
}

proof fn lemma_usage_steps(buf: Seq<u8>, k: int, n: int, start: int)
    requires
        scan::find(buf, usage_key()) == Some(k),
        scan::find(buf.skip(k + 7), seq![':' as u8]) == Some(n),
        scan::past_space(buf, k + 7 + n + 1) == start,
    ensures
        usage_object(buf) == leading_object(buf.skip(start)),
{
}

proof fn lemma_regrouped(head: Seq<u8>, gap: Seq<u8>, gap2: Seq<u8>, rest: Seq<u8>)
    ensures
        ({
            let named = gap + (seq![':' as u8] + (gap2 + rest));
            let front = head + gap + seq![':' as u8];
            &&& (head + named).skip(head.len() as int) == named
            &&& head + named == front + (gap2 + rest)
            &&& (head + named).skip((front.len() + gap2.len()) as int) == rest
        }),
{
    let named = gap + (seq![':' as u8] + (gap2 + rest));
    let front = head + gap + seq![':' as u8];
    assert((head + named).skip(head.len() as int) =~= named);
    assert(head + named =~= front + (gap2 + rest));
    assert((front + (gap2 + rest)).skip((front.len() + gap2.len()) as int) =~= rest);
}

proof fn lemma_leading(object: Seq<u8>, after: Seq<u8>)
    requires
        object.len() > 0,
        object[0] == '{' as u8,
        closes_at(object, object.len() as int),
    ensures
        leading_object(object + after) == Some(object),
{
    let s = object + after;
    let n = object.len() as int;
    assert(s.take(n) =~= object && object.take(n) =~= object);
    assert forall|k: int| 0 < k < n implies lex(#[trigger] s.take(k)).depth > 0 by {
        assert(s.take(k) =~= object.take(k));
    }
    assert(closes_at(s, n));
    let m = choose|m: int| closes_at(s, m);
    assert(closes_at(s, m));
    if m < n {
        assert(lex(s.take(m)).depth > 0);
    } else if n < m {
        assert(lex(s.take(n)).depth > 0);
    }
}

// Whole streams.

/// A line that begins with `data:`, white space and a payload.
proof fn lemma_data_line(gap: Seq<u8>, payload: Seq<u8>)
    requires
        forall|i: int|
            0 <= i < gap.len() ==> (#[trigger] gap[i] == ' ' as u8 || gap[i] == '\t' as u8),
        payload.len() > 0,
        !scan::is_space(payload[0]),
    ensures
        payload_of(scan::ascii("data:") + (gap + payload)) == Some(payload),
{
    reveal_strlit("data:");
    let tag = scan::ascii("data:");
    let line = tag + (gap + payload);
    assert(line.subrange(0, 5) =~= tag);
    assert(scan::first_at(line, data_tag(), 0));
    scan::lemma_find_first(line, data_tag(), 0);
    lemma_white_gap(tag, gap, payload);
    assert(line.skip((5 + gap.len()) as int) =~= payload);
}

/// A finished line is one line, and leaves nothing behind.
proof fn lemma_finished_line(line: Seq<u8>)
    requires
        forall|i: int| 0 <= i < line.len() ==> #[trigger] line[i] != '\n' as u8,
    ensures
        ({
            let chunk = line + seq!['\n' as u8];
            &&& first_line(chunk) == line
            &&& other_lines(chunk) == Seq::<u8>::empty()
            &&& payloads(chunk) == listed(payload_of(line))
            &&& ended(chunk) == terminates(line)
            &&& held_back(chunk) == Seq::<u8>::empty()
            &&& !terminates(line) ==> live(chunk) == chunk
            &&& terminates(line) ==> live(chunk) == Seq::<u8>::empty()
        }),
{
    let feed = seq!['\n' as u8];
    let chunk = line + feed;
    lemma_cut_line(line, feed);
    lemma_feed_alone();
    assert(line + Seq::<u8>::empty() =~= line);
    let none = other_lines(chunk);
    assert(payloads(none) =~= Seq::empty());
    assert(!ended(none));
    assert(listed(payload_of(line)) + payloads(none) =~= listed(payload_of(line)));
    assert(chunk.last() == '\n' as u8);
    if !terminates(line) {
        lemma_live_all(chunk);
    }
}

/// A `data:` line with a usage object is read as that object: its counts are taken over,
/// nothing is held back, and the stream goes on. An object that cannot be read changes
/// nothing.
pub proof fn law_data_line_is_read(
    st: ScannerState,
    gap: Seq<u8>,
    payload: Seq<u8>,
)
    requires
        !st.done,
        st.tail.len() == 0,
        forall|i: int|
            0 <= i < gap.len() ==> (#[trigger] gap[i] == ' ' as u8 || gap[i] == '\t' as u8),
        forall|i: int| 0 <= i < payload.len() ==> #[trigger] payload[i] != '\n' as u8,
        payload.len() > 0,
        !scan::is_space(payload[0]),
        usage_object(payload) is Some,
    ensures
        ({
            let chunk = scan::ascii("data:") + (gap + payload) + seq!['\n' as u8];
            let (now, r) = scanned(st, chunk);
            match absorbed(st.provider, st.usage, usage_object(payload)->0) {
                Some(v) => now == (ScannerState { usage: v, seen_any: true, ..st }) && r
                    == ScanResult::Found,
                None => now == st && r == ScanResult::Skip,
            }
        }),
{
    let line = scan::ascii("data:") + (gap + payload);
    let chunk = line + seq!['\n' as u8];
    lemma_data_chunk(gap, payload);
    lemma_keyed(payload);
    assert(payload_of(line) == Some(payload));
    lemma_key_goes_on(line);
    lemma_one_object(payload, chunk);
    lemma_absorbed_one(st.provider, st.usage, usage_object(payload)->0);
    lemma_scan_finished(st, chunk);
}

/// What a line with a payload comes to.
proof fn lemma_data_chunk(gap: Seq<u8>, payload: Seq<u8>)
    requires
        forall|i: int|
            0 <= i < gap.len() ==> (#[trigger] gap[i] == ' ' as u8 || gap[i] == '\t' as u8),
        forall|i: int| 0 <= i < payload.len() ==> #[trigger] payload[i] != '\n' as u8,
        payload.len() > 0,
        !scan::is_space(payload[0]),
    ensures
        ({
            let line = scan::ascii("data:") + (gap + payload);
            let chunk = line + seq!['\n' as u8];
            &&& payload_of(line) == Some(payload)
            &&& payloads(chunk) == seq![payload]
            &&& ended(chunk) == terminates(line)
            &&& held_back(chunk) == Seq::<u8>::empty()
            &&& !terminates(line) ==> live(chunk) == chunk
            &&& terminates(line) ==> live(chunk) == Seq::<u8>::empty()
        }),
{
    lemma_data_line(gap, payload);
    lemma_no_feed_in_line(gap, payload);
    lemma_finished_line(scan::ascii("data:") + (gap + payload));
}

proof fn lemma_no_feed_in_line(gap: Seq<u8>, payload: Seq<u8>)
    requires
        forall|i: int|
            0 <= i < gap.len() ==> (#[trigger] gap[i] == ' ' as u8 || gap[i] == '\t' as u8),
        forall|i: int| 0 <= i < payload.len() ==> #[trigger] payload[i] != '\n' as u8,
    ensures
        ({
            let line = scan::ascii("data:") + (gap + payload);
            forall|i: int| 0 <= i < line.len() ==> #[trigger] line[i] != '\n' as u8
        }),
{
    reveal_strlit("data:");
    let line = scan::ascii("data:") + (gap + payload);
    assert forall|i: int| 0 <= i < line.len() implies #[trigger] line[i] != '\n' as u8 by {
        if i >= 5 + gap.len() {
            assert(line[i] == payload[i - 5 - gap.len()]);
        } else if i >= 5 {
            assert(line[i] == gap[i - 5]);
        }
    }
}

proof fn lemma_one_object(payload: Seq<u8>, chunk: Seq<u8>)
    requires
        payloads(chunk) == seq![payload],
        usage_object(payload) is Some,
    ensures
        usage_objects(chunk) == seq![usage_object(payload)->0],
{
    lemma_any_usage_one(payload);
    lemma_objects_of_one(payload);
}

/// A chunk of finished lines that goes on leaves nothing behind.
proof fn lemma_scan_finished(st: ScannerState, chunk: Seq<u8>)
    requires
        !st.done,
        st.tail.len() == 0,
        !ended(chunk),
        live(chunk) == chunk,
        held_back(chunk).len() == 0,
    ensures
        scanned(st, chunk) == scan_of(st, usage_objects(chunk), st.tail, false),
{
    assert(st.tail + chunk =~= chunk);
    assert(st.tail =~= held_back(chunk));
}

proof fn lemma_absorbed_one(kind: ProviderKind, u: Usage, o: Seq<u8>)
    ensures
        absorbed_all(kind, u, seq![o]) == match absorbed(kind, u, o) {
            Some(v) => (v, true),
            None => (u, false),
        },
{
    assert(seq![o].drop_last() =~= Seq::empty());
    assert(absorbed_all(kind, u, seq![o].drop_last()) == (u, false));
}

/// A body that is no event stream is read as one JSON text: its usage object is taken
/// over, in whatever white space it stands.
pub proof fn law_plain_body_is_read(st: ScannerState, body: Seq<u8>)
    requires
        !st.done,
        st.tail.len() == 0,
        forall|j: int|
            0 <= j <= body.len() - 5 ==> (#[trigger] body.skip(j)).take(5) != scan::ascii("data:"),
        usage_object(body) is Some,
    ensures
        ({
            let (now, r) = scanned(st, body);
            match absorbed(st.provider, st.usage, usage_object(body)->0) {
                Some(v) => now == (ScannerState { usage: v, seen_any: true, ..st }) && r
                    == ScanResult::Found,
                None => now == st && r == ScanResult::Skip,
            }
        }),
{
    reveal_strlit("data:");
    assert(!scan::occurs(body, data_tag())) by {
        if scan::occurs(body, data_tag()) {
            let j = choose|j: int| scan::occurs_at(body, data_tag(), j);
            assert(body.skip(j).take(5) =~= body.subrange(j, j + 5));
        }
    }
    lemma_no_tag(body);
    lemma_live_all(body);
    assert(st.tail + body =~= body);
    assert(st.tail =~= Seq::<u8>::empty());
    lemma_last_line_shape(body);
    if scan::occurs(last_line(body), data_tag()) {
        let n = body.len() - last_line(body).len();
        assert(last_line(body) =~= body.subrange(n, body.len() as int));
        lemma_occurs_piece(body, n, body.len() as int, data_tag());
    }
    lemma_absorbed_one(st.provider, st.usage, usage_object(body)->0);
    assert(usage_objects(body) == seq![usage_object(body)->0]);
}

/// Without the field name there are no payloads and there is no terminator.
proof fn lemma_no_tag(s: Seq<u8>)
    requires
        !scan::occurs(s, data_tag()),
    ensures
        payloads(s) == Seq::<Seq<u8>>::empty(),
        !ended(s),
        !any_usage(payloads(s)),
    decreases s.len(),
{
    if s.len() > 0 {
        lemma_no_feed_in_marks();
        lemma_first_line(s);
        lemma_occurs_lines(s, data_tag());
        lemma_no_tag(other_lines(s));
        scan::lemma_find(first_line(s), data_tag());
        assert(payloads(s) =~= Seq::<Seq<u8>>::empty());
    }
}

/// Whole lines without the `"usage"` key and without the terminator change nothing.
pub proof fn law_lines_without_usage_change_nothing(st: ScannerState, chunk: Seq<u8>)
    requires
        !st.done,
        st.tail.len() == 0,
        chunk.len() > 0 ==> chunk.last() == '\n' as u8,
        forall|j: int|
            0 <= j <= chunk.len() - 7 ==> (#[trigger] chunk.skip(j)).take(7) != scan::ascii(
                "\"usage\"",
            ),
        forall|j: int|
            0 <= j <= chunk.len() - 6 ==> (#[trigger] chunk.skip(j)).take(6) != scan::ascii(
                "[DONE]",
            ),
    ensures
        scanned(st, chunk) == (st, ScanResult::Skip),
{
    reveal_strlit("\"usage\"");
    reveal_strlit("[DONE]");
    if scan::occurs(chunk, usage_key()) {
        let j = choose|j: int| scan::occurs_at(chunk, usage_key(), j);
        assert(chunk.skip(j).take(7) =~= chunk.subrange(j, j + 7));
    }
    if scan::occurs(chunk, done_mark()) {
        let j = choose|j: int| scan::occurs_at(chunk, done_mark(), j);
        assert(chunk.skip(j).take(6) =~= chunk.subrange(j, j + 6));
    }
    lemma_not_ended(chunk);
    lemma_live_all(chunk);
    lemma_no_key_no_objects(chunk);
    assert(st.tail + chunk =~= chunk);
    assert(st.tail =~= Seq::<u8>::empty());
    assert(held_back(chunk) =~= Seq::<u8>::empty()) by {
        assert(last_line(chunk) =~= Seq::<u8>::empty());
    }
}

/// The line `data: [DONE]` ends the stream, with white space around the mark or
/// without, and nothing that follows it in the chunk counts.
pub proof fn law_done_line_ends_the_stream(
    st: ScannerState,
    gap: Seq<u8>,
    end: Seq<u8>,
    after: Seq<u8>,
)
    requires
        !st.done,
        st.tail.len() == 0,
        forall|i: int|
            0 <= i < gap.len() ==> (#[trigger] gap[i] == ' ' as u8 || gap[i] == '\t' as u8),
        forall|i: int|
            0 <= i < end.len() ==> (#[trigger] end[i] == ' ' as u8 || end[i] == '\r' as u8),
    ensures
        ({
            let line = scan::ascii("data:") + (gap + (scan::ascii("[DONE]") + end));
            scanned(st, (line + seq!['\n' as u8]) + after) == (
                ScannerState { done: true, ..st },
                ScanResult::Done,
            )
        }),
{
    reveal_strlit("data:");
    reveal_strlit("[DONE]");
    let mark = scan::ascii("[DONE]");
    let payload = mark + end;
    let line = scan::ascii("data:") + (gap + payload);
    let first = line + seq!['\n' as u8];
    assert forall|i: int| 0 <= i < line.len() implies #[trigger] line[i] != '\n' as u8 by {
        if i >= 5 + gap.len() + 6 {
            assert(line[i] == end[i - 5 - gap.len() - 6]);
        } else if i >= 5 + gap.len() {
            assert(line[i] == mark[i - 5 - gap.len()]);
        } else if i >= 5 {
            assert(line[i] == gap[i - 5]);
        }
    }
    assert(payload[0] == '[' as u8);
    lemma_data_line(gap, payload);
    lemma_mark_alone(end);
    lemma_finished_line(line);
    lemma_live_join(first, after);
    assert(st.tail + (first + after) =~= first + after);
    assert(st.tail =~= Seq::<u8>::empty());
    lemma_no_feed_in_marks();
    lemma_no_key_no_objects(Seq::<u8>::empty());
}

proof fn lemma_mark_alone(end: Seq<u8>)
    requires
        forall|i: int|
            0 <= i < end.len() ==> (#[trigger] end[i] == ' ' as u8 || end[i] == '\r' as u8),
    ensures
        without_end_space(scan::ascii("[DONE]") + end) == done_mark(),
    decreases end.len(),
{
    reveal_strlit("[DONE]");
    let s = done_mark() + end;
    if end.len() > 0 {
        assert(s.last() == end.last());
        assert(end[end.len() - 1] == end.last());
        assert(s.drop_last() =~= done_mark() + end.drop_last());
        lemma_mark_alone(end.drop_last());
    } else {
        assert(s =~= done_mark());
        assert(s.last() == ']' as u8);
    }
}

/// A line whose payload does not begin with the mark does not end the stream, though it
/// may hold the mark.
pub proof fn law_only_the_mark_ends_the_stream(
    st: ScannerState,
    gap: Seq<u8>,
    payload: Seq<u8>,
)
    requires
        !st.done,
        st.tail.len() == 0,
        forall|i: int|
            0 <= i < gap.len() ==> (#[trigger] gap[i] == ' ' as u8 || gap[i] == '\t' as u8),
        forall|i: int| 0 <= i < payload.len() ==> #[trigger] payload[i] != '\n' as u8,
        payload.len() > 0,
        !scan::is_space(payload[0]),
        payload[0] != '[' as u8,
    ensures
        ({
            let chunk = scan::ascii("data:") + (gap + payload) + seq!['\n' as u8];
            !scanned(st, chunk).0.done && scanned(st, chunk).1 != ScanResult::Done
        }),
{
    let line = scan::ascii("data:") + (gap + payload);
    lemma_data_chunk(gap, payload);
    lemma_other_payload(line, payload);
    let chunk = line + seq!['\n' as u8];
    lemma_scan_finished(st, chunk);
}

proof fn lemma_other_payload(line: Seq<u8>, payload: Seq<u8>)
    requires
        payload_of(line) == Some(payload),
        payload.len() > 0,
        payload[0] != '[' as u8,
    ensures
        !terminates(line),
{
    reveal_strlit("[DONE]");
    lemma_without_end_space(payload);
    if terminates(line) {
        assert(done_mark()[0] == '[' as u8);
        assert(without_end_space(payload)[0] == payload[0]);
    }
}

proof fn lemma_tagged_one(line: Seq<u8>)
    requires
        forall|i: int| 0 <= i < line.len() ==> #[trigger] line[i] != '\n' as u8,
        line.len() >= 5,
        line.take(5) == scan::ascii("data:"),
    ensures
        tagged(line + seq!['\n' as u8]),
{
    reveal_strlit("data:");
    lemma_finished_line(line);
    let chunk = line + seq!['\n' as u8];
    assert(line.subrange(0, 5) =~= line.take(5));
    assert(scan::occurs_at(line, data_tag(), 0));
    assert(tagged(other_lines(chunk)));
}

/// Two `data:` lines come to the same in one chunk or in two.
pub proof fn law_two_lines_in_one_chunk_or_two(st: ScannerState, a: Seq<u8>, b: Seq<u8>)
    requires
        st.tail.len() == 0,
        forall|i: int| 0 <= i < a.len() ==> #[trigger] a[i] != '\n' as u8,
        forall|i: int| 0 <= i < b.len() ==> #[trigger] b[i] != '\n' as u8,
        a.len() >= 5 && a.take(5) == scan::ascii("data:"),
        b.len() >= 5 && b.take(5) == scan::ascii("data:"),
    ensures
        ({
            let x = a + seq!['\n' as u8];
            let y = b + seq!['\n' as u8];
            scanned(st, x + y).0 == scanned(scanned(st, x).0, y).0
        }),
{
    lemma_tagged_one(a);
    lemma_tagged_one(b);
    law_whole_lines(st, a + seq!['\n' as u8], b + seq!['\n' as u8]);
}

/// A `data:` line may be cut anywhere behind its field name and before the first brace
/// that closes: the two parts come to what the whole line does.
pub proof fn law_cut_line_is_put_together(st: ScannerState, a: Seq<u8>, b: Seq<u8>)
    requires
        !st.done,
        st.tail.len() == 0,
        a.len() >= 5 && a.take(5) == scan::ascii("data:"),
        forall|i: int|
            0 <= i < a.len() ==> #[trigger] a[i] != '\n' as u8 && a[i] != '}' as u8 && a[i]
                != ']' as u8,
        forall|i: int| 0 <= i < b.len() ==> #[trigger] b[i] != '\n' as u8,
    ensures
        scanned(scanned(st, a).0, b + seq!['\n' as u8]).0 == scanned(
            st,
            a + b + seq!['\n' as u8],
        ).0,
{
    reveal_strlit("data:");
    let y = b + seq!['\n' as u8];
    let buf = st.tail + a;
    assert(buf =~= a);
    lemma_one_line(a);
    let cut = last_line(buf);
    let lines = buf.take(buf.len() - cut.len());
    assert(lines =~= Seq::<u8>::empty());
    assert(a.subrange(0, 5) =~= a.take(5));
    assert(scan::occurs_at(a, data_tag(), 0));
    lemma_open_object(a);
    lemma_open_payload(a);
    let line = a + b;
    assert forall|i: int| 0 <= i < line.len() implies #[trigger] line[i] != '\n' as u8 by {
        if i < a.len() {
            assert(line[i] == a[i]);
        } else {
            assert(line[i] == b[i - a.len()]);
        }
    }
    assert(line.take(5) =~= a.take(5));
    lemma_tagged_one(line);
    assert(a + y =~= line + seq!['\n' as u8]);
    assert(a + b + seq!['\n' as u8] =~= a + y);
    lemma_tagged_live(a + y);
    lemma_tagged_cut(a);
    lemma_tagged_is_framed(a);
    lemma_no_feed_in_marks();
    lemma_no_key_no_objects(Seq::<u8>::empty());
    assert(!ended(lines));
    assert(framed(lines));
    law_chunking(st, a, y);
}

proof fn lemma_tagged_cut(a: Seq<u8>)
    requires
        forall|i: int| 0 <= i < a.len() ==> a[i] != '\n' as u8,
        scan::occurs_at(a, data_tag(), 0),
    ensures
        tagged(a),
{
    lemma_one_line(a);
    assert(tagged(other_lines(a)));
}

/// Without a closing brace there is no complete object.
proof fn lemma_open_object(s: Seq<u8>)
    requires
        forall|i: int| 0 <= i < s.len() ==> #[trigger] s[i] != '}' as u8,
    ensures
        usage_object(s) is None,
{
    if usage_object(s) is Some {
        reveal_strlit("\"usage\"");
        scan::lemma_find(s, usage_key());
        let key = scan::find(s, usage_key())->0;
        scan::lemma_find_one(s.skip(key + 7), ':' as u8);
        let n = scan::find(s.skip(key + 7), seq![':' as u8])->0;
        scan::lemma_past_space(s, key + 7 + n + 1);
        let rest = s.skip(scan::past_space(s, key + 7 + n + 1));
        let k = choose|k: int| closes_at(rest, k);
        assert(closes_at(rest, k));
        assert forall|i: int| 0 <= i < rest.len() implies #[trigger] rest[i] != '}' as u8 by {
            assert(rest[i] == s[scan::past_space(s, key + 7 + n + 1) + i]);
        }
        lemma_open_lex(rest, k);
    }
}

proof fn lemma_open_lex(s: Seq<u8>, k: int)
    requires
        0 < k <= s.len(),
        s[0] == '{' as u8,
        forall|i: int| 0 <= i < s.len() ==> #[trigger] s[i] != '}' as u8,
    ensures
        lex(s.take(k)).depth > 0,
    decreases k,
{
    let t = s.take(k);
    assert(t.last() == s[k - 1]);
    if k == 1 {
        assert(t.drop_last() =~= Seq::empty());
        assert(lex(t.drop_last()) == (Lex { depth: 0, in_string: false, escaped: false }));
    } else {
        assert(t.drop_last() =~= s.take(k - 1));
        lemma_open_lex(s, k - 1);
    }
}

/// An unfinished line without a closing brace or bracket holds no object and is not
/// the terminator.
proof fn lemma_open_payload(a: Seq<u8>)
    requires
        forall|i: int|
            0 <= i < a.len() ==> #[trigger] a[i] != '\n' as u8 && a[i] != '}' as u8 && a[i]
                != ']' as u8,
    ensures
        !terminates(a),
        usage_objects(a).len() == 0,
{
    reveal_strlit("[DONE]");
    lemma_one_line(a);
    lemma_open_object(a);
    if payload_of(a) is Some {
        let p = payload_of(a)->0;
        lemma_payload_start(a);
        let start = scan::past_space(a, scan::find(a, data_tag())->0 + 5);
        assert forall|i: int| 0 <= i < p.len() implies #[trigger] p[i] != '}' as u8 && p[i]
            != ']' as u8 by {
            assert(p[i] == a[start + i]);
        }
        lemma_open_object(p);
        lemma_objects_of_one(p);
        lemma_without_end_space(p);
        if terminates(a) {
            assert(done_mark()[5] == ']' as u8);
            assert(without_end_space(p)[5] == p[5]);
        }
        assert(payloads(a) == seq![p]);
    } else {
        assert(payloads(a) =~= Seq::empty());
    }
}

/// The `data:` field need not stand at the beginning of its line: what stands before the
/// leftmost one makes no difference.
pub proof fn law_what_stands_before_the_field(front: Seq<u8>, rest: Seq<u8>)
    requires
        forall|j: int|
            0 <= j < front.len() ==> (#[trigger] (front + scan::ascii("data:")).skip(j)).take(5)
                != scan::ascii("data:"),
    ensures
        payload_of(front + (scan::ascii("data:") + rest)) == payload_of(
            scan::ascii("data:") + rest,
        ),
        payload_of(scan::ascii("data:") + rest) is Some,
        terminates(front + (scan::ascii("data:") + rest)) == terminates(
            scan::ascii("data:") + rest,
        ),
{
    lemma_field_at(front, rest);
    assert forall|j: int| 0 <= j < Seq::<u8>::empty().len() implies (#[trigger] (
    Seq::<u8>::empty() + scan::ascii("data:")).skip(j)).take(5) != scan::ascii("data:") by {
    }
    lemma_field_at(Seq::empty(), rest);
    assert(Seq::<u8>::empty() + (scan::ascii("data:") + rest) =~= scan::ascii("data:") + rest);
}

proof fn lemma_field_at(front: Seq<u8>, rest: Seq<u8>)
    requires
        forall|j: int|
            0 <= j < front.len() ==> (#[trigger] (front + scan::ascii("data:")).skip(j)).take(5)
                != scan::ascii("data:"),
    ensures
        payload_of(front + (scan::ascii("data:") + rest)) == Some(
            rest.skip(scan::past_space(rest, 0)),
        ),
{
    reveal_strlit("data:");
    let tag = scan::ascii("data:");
    let head = front + tag;
    let k = front.len() as int;
    assert(head.subrange(k, k + 5) =~= tag);
    assert forall|j: int| 0 <= j < k implies !scan::occurs_at(head, tag, j) by {
        if scan::occurs_at(head, tag, j) {
            assert(head.skip(j).take(5) =~= head.subrange(j, j + 5));
        }
    }
    assert(scan::first_at(head, tag, k));
    scan::lemma_find_extend(head, rest, tag, k);
    let line = front + (tag + rest);
    assert(line =~= head + rest);
    lemma_space_behind(head, rest, 0);
    scan::lemma_past_space(rest, 0);
    assert(line.skip(k + 5 + scan::past_space(rest, 0)) =~= rest.skip(scan::past_space(rest, 0)));
}

proof fn lemma_space_behind(head: Seq<u8>, rest: Seq<u8>, i: int)
    requires
        0 <= i <= rest.len(),
    ensures
        scan::past_space(head + rest, head.len() + i) == head.len() + scan::past_space(rest, i),
    decreases rest.len() - i,
{
    let s = head + rest;
    if i < rest.len() {
        assert(s[head.len() + i] == rest[i]);
        if scan::is_space(rest[i]) {
            lemma_space_behind(head, rest, i + 1);
        }
    }
}

/// Details of prompt tokens may also be a list or `null`. A list of one count is that
/// count; an empty list, `null` and a list of one `null` give none, so that the object's
/// own `cached_tokens` counts; anything else spoils the whole object.
pub proof fn law_openai_details_in_other_forms(
    kind: ProviderKind,
    u: Usage,
    text: Seq<u8>,
    details: Seq<u8>,
)
    requires
        kind is OpenAi || kind is Generic,
        json::object_members(text) is Some,
        json::only(json::object_members(text)->0, "prompt_tokens_details"@) == Some(Some(details)),
        json::object_members(details) is None,
    ensures
        ({
            let m = json::object_members(text)->0;
            let own = json::count_member(m, "cached_tokens"@);
            let v = absorbed(kind, u, text);
            match json::json_counts(details) {
                Some(c) => {
                    &&& c.len() == 0 ==> (v is Some ==> Some((v->0).cached_tokens) == own)
                    &&& c.len() == 1 && c[0] is None ==> (v is Some ==> Some(
                        (v->0).cached_tokens,
                    ) == own)
                    &&& c.len() == 1 && c[0] is Some ==> (v is Some ==> (v->0).cached_tokens
                        == c[0])
                    &&& c.len() > 1 ==> v is None
                },
                None => if json::json_count(details) == Some(None::<u64>) {
                    v is Some ==> Some((v->0).cached_tokens) == own
                } else {
                    v is None
                },
            }
        }),
{
}

/// With details, too, an OpenAI-compatible usage object is read wherever each of its
/// counts is one, and it is not read where a member with a meaning is given twice.
pub proof fn law_openai_object_with_details_is_read(
    kind: ProviderKind,
    u: Usage,
    text: Seq<u8>,
    details: Seq<u8>,
)
    requires
        kind is OpenAi || kind is Generic,
        json::object_members(text) is Some,
    ensures
        ({
            let m = json::object_members(text)->0;
            let counts = {
                &&& json::count_member(m, "prompt_tokens"@) is Some
                &&& json::count_member(m, "completion_tokens"@) is Some
                &&& json::count_member(m, "input_tokens"@) is Some
                &&& json::count_member(m, "output_tokens"@) is Some
                &&& json::count_member(m, "cached_tokens"@) is Some
            };
            let found = json::only(m, "prompt_tokens_details"@);
            let list = json::json_counts(details);
            &&& found is None ==> absorbed(kind, u, text) is None
            &&& found == Some(Some(details)) ==> (absorbed(kind, u, text) is Some <==> counts && (
            if json::object_members(details) is Some {
                json::count_member(json::object_members(details)->0, "cached_tokens"@) is Some
            } else if list is Some {
                (list->0).len() <= 1
            } else {
                json::json_count(details) == Some(None::<u64>)
            }))
        }),
{
}

/// No usage object is found where no colon follows the leftmost key, where something
/// else than a brace follows the colon, or where no brace closes. No later key is looked
/// for.
pub proof fn law_only_an_object_is_a_usage_object(
    before: Seq<u8>,
    gap: Seq<u8>,
    gap2: Seq<u8>,
    rest: Seq<u8>,
)
    requires
        forall|j: int|
            0 <= j < before.len() ==> (#[trigger] (before + scan::ascii("\"usage\"")).skip(
                j,
            )).take(7) != scan::ascii("\"usage\""),
        forall|i: int| 0 <= i < gap.len() ==> #[trigger] gap[i] != ':' as u8,
        forall|i: int|
            0 <= i < gap2.len() ==> (#[trigger] gap2[i] == ' ' as u8 || gap2[i] == '\t' as u8
                || gap2[i] == '\n' as u8 || gap2[i] == '\r' as u8),
        rest.len() > 0,
        !scan::is_space(rest[0]),
    ensures
        usage_object((before + scan::ascii("\"usage\"")) + gap) is None,
        rest[0] != '{' as u8 ==> usage_object(
            (before + scan::ascii("\"usage\"")) + (gap + (seq![':' as u8] + (gap2 + rest))),
        ) is None,
        (forall|i: int| 0 <= i < rest.len() ==> rest[i] != '}' as u8) ==> usage_object(
            (before + scan::ascii("\"usage\"")) + (gap + (seq![':' as u8] + (gap2 + rest))),
        ) is None,
{
    let head = before + scan::ascii("\"usage\"");
    lemma_no_colon(before, gap);
    lemma_leftmost_usage(before, gap + (seq![':' as u8] + (gap2 + rest)));
    lemma_usage_at(head, gap, gap2, rest);
    lemma_never_closes(rest);
}

proof fn lemma_no_colon(before: Seq<u8>, gap: Seq<u8>)
    requires
        forall|j: int|
            0 <= j < before.len() ==> (#[trigger] (before + scan::ascii("\"usage\"")).skip(
                j,
            )).take(7) != scan::ascii("\"usage\""),
        forall|i: int| 0 <= i < gap.len() ==> #[trigger] gap[i] != ':' as u8,
    ensures
        usage_object((before + scan::ascii("\"usage\"")) + gap) is None,
{
    let head = before + scan::ascii("\"usage\"");
    lemma_leftmost_usage(before, gap);
    assert((head + gap).skip(head.len() as int) =~= gap);
    scan::lemma_find_one(gap, ':' as u8);
}

proof fn lemma_never_closes(rest: Seq<u8>)
    requires
        rest.len() > 0,
    ensures
        (forall|i: int| 0 <= i < rest.len() ==> rest[i] != '}' as u8) ==> leading_object(
            rest,
        ) is None,
{
    if (forall|i: int| 0 <= i < rest.len() ==> rest[i] != '}' as u8) && leading_object(
        rest,
    ) is Some {
        let n = choose|n: int| closes_at(rest, n);
        assert(closes_at(rest, n));
        lemma_open_lex(rest, n);
    }
}

/// A text none of whose `data:` fields holds the key is read as one JSON text, though
/// it may hold such fields: its usage object is the one of the whole text.
pub proof fn law_text_is_read_where_no_field_holds_the_key(buf: Seq<u8>)
    requires
        forall|i: int, j: int|
            0 <= i < payloads(buf).len() && 0 <= j <= payloads(buf)[i].len() - 7 ==> (
            #[trigger] payloads(buf)[i].skip(j)).take(7) != scan::ascii("\"usage\""),
    ensures
        usage_object(buf) is Some ==> usage_objects(buf) == seq![usage_object(buf)->0],
        usage_object(buf) is None ==> usage_objects(buf) == Seq::<Seq<u8>>::empty(),
{
    reveal_strlit("\"usage\"");
    let ps = payloads(buf);
    if any_usage(ps) {
        let i = choose|i: int| 0 <= i < ps.len() && scan::occurs(#[trigger] ps[i], usage_key());
        let j = choose|j: int| scan::occurs_at(ps[i], usage_key(), j);
        assert(ps[i].skip(j).take(7) =~= ps[i].subrange(j, j + 7));
    }
}

/// A text with a `data:` field that holds the key is read field by field: each field
/// gives its own usage object, in order, and the rest of the text gives none.
pub proof fn law_fields_are_read_one_by_one(buf: Seq<u8>, i: int, j: int)
    requires
        0 <= i < payloads(buf).len(),
        0 <= j <= payloads(buf)[i].len() - 7,
        payloads(buf)[i].skip(j).take(7) == scan::ascii("\"usage\""),
    ensures
        usage_objects(buf) == payloads(buf).filter(
            |p: Seq<u8>| usage_object(p) is Some,
        ).map_values(|p: Seq<u8>| usage_object(p)->0),
{
    reveal_strlit("\"usage\"");
    let ps = payloads(buf);
    assert(ps[i].subrange(j, j + 7) =~= ps[i].skip(j).take(7));
    assert(scan::occurs_at(ps[i], usage_key(), j));
    assert(scan::occurs(ps[i], usage_key()));
    lemma_objects_filtered(ps);
}

proof fn lemma_objects_filtered(ps: Seq<Seq<u8>>)
    ensures
        objects_of(ps) == ps.filter(|p: Seq<u8>| usage_object(p) is Some).map_values(
            |p: Seq<u8>| usage_object(p)->0,
        ),
    decreases ps.len(),
{
    reveal(Seq::filter);
    let has = |p: Seq<u8>| usage_object(p) is Some;
    let object = |p: Seq<u8>| usage_object(p)->0;
    if ps.len() == 0 {
        assert(objects_of(ps) =~= ps.filter(has).map_values(object));
    } else {
        let less = ps.drop_last();
        let last = ps.last();
        lemma_objects_filtered(less);
        assert(ps =~= less + seq![last]);
        lemma_objects_join(less, seq![last]);
        lemma_objects_of_one(last);
        assert(objects_of(seq![last]) =~= listed(usage_object(last)));
        assert(ps.filter(has) == if has(last) {
            less.filter(has).push(last)
        } else {
            less.filter(has)
        });
        assert(objects_of(ps) =~= ps.filter(has).map_values(object));
    }
}

/// The mark also ends the stream where its line is the last one and not yet finished.
pub proof fn law_unfinished_done_line_ends_the_stream(
    st: ScannerState,
    gap: Seq<u8>,
    end: Seq<u8>,
)
    requires
        !st.done,
        st.tail.len() == 0,
        forall|i: int|
            0 <= i < gap.len() ==> (#[trigger] gap[i] == ' ' as u8 || gap[i] == '\t' as u8),
        forall|i: int|
            0 <= i < end.len() ==> (#[trigger] end[i] == ' ' as u8 || end[i] == '\r' as u8),
    ensures
        scanned(st, scan::ascii("data:") + (gap + (scan::ascii("[DONE]") + end))) == (
            ScannerState { done: true, ..st },
            ScanResult::Done,
        ),
{
    let payload = scan::ascii("[DONE]") + end;
    let line = scan::ascii("data:") + (gap + payload);
    lemma_mark_line(gap, end);
    lemma_one_line(line);
    assert(st.tail + line =~= line);
    assert(st.tail =~= Seq::<u8>::empty());
    lemma_no_feed_in_marks();
    lemma_no_key_no_objects(Seq::<u8>::empty());
    assert(usage_objects(Seq::<u8>::empty()) =~= Seq::empty());
}

proof fn lemma_mark_line(gap: Seq<u8>, end: Seq<u8>)
    requires
        forall|i: int|
            0 <= i < gap.len() ==> (#[trigger] gap[i] == ' ' as u8 || gap[i] == '\t' as u8),
        forall|i: int|
            0 <= i < end.len() ==> (#[trigger] end[i] == ' ' as u8 || end[i] == '\r' as u8),
    ensures
        ({
            let line = scan::ascii("data:") + (gap + (scan::ascii("[DONE]") + end));
            &&& terminates(line)
            &&& forall|i: int| 0 <= i < line.len() ==> #[trigger] line[i] != '\n' as u8
            &&& line.len() > 0
        }),
{
    reveal_strlit("[DONE]");
    reveal_strlit("data:");
    let mark = scan::ascii("[DONE]");
    let payload = mark + end;
    assert forall|i: int| 0 <= i < payload.len() implies #[trigger] payload[i] != '\n' as u8 by {
        if i >= 6 {
            assert(payload[i] == end[i - 6]);
        } else {
            assert(payload[i] == mark[i]);
        }
    }
    assert(payload[0] == mark[0]);
    lemma_data_line(gap, payload);
    lemma_mark_alone(end);
    lemma_no_feed_in_line(gap, payload);
}

/// Lines are read one after another.
pub proof fn law_lines_are_read_in_order(line: Seq<u8>, rest: Seq<u8>)
    requires
        forall|i: int| 0 <= i < line.len() ==> #[trigger] line[i] != '\n' as u8,
    ensures
        ({
            let s = (line + seq!['\n' as u8]) + rest;
            &&& payloads(s) == match payload_of(line) {
                Some(p) => seq![p] + payloads(rest),
                None => payloads(rest),
            }
            &&& ended(s) == (terminates(line) || ended(rest))
            &&& !terminates(line) ==> live(s) == line + seq!['\n' as u8] + live(rest)
            &&& terminates(line) ==> live(s) == Seq::<u8>::empty()
        }),
{
    let feed = seq!['\n' as u8] + rest;
    let s = (line + seq!['\n' as u8]) + rest;
    assert(s =~= line + feed);
    scan::lemma_find_one(s, '\n' as u8);
    let n = line.len() as int;
    assert(s[n] == '\n' as u8);
    if line_end(s) < n {
        assert(s[line_end(s)] == line[line_end(s)]);
    }
    assert(line_end(s) == n);
    assert(first_line(s) =~= line);
    assert(first_feed(s) =~= line + seq!['\n' as u8]);
    assert(other_lines(s) =~= rest);
    assert(Seq::<Seq<u8>>::empty() + payloads(rest) =~= payloads(rest));
}

} // verus!
