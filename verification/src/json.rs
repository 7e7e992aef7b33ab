//! Reading the members of a small JSON object.
//!
//! `serde_json` reads the values; what it gives for a text is named here and not
//! written out. How the values stand in an object is said here: members between
//! braces, separated by commas, each a name and a value around a colon.

use vstd::prelude::*;
use vstd::slice::slice_subrange;

use crate::text;

verus! {

/// How many bytes the JSON value at the beginning of `text` takes, white space
/// before it included, or `None` where no value stands there: how far
/// `serde_json` gets when it skips one value.
pub uninterp spec fn json_value_len(text: Seq<u8>) -> Option<nat>;

/// The string that `text` holds, or `None` where it holds none: what
/// `serde_json::from_slice` gives as a `String`.
pub uninterp spec fn json_text(text: Seq<u8>) -> Option<Seq<char>>;

/// The number that `text` holds, `Some(None)` where it holds `null`, or `None`
/// where it holds neither: what `serde_json::from_slice` gives as an
/// `Option<u64>`.
pub uninterp spec fn json_count(text: Seq<u8>) -> Option<Option<u64>>;

/// The items of the JSON array that `text` holds, each a number or `null`, or
/// `None` where it holds no such array: what `serde_json::from_slice` gives as a
/// `Vec` of `Option<u64>`.
pub uninterp spec fn json_counts(text: Seq<u8>) -> Option<Seq<Option<u64>>>;

/// Calls `serde_json::StreamDeserializer::next` for a value to be ignored, and
/// then `byte_offset`. The result is what [`json_value_len`] names: at least one
/// byte, and no more than there are.
#[verifier::external_body]
fn skip_value(text: &[u8]) -> (r: Option<usize>)
    ensures
        match (r, json_value_len(text@)) {
            (Some(n), Some(m)) => n == m && 0 < n <= text@.len(),
            (None, None) => true,
            _ => false,
        },
{
    let mut values = serde_json::Deserializer::from_slice(text).into_iter::<
        serde::de::IgnoredAny,
    >();
    match values.next() {
        Some(Ok(_)) => Some(values.byte_offset()),
        _ => None,
    }
}

/// Calls `serde_json::from_slice` for a string. The result is what [`json_text`]
/// names.
#[verifier::external_body]
fn parse_text(text: &[u8]) -> (r: Option<String>)
    ensures
        match (r, json_text(text@)) {
            (Some(s), Some(t)) => s@ == t,
            (None, None) => true,
            _ => false,
        },
{
    serde_json::from_slice::<String>(text).ok()
}

/// Calls `serde_json::from_slice` for an optional number. The result is what
/// [`json_count`] names.
#[verifier::external_body]
pub(crate) fn parse_count(text: &[u8]) -> (r: Option<Option<u64>>)
    ensures
        r == json_count(text@),
{
    serde_json::from_slice::<Option<u64>>(text).ok()
}

/// Calls `serde_json::from_slice` for a list of optional numbers. The result is
/// what [`json_counts`] names.
#[verifier::external_body]
pub(crate) fn parse_counts(text: &[u8]) -> (r: Option<Vec<Option<u64>>>)
    ensures
        match (r, json_counts(text@)) {
            (Some(v), Some(c)) => v@ == c,
            (None, None) => true,
            _ => false,
        },
{
    serde_json::from_slice::<Vec<Option<u64>>>(text).ok()
}

/// Space, tab, line feed, carriage return.
pub open spec fn is_blank(b: u8) -> bool {
    b == 0x20 || b == 0x09 || b == 0x0a || b == 0x0d
}

/// The first position at or after `i` that holds no blank, or the end.
pub open spec fn past_blank(s: Seq<u8>, i: int) -> int
    decreases s.len() - i,
{
    if 0 <= i < s.len() && is_blank(s[i]) {
        past_blank(s, i + 1)
    } else {
        i
    }
}

/// `c` stands at position `i`.
pub open spec fn stands(s: Seq<u8>, i: int, c: char) -> bool {
    0 <= i < s.len() && s[i] == c as u8
}

/// The end of the value that begins at `i`, blanks before it included.
pub open spec fn value_end(s: Seq<u8>, i: int) -> Option<int> {
    if 0 <= i <= s.len() {
        match json_value_len(s.skip(i)) {
            Some(n) => if 0 < n <= s.len() - i {
                Some(i + n)
            } else {
                None
            },
            None => None,
        }
    } else {
        None
    }
}

/// The members that stand from `i` on, up to the brace that closes the object at
/// the end of `s`. Each is a name and the text of its value.
pub open spec fn members_at(s: Seq<u8>, i: int) -> Option<Seq<(Seq<char>, Seq<u8>)>>
    decreases s.len() - i,
{
    if !stands(s, i, '"') {
        None
    } else {
        match value_end(s, i) {
            None => None,
            Some(k) => {
                let c = past_blank(s, k);
                match (json_text(s.subrange(i, k)), value_end(s, c + 1)) {
                    (Some(name), Some(v)) => {
                        let one = seq![(name, s.subrange(c + 1, v))];
                        let e = past_blank(s, v);
                        let next = past_blank(s, e + 1);
                        proof {
                            lemma_member_bounds(s, i);
                        }
                        if !stands(s, c, ':') {
                            None
                        } else if stands(s, e, ',') {
                            match members_at(s, next) {
                                Some(rest) => Some(one + rest),
                                None => None,
                            }
                        } else if stands(s, e, '}') && next == s.len() {
                            Some(one)
                        } else {
                            None
                        }
                    },
                    _ => None,
                }
            },
        }
    }
}

/// The members of the JSON object that `s` holds, or `None` where it holds none.
pub open spec fn object_members(s: Seq<u8>) -> Option<Seq<(Seq<char>, Seq<u8>)>> {
    let i = past_blank(s, 0);
    let j = past_blank(s, i + 1);
    if !stands(s, i, '{') {
        None
    } else if stands(s, j, '}') && past_blank(s, j + 1) == s.len() {
        Some(Seq::empty())
    } else {
        members_at(s, j)
    }
}

proof fn lemma_past_blank(s: Seq<u8>, i: int)
    requires
        0 <= i <= s.len(),
    ensures
        i <= past_blank(s, i) <= s.len(),
    decreases s.len() - i,
{
    if i < s.len() && is_blank(s[i]) {
        lemma_past_blank(s, i + 1);
    }
}

/// Every member takes the reader further.
pub proof fn lemma_member_bounds(s: Seq<u8>, i: int)
    requires
        0 <= i < s.len(),
    ensures
        match value_end(s, i) {
            None => true,
            Some(k) => {
                let c = past_blank(s, k);
                match value_end(s, c + 1) {
                    None => true,
                    Some(v) => {
                        let e = past_blank(s, v);
                        i < k <= c && c + 1 < v <= e <= s.len() && (e < s.len() ==> e < past_blank(
                            s,
                            e + 1,
                        ) <= s.len())
                    },
                }
            },
        },
{
    match value_end(s, i) {
        None => {},
        Some(k) => {
            lemma_past_blank(s, k);
            let c = past_blank(s, k);
            match value_end(s, c + 1) {
                None => {},
                Some(v) => {
                    lemma_past_blank(s, v);
                    let e = past_blank(s, v);
                    if e < s.len() {
                        lemma_past_blank(s, e + 1);
                    }
                },
            }
        },
    }
}

fn skip_blank(s: &[u8], i: usize) -> (r: usize)
    requires
        i <= s@.len(),
    ensures
        r == past_blank(s@, i as int),
        i <= r <= s@.len(),
{
    let mut j: usize = i;
    while j < s.len() && (s[j] == 0x20 || s[j] == 0x09 || s[j] == 0x0a || s[j] == 0x0d)
        invariant
            i <= j <= s@.len(),
            past_blank(s@, i as int) == past_blank(s@, j as int),
        decreases s@.len() - j,
    {
        j = j + 1;
    }
    j
}

fn end_of_value(s: &[u8], i: usize) -> (r: Option<usize>)
    requires
        i <= s@.len(),
    ensures
        match (r, value_end(s@, i as int)) {
            (Some(n), Some(m)) => n == m && i < n <= s@.len(),
            (None, None) => true,
            _ => false,
        },
{
    let rest = slice_subrange(s, i, s.len());
    assert(rest@ =~= s@.skip(i as int));
    match skip_value(rest) {
        Some(n) => {
            assert(i + n <= s.len());
            Some(i + n)
        },
        None => None,
    }
}

/// `v` lists the same names and texts as `m`, in the same order.
pub open spec fn same_members(v: Seq<(String, &[u8])>, m: Seq<(Seq<char>, Seq<u8>)>) -> bool {
    v.len() == m.len() && forall|i: int|
        0 <= i < v.len() ==> (#[trigger] v[i]).0@ == m[i].0 && v[i].1@ == m[i].1
}

/// Reads the members of a JSON object, in the order in which they stand.
pub fn parse_object<'a>(s: &'a [u8]) -> (r: Option<Vec<(String, &'a [u8])>>)
    ensures
        match (r, object_members(s@)) {
            (Some(v), Some(m)) => same_members(v@, m),
            (None, None) => true,
            _ => false,
        },
{
    let open = skip_blank(s, 0);
    if open >= s.len() || s[open] != '{' as u8 {
        return None;
    }
    let mut i: usize = skip_blank(s, open + 1);
    let mut out: Vec<(String, &'a [u8])> = Vec::new();
    if i < s.len() && s[i] == '}' as u8 && skip_blank(s, i + 1) == s.len() {
        return Some(out);
    }
    let ghost mut done: Seq<(Seq<char>, Seq<u8>)> = Seq::empty();
    proof {
        match members_at(s@, i as int) {
            Some(rest) => {
                assert(done + rest =~= rest);
            },
            None => {},
        }
    }
    loop
        invariant
            i <= s@.len(),
            same_members(out@, done),
            match members_at(s@, i as int) {
                Some(rest) => object_members(s@) == Some(done + rest),
                None => object_members(s@) is None,
            },
        decreases s@.len() - i,
    {
        if i >= s.len() || s[i] != '"' as u8 {
            return None;
        }
        proof {
            lemma_member_bounds(s@, i as int);
        }
        let k = match end_of_value(s, i) {
            Some(k) => k,
            None => {
                return None;
            },
        };
        let name = match parse_text(slice_subrange(s, i, k)) {
            Some(name) => name,
            None => {
                return None;
            },
        };
        let c = skip_blank(s, k);
        if c >= s.len() || s[c] != ':' as u8 {
            return None;
        }
        let v = match end_of_value(s, c + 1) {
            Some(v) => v,
            None => {
                return None;
            },
        };
        let value = slice_subrange(s, c + 1, v);
        let ghost one = (name@, value@);
        out.push((name, value));
        let e = skip_blank(s, v);
        if e >= s.len() {
            return None;
        }
        if s[e] == ',' as u8 {
            i = skip_blank(s, e + 1);
            proof {
                match members_at(s@, i as int) {
                    Some(rest) => {
                        assert(done + (seq![one] + rest) =~= done.push(one) + rest);
                    },
                    None => {},
                }
                done = done.push(one);
            }
        } else if s[e] == '}' as u8 && skip_blank(s, e + 1) == s.len() {
            assert(done + seq![one] =~= done.push(one));
            return Some(out);
        } else {
            return None;
        }
    }
}

/// The text of the one member of that name: `Some(None)` where there is none,
/// `None` where there are several.
pub open spec fn only(m: Seq<(Seq<char>, Seq<u8>)>, name: Seq<char>) -> Option<Option<Seq<u8>>>
    decreases m.len(),
{
    if m.len() == 0 {
        Some(None)
    } else if m.last().0 != name {
        only(m.drop_last(), name)
    } else if only(m.drop_last(), name) == Some(None::<Seq<u8>>) {
        Some(Some(m.last().1))
    } else {
        None
    }
}

/// The number in the one member of that name: `Some(None)` where the member is
/// missing or `null`, `None` where it holds something else or comes twice.
pub open spec fn count_member(m: Seq<(Seq<char>, Seq<u8>)>, name: Seq<char>) -> Option<
    Option<u64>,
> {
    match only(m, name) {
        None => None,
        Some(None) => Some(None),
        Some(Some(t)) => json_count(t),
    }
}

/// Looks the one member of that name up.
pub(crate) fn find_member<'a>(
    v: &Vec<(String, &'a [u8])>,
    name: &str,
    Ghost(m): Ghost<Seq<(Seq<char>, Seq<u8>)>>,
) -> (r: Option<Option<&'a [u8]>>)
    requires
        same_members(v@, m),
    ensures
        match (r, only(m, name@)) {
            (Some(Some(t)), Some(Some(s))) => t@ == s,
            (Some(None), Some(None)) => true,
            (None, None) => true,
            _ => false,
        },
{
    let mut found: Option<&'a [u8]> = None;
    let mut twice = false;
    let mut i: usize = 0;
    assert(m.take(0) =~= Seq::empty());
    while i < v.len()
        invariant
            i <= v@.len(),
            same_members(v@, m),
            match only(m.take(i as int), name@) {
                None => twice,
                Some(None) => !twice && found is None,
                Some(Some(t)) => !twice && found is Some && (found->0)@ == t,
            },
        decreases v@.len() - i,
    {
        assert(m.take(i + 1).drop_last() =~= m.take(i as int));
        assert(m.take(i + 1).last() == m[i as int]);
        if text::same(v[i].0.as_str(), name) {
            if found.is_some() {
                twice = true;
            }
            found = Some(v[i].1);
        }
        i = i + 1;
    }
    assert(m.take(m.len() as int) =~= m);
    if twice {
        None
    } else {
        Some(found)
    }
}

/// Reads the number in the one member of that name.
pub(crate) fn read_count(
    v: &Vec<(String, &[u8])>,
    name: &str,
    Ghost(m): Ghost<Seq<(Seq<char>, Seq<u8>)>>,
) -> (r: Option<Option<u64>>)
    requires
        same_members(v@, m),
    ensures
        r == count_member(m, name@),
{
    match find_member(v, name, Ghost(m)) {
        None => None,
        Some(None) => Some(None),
        Some(Some(t)) => parse_count(t),
    }
}

// ---------------------------------------------------------------------------
// Laws
// ---------------------------------------------------------------------------

/// A member is looked up by its name: one that is not there is missing, one that is
/// there once is its text, and one that comes twice spoils the object.
pub proof fn law_member_is_looked_up_by_name(
    m: Seq<(Seq<char>, Seq<u8>)>,
    name: Seq<char>,
    i: int,
    j: int,
)
    ensures
        (forall|k: int| 0 <= k < m.len() ==> (#[trigger] m[k]).0 != name) ==> only(m, name)
            == Some(None::<Seq<u8>>) && count_member(m, name) == Some(None::<u64>),
        0 <= i < m.len() && m[i].0 == name && (forall|k: int|
            0 <= k < m.len() && k != i ==> (#[trigger] m[k]).0 != name) ==> only(m, name) == Some(
            Some(m[i].1),
        ) && count_member(m, name) == json_count(m[i].1),
        0 <= i < j < m.len() && m[i].0 == name && m[j].0 == name ==> only(m, name) is None
            && count_member(m, name) is None,
{
    lemma_only(m, name);
    if 0 <= i < j < m.len() && m[i].0 == name && m[j].0 == name {
        if let Some(Some(t)) = only(m, name) {
            let k = choose|k: int|
                0 <= k < m.len() && m[k] == (name, t) && forall|o: int|
                    0 <= o < m.len() && o != k ==> (#[trigger] m[o]).0 != name;
            assert(m[i].0 == name && m[j].0 == name);
        }
    }
    if 0 <= i < m.len() && m[i].0 == name && (forall|k: int|
        0 <= k < m.len() && k != i ==> (#[trigger] m[k]).0 != name) {
        match only(m, name) {
            None => {
                let (a, b) = choose|a: int, b: int|
                    0 <= a < b < m.len() && (#[trigger] m[a]).0 == name && (
                    #[trigger] m[b]).0 == name;
                assert(a == i && b == i);
            },
            Some(Some(t)) => {
                let k = choose|k: int|
                    0 <= k < m.len() && m[k] == (name, t) && forall|o: int|
                        0 <= o < m.len() && o != k ==> (#[trigger] m[o]).0 != name;
                assert(k == i);
            },
            Some(None) => {},
        }
    }
    if forall|k: int| 0 <= k < m.len() ==> (#[trigger] m[k]).0 != name {
        match only(m, name) {
            None => {
                let (a, b) = choose|a: int, b: int|
                    0 <= a < b < m.len() && (#[trigger] m[a]).0 == name && (
                    #[trigger] m[b]).0 == name;
                assert(m[a].0 == name);
            },
            _ => {},
        }
    }
}

proof fn lemma_only(m: Seq<(Seq<char>, Seq<u8>)>, name: Seq<char>)
    ensures
        match only(m, name) {
            Some(None) => forall|k: int| 0 <= k < m.len() ==> (#[trigger] m[k]).0 != name,
            Some(Some(t)) => exists|k: int|
                0 <= k < m.len() && #[trigger] m[k] == (name, t) && forall|o: int|
                    0 <= o < m.len() && o != k ==> (#[trigger] m[o]).0 != name,
            None => exists|a: int, b: int|
                0 <= a < b < m.len() && (#[trigger] m[a]).0 == name && (#[trigger] m[b]).0 == name,
        },
    decreases m.len(),
{
    if m.len() > 0 {
        let d = m.drop_last();
        let last = m.len() - 1;
        lemma_only(d, name);
        assert(m[last] == m.last());
        assert forall|k: int| 0 <= k < d.len() implies #[trigger] m[k] == d[k] by {}
        match only(d, name) {
            Some(None) => {
                assert forall|k: int| 0 <= k < last implies (#[trigger] m[k]).0 != name by {
                    assert(m[k] == d[k]);
                }
                if m.last().0 == name {
                    assert(m[last] == (name, m.last().1));
                }
            },
            Some(Some(t)) => {
                let k = choose|k: int|
                    0 <= k < d.len() && #[trigger] d[k] == (name, t) && forall|o: int|
                        0 <= o < d.len() && o != k ==> (#[trigger] d[o]).0 != name;
                assert(m[k] == d[k]);
                if m.last().0 != name {
                    assert forall|o: int| 0 <= o < m.len() && o != k implies (
                    #[trigger] m[o]).0 != name by {
                        if o < last {
                            assert(m[o] == d[o]);
                        }
                    }
                } else {
                    assert(m[k].0 == name && m[last].0 == name);
                }
            },
            None => {
                let (a, b) = choose|a: int, b: int|
                    0 <= a < b < d.len() && (#[trigger] d[a]).0 == name && (
                    #[trigger] d[b]).0 == name;
                assert(m[a] == d[a] && m[b] == d[b]);
            },
        }
    }
}

/// Blanks are spaces, tabs, line feeds and carriage returns; all of them are skipped,
/// and nothing else.
pub proof fn law_blanks_are_skipped(s: Seq<u8>, i: int)
    requires
        0 <= i <= s.len(),
    ensures
        i <= past_blank(s, i) <= s.len(),
        forall|j: int|
            i <= j < past_blank(s, i) ==> (#[trigger] s[j] == ' ' as u8 || s[j] == '\t' as u8
                || s[j] == '\n' as u8 || s[j] == '\r' as u8),
        past_blank(s, i) < s.len() ==> {
            let b = s[past_blank(s, i)];
            b != ' ' as u8 && b != '\t' as u8 && b != '\n' as u8 && b != '\r' as u8
        },
    decreases s.len() - i,
{
    if i < s.len() && is_blank(s[i]) {
        law_blanks_are_skipped(s, i + 1);
    }
}

/// A member as it is written: the text of its name, what stands before the colon, the
/// text of its value, what stands behind it, and what stands behind the comma.
pub struct Part {
    pub name: Seq<u8>,
    pub gap: Seq<u8>,
    pub value: Seq<u8>,
    pub after: Seq<u8>,
    pub next: Seq<u8>,
}

/// Nothing but the white space that JSON knows.
pub open spec fn blank(s: Seq<u8>) -> bool {
    forall|i: int|
        0 <= i < s.len() ==> (#[trigger] s[i] == ' ' as u8 || s[i] == '\t' as u8 || s[i]
            == '\n' as u8 || s[i] == '\r' as u8)
}

/// What stands behind the first value: a comma and the other members, or what the object
/// ends with.
pub open spec fn behind(parts: Seq<Part>, close: Seq<u8>) -> Seq<u8>
    decreases parts.len(), 0nat,
{
    if parts.len() <= 1 {
        close
    } else {
        seq![',' as u8] + (parts[0].next + written(parts.drop_first(), close))
    }
}

/// Members as they are written, and what the object ends with.
pub open spec fn written(parts: Seq<Part>, close: Seq<u8>) -> Seq<u8>
    decreases parts.len(), 1nat,
{
    let p = parts[0];
    p.name + (p.gap + (seq![':' as u8] + (p.value + (p.after + behind(parts, close)))))
}

/// The brace that closes an object, and nothing behind it.
pub open spec fn closed(close: Seq<u8>) -> bool {
    close.len() > 0 && close[0] == '}' as u8 && blank(close.skip(1))
}

/// No object ends so: with nothing, with something behind its brace, with neither brace
/// nor comma, or with a comma that no name follows.
pub open spec fn broken(close: Seq<u8>, n: int) -> bool {
    ||| close.len() == 0
    ||| close[0] == '}' as u8 && !blank(close.skip(1))
    ||| close[0] != '}' as u8 && close[0] != ',' as u8
    ||| {
        &&& close[0] == ',' as u8
        &&& 1 <= n <= close.len()
        &&& blank(close.subrange(1, n))
        &&& n < close.len() ==> close[n] != '"' as u8 && !is_blank(close[n])
    }
}

/// Each part is read where it stands: a name that begins with a quote as one value and
/// as `names` says, and its value as one value. Only white space stands between them.
pub open spec fn readable(parts: Seq<Part>, names: Seq<Seq<char>>, close: Seq<u8>) -> bool
    decreases parts.len(),
{
    if parts.len() == 0 {
        names.len() == 0
    } else {
        let p = parts[0];
        let rest = p.value + (p.after + behind(parts, close));
        &&& names.len() > 0
        &&& p.name.len() > 0 && p.name[0] == '"' as u8
        &&& p.value.len() > 0
        &&& blank(p.gap) && blank(p.after) && blank(p.next)
        &&& json_value_len(p.name + (p.gap + (seq![':' as u8] + rest))) == Some(p.name.len())
        &&& json_text(p.name) == Some(names[0])
        &&& json_value_len(rest) == Some(p.value.len())
        &&& readable(parts.drop_first(), names.drop_first(), close)
    }
}

/// An object is read as the members that are written in it, in their order: no member
/// is lost, every value belongs to the name before it, and white space between them
/// makes no difference. It has to end with a brace, and nothing may follow that.
pub proof fn law_written_object_is_read(
    lead: Seq<u8>,
    first: Seq<u8>,
    parts: Seq<Part>,
    names: Seq<Seq<char>>,
    close: Seq<u8>,
    n: int,
)
    requires
        blank(lead),
        blank(first),
        parts.len() > 0,
        readable(parts, names, close),
        close.len() > 0 ==> !is_blank(close[0]),
    ensures
        ({
            let s = lead + (seq!['{' as u8] + (first + written(parts, close)));
            &&& closed(close) ==> object_members(s) == Some(
                Seq::new(parts.len(), |i: int| (names[i], parts[i].value)),
            )
            &&& broken(close, n) ==> object_members(s) is None
        }),
{
    let body = written(parts, close);
    let s = lead + (seq!['{' as u8] + (first + body));
    lemma_written_start(parts, names, close);
    lemma_opened(lead, first, body);
    lemma_written_members(s, (lead.len() + 1 + first.len()) as int, parts, names, close, n);
}

/// So is an object without members.
pub proof fn law_empty_object_is_read(lead: Seq<u8>, first: Seq<u8>, tail: Seq<u8>)
    requires
        blank(lead),
        blank(first),
    ensures
        object_members(
            lead + (seq!['{' as u8] + (first + (seq!['}' as u8] + tail))),
        ) == if blank(tail) {
            Some(Seq::<(Seq<char>, Seq<u8>)>::empty())
        } else {
            None
        },
{
    let body = seq!['}' as u8] + tail;
    let s = lead + (seq!['{' as u8] + (first + body));
    assert(body[0] == '}' as u8);
    lemma_opened(lead, first, body);
    let j = (lead.len() + 1 + first.len()) as int;
    lemma_cut(s, j, seq!['}' as u8], tail);
    lemma_to_the_end(s, j + 1, tail);
}

/// The brace that opens an object, and the white space around it.
proof fn lemma_opened(lead: Seq<u8>, first: Seq<u8>, body: Seq<u8>)
    requires
        blank(lead),
        blank(first),
        body.len() > 0,
        !is_blank(body[0]),
    ensures
        ({
            let s = lead + (seq!['{' as u8] + (first + body));
            let i = lead.len() as int;
            let j = i + 1 + first.len();
            &&& past_blank(s, 0) == i
            &&& stands(s, i, '{')
            &&& past_blank(s, i + 1) == j
            &&& 0 <= j < s.len()
            &&& s[j] == body[0]
            &&& s.skip(j) == body
        }),
{
    let rest = first + body;
    let inner = seq!['{' as u8] + rest;
    let s = lead + inner;
    assert(s.skip(0) =~= s);
    lemma_cut(s, 0, lead, inner);
    let i = lead.len() as int;
    lemma_blanks(s, 0, i);
    lemma_cut(s, i, seq!['{' as u8], rest);
    lemma_cut(s, i + 1, first, body);
    lemma_blanks(s, i + 1, first.len() as int);
}

proof fn lemma_written_start(parts: Seq<Part>, names: Seq<Seq<char>>, close: Seq<u8>)
    requires
        parts.len() > 0,
        readable(parts, names, close),
    ensures
        written(parts, close).len() > 0,
        written(parts, close)[0] == '"' as u8,
{
    let p = parts[0];
    let rest = p.gap + (seq![':' as u8] + (p.value + (p.after + behind(parts, close))));
    assert(written(parts, close) == p.name + rest);
    assert((p.name + rest)[0] == p.name[0]);
}

/// What stands in two pieces from `i` on.
proof fn lemma_cut(s: Seq<u8>, i: int, a: Seq<u8>, b: Seq<u8>)
    requires
        0 <= i <= s.len(),
        s.skip(i) == a + b,
    ensures
        s.len() == i + a.len() + b.len(),
        s.subrange(i, i + a.len()) == a,
        s.skip(i + a.len()) == b,
        a.len() > 0 ==> s[i] == a[0],
        b.len() > 0 ==> s[i + a.len()] == b[0],
{
    let t = s.skip(i);
    assert(s.subrange(i, i + a.len()) =~= t.take(a.len() as int));
    assert(t.take(a.len() as int) =~= a);
    assert(s.skip(i + a.len()) =~= t.skip(a.len() as int));
    assert(t.skip(a.len() as int) =~= b);
    if a.len() > 0 {
        assert(t[0] == s[i]);
    }
    if b.len() > 0 {
        assert(t[a.len() as int] == s[i + a.len()]);
    }
}

/// White space up to something else.
proof fn lemma_blanks(s: Seq<u8>, i: int, n: int)
    requires
        0 <= i <= i + n < s.len(),
        blank(s.subrange(i, i + n)),
        !is_blank(s[i + n]),
    ensures
        past_blank(s, i) == i + n,
    decreases n,
{
    if n > 0 {
        let g = s.subrange(i, i + n);
        assert(g[0] == s[i]);
        let h = s.subrange(i + 1, i + n);
        assert forall|k: int| 0 <= k < h.len() implies (#[trigger] h[k] == ' ' as u8 || h[k]
            == '\t' as u8 || h[k] == '\n' as u8 || h[k] == '\r' as u8) by {
            assert(h[k] == g[k + 1]);
        }
        lemma_blanks(s, i + 1, n - 1);
    }
}

/// White space reaches the end exactly where there is nothing else.
proof fn lemma_to_the_end(s: Seq<u8>, i: int, tail: Seq<u8>)
    requires
        0 <= i <= s.len(),
        s.skip(i) == tail,
    ensures
        past_blank(s, i) == s.len() <==> blank(tail),
{
    law_blanks_are_skipped(s, i);
    let p = past_blank(s, i);
    assert forall|k: int| 0 <= k < tail.len() implies #[trigger] tail[k] == s[i + k] by {
    }
    if p < s.len() {
        assert(tail[p - i] == s[p]);
    }
}

proof fn lemma_readable_len(parts: Seq<Part>, names: Seq<Seq<char>>, close: Seq<u8>)
    requires
        readable(parts, names, close),
    ensures
        names.len() == parts.len(),
    decreases parts.len(),
{
    if parts.len() > 0 {
        lemma_readable_len(parts.drop_first(), names.drop_first(), close);
    }
}

/// One member, up to what stands behind its value.
proof fn lemma_one_member(
    s: Seq<u8>,
    i: int,
    parts: Seq<Part>,
    names: Seq<Seq<char>>,
    close: Seq<u8>,
)
    requires
        0 <= i <= s.len(),
        parts.len() > 0,
        readable(parts, names, close),
        s.skip(i) == written(parts, close),
        close.len() > 0 ==> !is_blank(close[0]),
    ensures
        ({
            let p = parts[0];
            let k = i + p.name.len();
            let c = k + p.gap.len();
            let v = c + 1 + p.value.len();
            let e = v + p.after.len();
            &&& stands(s, i, '"')
            &&& value_end(s, i) == Some(k)
            &&& past_blank(s, k) == c
            &&& stands(s, c, ':')
            &&& json_text(s.subrange(i, k)) == Some(names[0])
            &&& value_end(s, c + 1) == Some(v)
            &&& s.subrange(c + 1, v) == p.value
            &&& past_blank(s, v) == e
            &&& 0 <= e <= s.len()
            &&& s.skip(e) == behind(parts, close)
            &&& e < s.len() ==> s[e] == behind(parts, close)[0]
        }),
{
    let p = parts[0];
    let end = behind(parts, close);
    let rest = p.value + (p.after + end);
    let colon = seq![':' as u8] + rest;
    assert(s.skip(i) == p.name + (p.gap + colon));
    lemma_cut(s, i, p.name, p.gap + colon);
    let k = i + p.name.len();
    lemma_cut(s, k, p.gap, colon);
    let c = k + p.gap.len();
    lemma_blanks(s, k, p.gap.len() as int);
    lemma_cut(s, c, seq![':' as u8], rest);
    lemma_cut(s, c + 1, p.value, p.after + end);
    let v = c + 1 + p.value.len();
    lemma_cut(s, v, p.after, end);
    if end.len() > 0 {
        assert(!is_blank(end[0]));
        lemma_blanks(s, v, p.after.len() as int);
    } else {
        assert(p.after + end =~= p.after);
        lemma_to_the_end(s, v, p.after);
    }
}

/// How an object goes on behind its last value.
proof fn lemma_ending(s: Seq<u8>, e: int, close: Seq<u8>, n: int)
    requires
        0 <= e <= s.len(),
        s.skip(e) == close,
    ensures
        closed(close) ==> stands(s, e, '}') && past_blank(s, e + 1) == s.len(),
        broken(close, n) ==> {
            ||| !stands(s, e, ',') && !stands(s, e, '}')
            ||| !stands(s, e, ',') && past_blank(s, e + 1) != s.len()
            ||| stands(s, e, ',') && !stands(s, past_blank(s, e + 1), '"')
        },
{
    if close.len() > 0 {
        assert(s[e] == close[0]);
        assert(s.skip(e + 1) =~= close.skip(1));
        lemma_to_the_end(s, e + 1, close.skip(1));
        if close[0] == ',' as u8 && broken(close, n) {
            let gap = close.subrange(1, n);
            if n < close.len() {
                assert(s[e + n] == close[n]);
                assert(s.subrange(e + 1, e + 1 + (n - 1)) =~= gap);
                lemma_blanks(s, e + 1, n - 1);
            } else {
                assert(close.skip(1) =~= gap);
            }
        }
    }
}

proof fn lemma_written_members(
    s: Seq<u8>,
    i: int,
    parts: Seq<Part>,
    names: Seq<Seq<char>>,
    close: Seq<u8>,
    n: int,
)
    requires
        0 <= i <= s.len(),
        parts.len() > 0,
        readable(parts, names, close),
        s.skip(i) == written(parts, close),
        close.len() > 0 ==> !is_blank(close[0]),
    ensures
        closed(close) ==> members_at(s, i) == Some(
            Seq::new(parts.len(), |k: int| (names[k], parts[k].value)),
        ),
        broken(close, n) ==> members_at(s, i) is None,
    decreases parts.len(),
{
    lemma_one_member(s, i, parts, names, close);
    lemma_readable_len(parts, names, close);
    let p = parts[0];
    let c = i + p.name.len() + p.gap.len();
    let e = c + 1 + p.value.len() + p.after.len();
    let one = seq![(names[0], p.value)];
    let all = Seq::new(parts.len(), |k: int| (names[k], parts[k].value));
    lemma_member_bounds(s, i);
    if parts.len() == 1 {
        lemma_ending(s, e, close, n);
        let next = past_blank(s, e + 1);
        if !stands(s, next, '"') {
            assert(members_at(s, next) is None);
        }
        assert(all =~= one);
    } else {
        let more = parts.drop_first();
        let others = names.drop_first();
        let rest = written(more, close);
        lemma_cut(s, e, seq![',' as u8], p.next + rest);
        lemma_cut(s, e + 1, p.next, rest);
        assert(readable(more, others, close));
        lemma_written_start(more, others, close);
        lemma_blanks(s, e + 1, p.next.len() as int);
        lemma_written_members(s, e + 1 + p.next.len(), more, others, close, n);
        assert(all =~= one + Seq::new(more.len(), |k: int| (others[k], more[k].value)));
    }
}

} // verus!
