//! Byte scanning over request and response bodies.
//!
//! Positions are found by the `memchr` crate. What a position is, is said here
//! over sequences: [`first_at`] and [`last_at`] for one occurrence, [`find`] for
//! the outcome of a search.

use vstd::prelude::*;

verus! {

/// `needle` stands in `hay` at position `i`.
pub open spec fn occurs_at<T>(hay: Seq<T>, needle: Seq<T>, i: int) -> bool {
    0 <= i && i + needle.len() <= hay.len() && hay.subrange(i, i + needle.len()) =~= needle
}

/// `needle` stands somewhere in `hay`.
pub open spec fn occurs<T>(hay: Seq<T>, needle: Seq<T>) -> bool {
    exists|i: int| occurs_at(hay, needle, i)
}

/// `i` is the first position at which `needle` stands in `hay`.
pub open spec fn first_at<T>(hay: Seq<T>, needle: Seq<T>, i: int) -> bool {
    occurs_at(hay, needle, i) && forall|j: int| 0 <= j < i ==> !occurs_at(hay, needle, j)
}

/// The first position at which `needle` stands in `hay`, if it does.
pub open spec fn find<T>(hay: Seq<T>, needle: Seq<T>) -> Option<int> {
    if exists|i: int| first_at(hay, needle, i) {
        Some(choose|i: int| first_at(hay, needle, i))
    } else {
        None
    }
}

/// `i` is the last position that holds `x` in `s`.
pub open spec fn last_at<T>(s: Seq<T>, x: T, i: int) -> bool {
    0 <= i < s.len() && s[i] == x && forall|j: int| i < j < s.len() ==> s[j] != x
}

/// The bytes of an ASCII text.
pub open spec fn ascii(s: &str) -> Seq<u8> {
    Seq::new(s@.len(), |i: int| s@[i] as u8)
}

/// Space, tab, line feed, form feed, carriage return.
pub open spec fn is_space(b: u8) -> bool {
    b == 0x20 || b == 0x09 || b == 0x0a || b == 0x0c || b == 0x0d
}

/// The first position at or after `i` that holds no white space, or the end. It
/// is never behind the end.
pub open spec fn past_space(s: Seq<u8>, i: int) -> int
    decreases s.len() - i,
{
    if i >= s.len() {
        s.len() as int
    } else if 0 <= i && is_space(s[i]) {
        past_space(s, i + 1)
    } else {
        i
    }
}

/// `memchr::memmem::find` gives the first position of `needle` in `haystack`,
/// and nothing where `needle` does not occur.
pub assume_specification[ memchr::memmem::find ](haystack: &[u8], needle: &[u8]) -> (r: Option<
    usize,
>)
    ensures
        match r {
            Some(i) => first_at(haystack@, needle@, i as int),
            None => forall|j: int| !occurs_at(haystack@, needle@, j),
        },
;

/// `memchr::memchr` gives the first position that holds `needle`, and nothing
/// where no position does.
pub assume_specification[ memchr::memchr ](needle: u8, haystack: &[u8]) -> (r: Option<usize>)
    ensures
        match r {
            Some(i) => i < haystack@.len() && haystack@[i as int] == needle && forall|j: int|
                0 <= j < i ==> haystack@[j] != needle,
            None => forall|j: int| 0 <= j < haystack@.len() ==> haystack@[j] != needle,
        },
;

/// `memchr::memrchr` gives the last position that holds `needle`, and nothing
/// where no position does.
pub assume_specification[ memchr::memrchr ](needle: u8, haystack: &[u8]) -> (r: Option<usize>)
    ensures
        match r {
            Some(i) => last_at(haystack@, needle, i as int),
            None => forall|j: int| 0 <= j < haystack@.len() ==> haystack@[j] != needle,
        },
;

/// A first position is what [`find`] names.
pub proof fn lemma_find_first<T>(hay: Seq<T>, needle: Seq<T>, i: int)
    requires
        first_at(hay, needle, i),
    ensures
        find(hay, needle) == Some(i),
        occurs(hay, needle),
{
    let k = choose|k: int| first_at(hay, needle, k);
    assert(first_at(hay, needle, k));
    assert(k == i);
}

/// [`find`] names a first position, and names none only where there is no
/// occurrence.
pub proof fn lemma_find<T>(hay: Seq<T>, needle: Seq<T>)
    ensures
        match find(hay, needle) {
            Some(i) => first_at(hay, needle, i),
            None => !occurs(hay, needle),
        },
{
    if exists|i: int| occurs_at(hay, needle, i) {
        let i = choose|i: int| occurs_at(hay, needle, i);
        lemma_first_below(hay, needle, i);
    }
}

proof fn lemma_first_below<T>(hay: Seq<T>, needle: Seq<T>, i: int)
    requires
        occurs_at(hay, needle, i),
    ensures
        exists|k: int| first_at(hay, needle, k),
    decreases i,
{
    if forall|j: int| 0 <= j < i ==> !occurs_at(hay, needle, j) {
        assert(first_at(hay, needle, i));
    } else {
        let j = choose|j: int| 0 <= j < i && occurs_at(hay, needle, j);
        lemma_first_below(hay, needle, j);
    }
}

/// One occurrence of a single element is an index of it.
pub proof fn lemma_occurs_one<T>(hay: Seq<T>, x: T, i: int)
    ensures
        occurs_at(hay, seq![x], i) <==> 0 <= i < hay.len() && hay[i] == x,
{
    if 0 <= i < hay.len() {
        assert(hay.subrange(i, i + 1)[0] == hay[i]);
        if hay[i] == x {
            assert(hay.subrange(i, i + 1) =~= seq![x]);
        }
    }
}

/// The first position of an element is what [`find`] names.
pub proof fn lemma_find_one<T>(hay: Seq<T>, x: T)
    ensures
        match find(hay, seq![x]) {
            Some(i) => 0 <= i < hay.len() && hay[i] == x && forall|j: int|
                0 <= j < i ==> hay[j] != x,
            None => forall|j: int| 0 <= j < hay.len() ==> hay[j] != x,
        },
{
    lemma_find(hay, seq![x]);
    assert forall|j: int| occurs_at(hay, seq![x], j) <==> 0 <= j < hay.len() && hay[j] == x by {
        lemma_occurs_one(hay, x, j);
    }
    match find(hay, seq![x]) {
        Some(i) => {
            assert forall|j: int| 0 <= j < i implies hay[j] != x by {
                assert(!occurs_at(hay, seq![x], j));
            }
        },
        None => {
            assert forall|j: int| 0 <= j < hay.len() implies hay[j] != x by {
                assert(!occurs_at(hay, seq![x], j));
            }
        },
    }
}

/// What stands in `a` also stands, at the same place, in `a + b`.
pub proof fn lemma_occurs_extend<T>(a: Seq<T>, b: Seq<T>, needle: Seq<T>, i: int)
    requires
        i + needle.len() <= a.len(),
    ensures
        occurs_at(a, needle, i) <==> occurs_at(a + b, needle, i),
{
    if 0 <= i {
        assert((a + b).subrange(i, i + needle.len()) =~= a.subrange(i, i + needle.len()));
    }
}

/// A first occurrence in `a` is still the first in `a + b`.
pub proof fn lemma_find_extend<T>(a: Seq<T>, b: Seq<T>, needle: Seq<T>, i: int)
    requires
        first_at(a, needle, i),
    ensures
        first_at(a + b, needle, i),
        find(a + b, needle) == Some(i),
{
    lemma_occurs_extend(a, b, needle, i);
    assert forall|j: int| 0 <= j < i implies !occurs_at(a + b, needle, j) by {
        lemma_occurs_extend(a, b, needle, j);
    }
    lemma_find_first(a + b, needle, i);
}

/// [`past_space`] lies between its start and the end, and stops at the end or
/// at a byte that is no white space.
pub proof fn lemma_past_space(s: Seq<u8>, i: int)
    requires
        0 <= i <= s.len(),
    ensures
        i <= past_space(s, i) <= s.len(),
        past_space(s, i) < s.len() ==> !is_space(s[past_space(s, i)]),
        forall|j: int| i <= j < past_space(s, i) ==> is_space(s[j]),
    decreases s.len() - i,
{
    if i < s.len() && is_space(s[i]) {
        lemma_past_space(s, i + 1);
    }
}

/// Bytes after the stopping place of [`past_space`] do not move it.
pub proof fn lemma_past_space_extend(a: Seq<u8>, b: Seq<u8>, i: int)
    requires
        0 <= i <= a.len(),
        past_space(a, i) < a.len(),
    ensures
        past_space(a + b, i) == past_space(a, i),
    decreases a.len() - i,
{
    assert((a + b)[i] == a[i]);
    if is_space(a[i]) {
        lemma_past_space_extend(a, b, i + 1);
    }
}

/// The bytes of an ASCII text, to search for.
pub(crate) fn ascii_bytes(s: &str) -> (r: &[u8])
    requires
        s.is_ascii(),
    ensures
        r@ == ascii(s),
{
    broadcast use vstd::string::is_ascii_spec_bytes;

    s.as_bytes()
}

/// Whether `b` is ASCII white space.
pub fn is_space_byte(b: u8) -> (r: bool)
    ensures
        r == is_space(b),
{
    b == 0x20 || b == 0x09 || b == 0x0a || b == 0x0c || b == 0x0d
}

/// The first position at or after `idx` that holds no ASCII white space, clamped
/// to the end of `buf`.
pub fn skip_ws(buf: &[u8], idx: usize) -> (r: usize)
    ensures
        r == past_space(buf@, idx as int),
        idx <= buf@.len() ==> idx <= r <= buf@.len(),
        idx > buf@.len() ==> r == buf@.len(),
{
    if idx >= buf.len() {
        return buf.len();
    }
    let mut i: usize = idx;
    while i < buf.len() && is_space_byte(buf[i])
        invariant
            idx <= i <= buf@.len(),
            past_space(buf@, i as int) == past_space(buf@, idx as int),
        decreases buf@.len() - i,
    {
        i = i + 1;
    }
    i
}

// ---------------------------------------------------------------------------
// Laws
// ---------------------------------------------------------------------------

/// A search finds the leftmost place at which the needle stands, and nothing only
/// where it stands nowhere.
pub proof fn law_search_finds_the_leftmost<T>(hay: Seq<T>, needle: Seq<T>)
    ensures
        match find(hay, needle) {
            Some(i) => {
                &&& 0 <= i <= hay.len() - needle.len()
                &&& hay.skip(i).take(needle.len() as int) == needle
                &&& forall|j: int|
                    0 <= j < i ==> (#[trigger] hay.skip(j)).take(needle.len() as int) != needle
            },
            None => forall|j: int|
                0 <= j <= hay.len() - needle.len() ==> (#[trigger] hay.skip(j)).take(
                    needle.len() as int,
                ) != needle,
        },
{
    lemma_find(hay, needle);
    let n = needle.len() as int;
    assert forall|j: int| 0 <= j <= hay.len() - n implies ((#[trigger] hay.skip(j)).take(n)
        == needle <==> occurs_at(hay, needle, j)) by {
        assert(hay.skip(j).take(n) =~= hay.subrange(j, j + n));
    }
    match find(hay, needle) {
        Some(i) => {
            assert(hay.skip(i).take(n) == needle);
            assert forall|j: int| 0 <= j < i implies (#[trigger] hay.skip(j)).take(n) != needle by {
                assert(!occurs_at(hay, needle, j));
            }
        },
        None => {
            assert forall|j: int| 0 <= j <= hay.len() - n implies (#[trigger] hay.skip(j)).take(n)
                != needle by {
                assert(!occurs_at(hay, needle, j));
            }
        },
    }
}

/// White space is skipped, all of it and nothing else, up to the end.
pub proof fn law_white_space_is_skipped(s: Seq<u8>, i: int)
    requires
        i >= 0,
    ensures
        i > s.len() ==> past_space(s, i) == s.len(),
        i <= s.len() ==> i <= past_space(s, i) <= s.len(),
        forall|j: int|
            i <= j < past_space(s, i) ==> (#[trigger] s[j] == ' ' as u8 || s[j] == '\t' as u8
                || s[j] == '\n' as u8 || s[j] == 0x0c || s[j] == '\r' as u8),
        past_space(s, i) < s.len() ==> {
            let b = s[past_space(s, i)];
            b != ' ' as u8 && b != '\t' as u8 && b != '\n' as u8 && b != 0x0c && b != '\r' as u8
        },
{
    if i <= s.len() {
        lemma_past_space(s, i);
    }
}

} // verus!
