//! Text helpers: comparing, cutting and building strings character by character.

use vstd::prelude::*;

use crate::scan;

verus! {

/// `String::push` appends the given character.
pub assume_specification[ String::push ](s: &mut String, c: char)
    ensures
        final(s)@ == old(s)@.push(c),
;

/// Whether two texts are the same.
pub fn same(a: &str, b: &str) -> (r: bool)
    ensures
        r == (a@ == b@),
{
    broadcast use vstd::utf8::encode_utf8_decode_utf8;

    let x = a.as_bytes();
    let y = b.as_bytes();
    if x.len() != y.len() {
        return false;
    }
    let mut i: usize = 0;
    while i < x.len()
        invariant
            i <= x@.len(),
            x@.len() == y@.len(),
            x@ == vstd::utf8::encode_utf8(a@),
            y@ == vstd::utf8::encode_utf8(b@),
            forall|j: int| 0 <= j < i ==> x@[j] == y@[j],
        decreases x@.len() - i,
    {
        if x[i] != y[i] {
            return false;
        }
        i = i + 1;
    }
    assert(x@ =~= y@);
    assert(vstd::utf8::decode_utf8(vstd::utf8::encode_utf8(a@)) == a@);
    assert(vstd::utf8::decode_utf8(vstd::utf8::encode_utf8(b@)) == b@);
    true
}

/// The characters of a text.
pub fn chars_of(s: &str) -> (r: Vec<char>)
    ensures
        r@ == s@,
{
    let mut v: Vec<char> = Vec::new();
    for c in it: s.chars()
        invariant
            v@ == s@.take(it.index()),
            it.seq() == s@,
    {
        v.push(c);
        assert(s@.take(it.index() + 1) =~= s@.take(it.index()).push(c));
    }
    assert(s@.take(s@.len() as int) =~= s@);
    v
}

/// The text made of `chars[from..to]`.
pub fn text_of(chars: &[char], from: usize, to: usize) -> (r: String)
    requires
        from <= to <= chars@.len(),
    ensures
        r@ == chars@.subrange(from as int, to as int),
{
    let mut s = String::new();
    let mut i: usize = from;
    assert(chars@.subrange(from as int, from as int) =~= Seq::<char>::empty());
    while i < to
        invariant
            from <= i <= to <= chars@.len(),
            s@ == chars@.subrange(from as int, i as int),
        decreases to - i,
    {
        s.push(chars[i]);
        assert(chars@.subrange(from as int, i + 1) =~= chars@.subrange(from as int, i as int).push(
            chars@[i as int],
        ));
        i = i + 1;
    }
    s
}

/// `s` begins with `prefix`.
pub open spec fn begins(s: Seq<char>, prefix: Seq<char>) -> bool {
    prefix.len() <= s.len() && s.take(prefix.len() as int) == prefix
}

/// Whether `chars` begins with `prefix`.
pub fn starts_with(chars: &[char], prefix: &str) -> (r: bool)
    ensures
        r == begins(chars@, prefix@),
{
    let p = chars_of(prefix);
    if p.len() > chars.len() {
        return false;
    }
    let mut i: usize = 0;
    while i < p.len()
        invariant
            i <= p@.len() <= chars@.len(),
            p@ == prefix@,
            forall|k: int| 0 <= k < i ==> p@[k] == chars@[k],
        decreases p@.len() - i,
    {
        if p[i] != chars[i] {
            assert(chars@.take(p@.len() as int)[i as int] != p@[i as int]);
            return false;
        }
        i = i + 1;
    }
    assert(chars@.take(p@.len() as int) =~= p@);
    true
}

/// `c` in lower case, where it is an ASCII letter.
pub open spec fn lower_char(c: char) -> char {
    if 'A' <= c <= 'Z' {
        (c as u32 + 32) as char
    } else {
        c
    }
}

/// `s` with its ASCII letters in lower case.
pub open spec fn lower(s: Seq<char>) -> Seq<char> {
    Seq::new(s.len(), |i: int| lower_char(s[i]))
}

/// The text made of `chars[from..to]`, with its ASCII letters in lower case.
pub fn lower_text_of(chars: &[char], from: usize, to: usize) -> (r: String)
    requires
        from <= to <= chars@.len(),
    ensures
        r@ == lower(chars@.subrange(from as int, to as int)),
{
    let mut s = String::new();
    let mut i: usize = from;
    let ghost whole = lower(chars@.subrange(from as int, to as int));
    assert(s@ =~= whole.take(0));
    while i < to
        invariant
            from <= i <= to <= chars@.len(),
            whole == lower(chars@.subrange(from as int, to as int)),
            s@ == whole.take(i - from),
        decreases to - i,
    {
        let c = chars[i];
        let l = if 'A' <= c && c <= 'Z' {
            (c as u8 + 32) as char
        } else {
            c
        };
        s.push(l);
        assert(s@ =~= whole.take(i + 1 - from));
        i = i + 1;
    }
    assert(whole.take(to - from) =~= whole);
    s
}

/// `a` comes before `b`, compared byte by byte.
pub open spec fn bytes_less(a: Seq<u8>, b: Seq<u8>) -> bool
    decreases b.len(),
{
    if b.len() == 0 {
        false
    } else if a.len() == 0 {
        true
    } else {
        a[0] < b[0] || a[0] == b[0] && bytes_less(a.drop_first(), b.drop_first())
    }
}

/// `a` comes before `b` in the order of texts: that of their bytes.
pub open spec fn precedes(a: Seq<char>, b: Seq<char>) -> bool {
    bytes_less(vstd::utf8::encode_utf8(a), vstd::utf8::encode_utf8(b))
}

/// What comes before something comes before all that follows it.
pub proof fn lemma_less_transitive(a: Seq<u8>, b: Seq<u8>, c: Seq<u8>)
    requires
        bytes_less(a, b),
        bytes_less(b, c),
    ensures
        bytes_less(a, c),
    decreases c.len(),
{
    if a.len() > 0 && b.len() > 0 && c.len() > 0 && a[0] == b[0] && b[0] == c[0] {
        lemma_less_transitive(a.drop_first(), b.drop_first(), c.drop_first());
    }
}

/// Whether `a` comes before `b`.
pub fn comes_before(a: &str, b: &str) -> (r: bool)
    ensures
        r == precedes(a@, b@),
{
    let x = a.as_bytes();
    let y = b.as_bytes();
    let mut i: usize = 0;
    assert(x@.skip(0) =~= x@);
    assert(y@.skip(0) =~= y@);
    while i < x.len() && i < y.len() && x[i] == y[i]
        invariant
            i <= x@.len(),
            i <= y@.len(),
            bytes_less(x@, y@) == bytes_less(x@.skip(i as int), y@.skip(i as int)),
        decreases x@.len() - i,
    {
        assert(x@.skip(i as int).drop_first() =~= x@.skip(i + 1));
        assert(y@.skip(i as int).drop_first() =~= y@.skip(i + 1));
        i = i + 1;
    }
    if i >= y.len() {
        false
    } else if i >= x.len() {
        true
    } else {
        x[i] < y[i]
    }
}

/// The characters that Unicode counts as white space.
pub open spec fn is_white(c: char) -> bool {
    '\u{9}' <= c <= '\u{d}' || c == ' ' || c == '\u{85}' || c == '\u{a0}' || c == '\u{1680}'
        || '\u{2000}' <= c <= '\u{200a}' || c == '\u{2028}' || c == '\u{2029}' || c == '\u{202f}'
        || c == '\u{205f}' || c == '\u{3000}'
}

/// `s` without the white space at its beginning.
pub open spec fn trimmed_start(s: Seq<char>) -> Seq<char>
    decreases s.len(),
{
    if s.len() > 0 && is_white(s[0]) {
        trimmed_start(s.drop_first())
    } else {
        s
    }
}

/// `s` without the white space at its end.
pub open spec fn trimmed_end(s: Seq<char>) -> Seq<char>
    decreases s.len(),
{
    if s.len() > 0 && is_white(s.last()) {
        trimmed_end(s.drop_last())
    } else {
        s
    }
}

/// `s` without the white space at both ends.
pub open spec fn trimmed(s: Seq<char>) -> Seq<char> {
    trimmed_end(trimmed_start(s))
}

fn is_white_char(c: char) -> (r: bool)
    ensures
        r == is_white(c),
{
    '\u{9}' <= c && c <= '\u{d}' || c == ' ' || c == '\u{85}' || c == '\u{a0}' || c == '\u{1680}'
        || '\u{2000}' <= c && c <= '\u{200a}' || c == '\u{2028}' || c == '\u{2029}' || c
        == '\u{202f}' || c == '\u{205f}' || c == '\u{3000}'
}

/// Drops the white space at both ends.
pub fn trim(s: &str) -> (r: String)
    ensures
        r@ == trimmed(s@),
{
    let chars = chars_of(s);
    let n: usize = chars.len();
    let mut from: usize = 0;
    assert(s@.skip(0) =~= s@);
    while from < n && is_white_char(chars[from])
        invariant
            from <= n == chars@.len(),
            chars@ == s@,
            trimmed_start(s@) == trimmed_start(s@.skip(from as int)),
        decreases n - from,
    {
        assert(s@.skip(from as int).drop_first() =~= s@.skip(from + 1));
        from = from + 1;
    }
    let ghost rest = trimmed_start(s@);
    let mut to: usize = n;
    assert(rest =~= s@.subrange(from as int, to as int));
    while to > from && is_white_char(chars[to - 1])
        invariant
            from <= to <= n == chars@.len(),
            chars@ == s@,
            trimmed_end(rest) == trimmed_end(s@.subrange(from as int, to as int)),
        decreases to,
    {
        assert(s@.subrange(from as int, to as int).drop_last() =~= s@.subrange(
            from as int,
            to - 1,
        ));
        to = to - 1;
    }
    text_of(chars.as_slice(), from, to)
}

/// The digit for `d`: `0` to `9`, then `a` to `f`.
pub open spec fn digit(d: nat) -> char {
    if d < 10 {
        ('0' as nat + d) as char
    } else {
        ('a' as nat + d - 10) as char
    }
}

/// `n` written out to `base`, without leading zeros.
pub open spec fn digits(n: nat, base: nat) -> Seq<char>
    decreases n,
{
    if n < base || base < 2 {
        seq![digit(n)]
    } else {
        proof {
            lemma_quotient_smaller(n, base);
        }
        digits(n / base, base).push(digit(n % base))
    }
}

/// Dividing makes a number smaller.
pub proof fn lemma_quotient_smaller(n: nat, base: nat)
    requires
        base >= 2,
        n >= base,
    ensures
        n / base < n,
{
    assert(n / base < n) by (nonlinear_arith)
        requires
            base >= 2,
            n >= base,
    ;
}

/// Appends `n`, written out to `base`.
pub fn push_number(out: &mut String, n: u128, base: u128)
    requires
        2 <= base <= 16,
    ensures
        final(out)@ == old(out)@ + digits(n as nat, base as nat),
    decreases n,
{
    if n >= base {
        proof {
            lemma_quotient_smaller(n as nat, base as nat);
        }
        push_number(out, n / base, base);
    }
    let d: u8 = (n % base) as u8;
    let c = if d < 10 {
        ('0' as u8 + d) as char
    } else {
        ('a' as u8 + (d - 10)) as char
    };
    let ghost before = out@;
    out.push(c);
    proof {
        if n < base {
            assert(n % base == n) by (nonlinear_arith)
                requires
                    n < base,
            ;
        }
        assert(out@ =~= old(out)@ + digits(n as nat, base as nat));
    }
}

/// `s` cut in two at the first place where the ASCII text `needle` stands in it:
/// what stands before that place, and what stands from it on.
pub fn split_at_first<'a>(s: &'a str, needle: &str) -> (r: Option<(&'a str, &'a str)>)
    requires
        needle.is_ascii(),
        needle@.len() > 0,
    ensures
        match r {
            Some((a, b)) => a@ + b@ == s@ && scan::first_at(s@, needle@, a@.len() as int),
            None => !scan::occurs(s@, needle@),
        },
{
    let bytes = s.as_bytes();
    let ghost pat = scan::ascii(needle);
    match memchr::memmem::find(bytes, scan::ascii_bytes(needle)) {
        Some(idx) => {
            proof {
                vstd::utf8::encode_utf8_valid_utf8(s@);
                assert(bytes@.subrange(idx as int, idx + pat.len())[0] == pat[0]);
                assert(!vstd::utf8::is_continuation_byte(bytes@[idx as int])) by {
                    vstd::utf8::is_ascii_chars_nat_bound(needle@);
                    assert(pat[0] == needle@[0] as u8);
                }
                vstd::utf8::is_char_boundary_iff_not_is_continuation_byte(bytes@, idx as int);
            }
            let (a, b) = s.split_at(idx);
            proof {
                lemma_encode_concat(a@, b@);
                assert(vstd::utf8::encode_utf8(a@ + b@) =~= vstd::utf8::encode_utf8(s@));
                lemma_encode_injective(a@ + b@, s@);
                let tail = vstd::utf8::encode_utf8(b@);
                assert(tail.take(pat.len() as int) =~= pat) by {
                    assert(bytes@.subrange(idx as int, idx + pat.len()) =~= tail.take(
                        pat.len() as int,
                    ));
                }
                lemma_ascii_head(b@, needle@);
                assert(s@.subrange(a@.len() as int, (a@.len() + needle@.len()) as int) =~= b@.take(
                    needle@.len() as int,
                ));
                assert(scan::occurs_at(s@, needle@, a@.len() as int));
                assert forall|k: int| 0 <= k < a@.len() implies !scan::occurs_at(
                    s@,
                    needle@,
                    k,
                ) by {
                    if scan::occurs_at(s@, needle@, k) {
                        lemma_occurs_bytes(s@, needle@, k);
                        lemma_encode_concat(a@.take(k), a@.skip(k));
                        assert(a@.take(k) + a@.skip(k) =~= a@);
                        assert(s@.take(k) =~= a@.take(k));
                        lemma_encode_nonempty(a@.skip(k));
                        assert(scan::occurs_at(
                            bytes@,
                            pat,
                            vstd::utf8::encode_utf8(s@.take(k)).len() as int,
                        ));
                    }
                }
            }
            Some((a, b))
        },
        None => {
            proof {
                if scan::occurs(s@, needle@) {
                    let k = choose|k: int| scan::occurs_at(s@, needle@, k);
                    lemma_occurs_bytes(s@, needle@, k);
                    assert(scan::occurs_at(
                        bytes@,
                        pat,
                        vstd::utf8::encode_utf8(s@.take(k)).len() as int,
                    ));
                }
            }
            None
        },
    }
}

/// Encoding goes character by character.
proof fn lemma_encode_concat(a: Seq<char>, b: Seq<char>)
    ensures
        vstd::utf8::encode_utf8(a + b) == vstd::utf8::encode_utf8(a) + vstd::utf8::encode_utf8(b),
    decreases a.len(),
{
    if a.len() == 0 {
        assert(a + b =~= b);
        assert(vstd::utf8::encode_utf8(a) + vstd::utf8::encode_utf8(b)
            =~= vstd::utf8::encode_utf8(b));
    } else {
        assert((a + b).drop_first() =~= a.drop_first() + b);
        lemma_encode_concat(a.drop_first(), b);
        assert(vstd::utf8::encode_utf8(a + b) =~= vstd::utf8::encode_utf8(a)
            + vstd::utf8::encode_utf8(b));
    }
}

/// Texts with the same encoding are the same.
proof fn lemma_encode_injective(a: Seq<char>, b: Seq<char>)
    requires
        vstd::utf8::encode_utf8(a) == vstd::utf8::encode_utf8(b),
    ensures
        a == b,
{
    vstd::utf8::encode_utf8_decode_utf8(a);
    vstd::utf8::encode_utf8_decode_utf8(b);
}

proof fn lemma_encode_nonempty(a: Seq<char>)
    requires
        a.len() > 0,
    ensures
        vstd::utf8::encode_utf8(a).len() > 0,
{
}

/// The encoding of an ASCII text is its characters.
proof fn lemma_encode_ascii(a: Seq<char>)
    requires
        vstd::utf8::is_ascii_chars(a),
    ensures
        vstd::utf8::encode_utf8(a) == Seq::new(a.len(), |i: int| a[i] as u8),
{
    vstd::utf8::is_ascii_chars_encode_utf8(a);
    assert(vstd::utf8::encode_utf8(a) =~= Seq::new(a.len(), |i: int| a[i] as u8));
}

/// Where an ASCII text stands in `s`, its bytes stand in the encoding of `s`.
proof fn lemma_occurs_bytes(s: Seq<char>, needle: Seq<char>, k: int)
    requires
        vstd::utf8::is_ascii_chars(needle),
        scan::occurs_at(s, needle, k),
    ensures
        scan::occurs_at(
            vstd::utf8::encode_utf8(s),
            Seq::new(needle.len(), |i: int| needle[i] as u8),
            vstd::utf8::encode_utf8(s.take(k)).len() as int,
        ),
{
    let n = needle.len();
    let rest = s.skip(k + n);
    assert(s =~= s.take(k) + (needle + rest));
    lemma_encode_concat(s.take(k), needle + rest);
    lemma_encode_concat(needle, rest);
    lemma_encode_ascii(needle);
    let i = vstd::utf8::encode_utf8(s.take(k)).len() as int;
    assert(vstd::utf8::encode_utf8(s).subrange(i, i + n) =~= vstd::utf8::encode_utf8(needle));
}

/// A text whose encoding begins with the bytes of an ASCII text begins with that
/// text.
proof fn lemma_ascii_head(s: Seq<char>, needle: Seq<char>)
    requires
        vstd::utf8::is_ascii_chars(needle),
        needle.len() <= vstd::utf8::encode_utf8(s).len(),
        vstd::utf8::encode_utf8(s).take(needle.len() as int) == Seq::new(
            needle.len(),
            |i: int| needle[i] as u8,
        ),
    ensures
        needle.len() <= s.len(),
        s.take(needle.len() as int) == needle,
    decreases needle.len(),
{
    let bytes = vstd::utf8::encode_utf8(s);
    if needle.len() > 0 {
        let c = needle[0];
        assert(bytes.take(needle.len() as int)[0] == c as u8);
        assert(bytes[0] == c as u8);
        assert(s.len() > 0);
        vstd::utf8::encode_utf8_first_scalar(s);
        let b = bytes[0];
        assert((b & 0x7f) == b) by (bit_vector)
            requires
                b < 0x80,
        ;
        vstd::utf8::char_u32_cast(c, s[0] as u32);
        vstd::utf8::char_u32_cast(s[0], s[0] as u32);
        assert(s[0] == c);
        let rest = vstd::utf8::encode_utf8(s.drop_first());
        assert(bytes =~= vstd::utf8::encode_scalar(s[0] as u32) + rest);
        let more = needle.drop_first();
        assert(rest.take(more.len() as int) =~= Seq::new(more.len(), |i: int| more[i] as u8)) by {
            assert forall|i: int| 0 <= i < more.len() implies rest[i] == more[i] as u8 by {
                assert(bytes.take(needle.len() as int)[i + 1] == needle[i + 1] as u8);
                assert(bytes[i + 1] == rest[i]);
            }
        }
        lemma_ascii_head(s.drop_first(), more);
        assert(s.take(needle.len() as int) =~= seq![s[0]] + s.drop_first().take(
            more.len() as int,
        ));
        assert(needle =~= seq![c] + more);
    } else {
        assert(s.take(0) =~= needle);
    }
}

// ---------------------------------------------------------------------------
// Laws
// ---------------------------------------------------------------------------

/// Lowering touches the capital letters `A` to `Z` and nothing else, and keeps the
/// length.
pub proof fn law_only_capitals_are_lowered(s: Seq<char>, i: int)
    requires
        0 <= i < s.len(),
    ensures
        lower(s).len() == s.len(),
        'A' <= s[i] <= 'Z' ==> lower(s)[i] as int == s[i] as int + 32,
        !('A' <= s[i] <= 'Z') ==> lower(s)[i] == s[i],
        lower(lower(s)) == lower(s),
{
    assert(lower(lower(s)) =~= lower(s));
}

/// A text begins with what it was made to begin with.
pub proof fn law_beginning_is_recognised(s: Seq<char>, prefix: Seq<char>)
    ensures
        begins(prefix + s, prefix),
        begins(s, prefix) <==> exists|rest: Seq<char>| s == #[trigger] (prefix + rest),
{
    assert((prefix + s).take(prefix.len() as int) =~= prefix);
    if begins(s, prefix) {
        assert(s =~= prefix + s.skip(prefix.len() as int));
    }
    if exists|rest: Seq<char>| s == #[trigger] (prefix + rest) {
        let rest = choose|rest: Seq<char>| s == #[trigger] (prefix + rest);
        assert(s.take(prefix.len() as int) =~= prefix);
    }
}

/// Texts are ordered by the first byte in which they differ; a beginning comes before
/// the whole.
pub proof fn law_order_goes_by_the_first_difference(a: Seq<u8>, b: Seq<u8>)
    ensures
        bytes_less(a, b) <==> exists|i: int|
            {
                &&& 0 <= i <= a.len() && i < b.len()
                &&& #[trigger] a.take(i) == b.take(i)
                &&& i == a.len() || a[i] < b[i]
            },
    decreases b.len(),
{
    if bytes_less(a, b) {
        if a.len() == 0 {
            assert(a.take(0) =~= b.take(0));
        } else if a[0] < b[0] {
            assert(a.take(0) =~= b.take(0));
        } else {
            let x = a.drop_first();
            let y = b.drop_first();
            law_order_goes_by_the_first_difference(x, y);
            let i = choose|i: int|
                {
                    &&& 0 <= i <= x.len() && i < y.len()
                    &&& #[trigger] x.take(i) == y.take(i)
                    &&& i == x.len() || x[i] < y[i]
                };
            assert(a.take(i + 1) =~= seq![a[0]] + x.take(i));
            assert(b.take(i + 1) =~= seq![b[0]] + y.take(i));
            assert(a.take(i + 1) == b.take(i + 1));
        }
    }
    if exists|i: int|
        {
            &&& 0 <= i <= a.len() && i < b.len()
            &&& #[trigger] a.take(i) == b.take(i)
            &&& i == a.len() || a[i] < b[i]
        } {
        let i = choose|i: int|
            {
                &&& 0 <= i <= a.len() && i < b.len()
                &&& #[trigger] a.take(i) == b.take(i)
                &&& i == a.len() || a[i] < b[i]
            };
        if i > 0 {
            let x = a.drop_first();
            let y = b.drop_first();
            assert(a.take(i)[0] == b.take(i)[0]);
            assert(x.take(i - 1) =~= a.take(i).drop_first());
            assert(y.take(i - 1) =~= b.take(i).drop_first());
            law_order_goes_by_the_first_difference(x, y);
        }
    }
}

/// The order of texts is that of their UTF-8 bytes.
pub proof fn law_texts_are_ordered_by_their_bytes(a: Seq<char>, b: Seq<char>)
    ensures
        precedes(a, b) <==> bytes_less(vstd::utf8::encode_utf8(a), vstd::utf8::encode_utf8(b)),
{
}

/// Trimming takes the white characters at both ends, and leaves what stands between
/// them.
pub proof fn law_trimming_takes_the_ends(left: Seq<char>, core: Seq<char>, right: Seq<char>)
    requires
        forall|i: int| 0 <= i < left.len() ==> is_white(#[trigger] left[i]),
        forall|i: int| 0 <= i < right.len() ==> is_white(#[trigger] right[i]),
        core.len() > 0 ==> !is_white(core[0]) && !is_white(core.last()),
    ensures
        trimmed(left + core + right) == core,
    decreases left.len(), right.len(),
{
    let s = left + core + right;
    if left.len() > 0 {
        assert(s[0] == left[0]);
        assert(s.drop_first() =~= left.drop_first() + core + right);
        law_trimming_takes_the_ends(left.drop_first(), core, right);
    } else if core.len() == 0 {
        if right.len() > 0 {
            assert(s =~= right);
            assert(right.drop_first() =~= left + core + right.drop_first());
            law_trimming_takes_the_ends(left, core, right.drop_first());
        } else {
            assert(s =~= core);
        }
    } else {
        assert(s[0] == core[0]);
        assert(trimmed_start(s) == s);
        if right.len() > 0 {
            let less = left + core + right.drop_last();
            assert(s.last() == right.last());
            assert(right[right.len() - 1] == right.last());
            assert(s.drop_last() =~= less);
            law_trimming_takes_the_ends(left, core, right.drop_last());
            assert(less[0] == core[0]);
            assert(trimmed_start(less) == less);
        } else {
            assert(s =~= core);
        }
    }
}

/// A number is written digit by digit: one digit below ten, and otherwise the number
/// without its last digit followed by that digit. Hexadecimal goes on with letters.
pub proof fn law_numbers_are_written_digit_by_digit(n: nat, d: nat)
    ensures
        d < 10 ==> digits(d, 10) == seq![('0' as nat + d) as char],
        n > 0 && d < 10 ==> digits(10 * n + d, 10) == digits(n, 10).push(('0' as nat + d) as char),
        d < 10 ==> digits(d, 16) == seq![('0' as nat + d) as char],
        10 <= d < 16 ==> digits(d, 16) == seq![('a' as nat + (d - 10)) as char],
        n > 0 && d < 16 ==> digits(16 * n + d, 16) == digits(n, 16) + digits(d, 16),
{
    if n > 0 && d < 10 {
        assert((10 * n + d) / 10 == n && (10 * n + d) % 10 == d);
    }
    if n > 0 && d < 16 {
        assert((16 * n + d) / 16 == n && (16 * n + d) % 16 == d);
        assert(digits(16 * n + d, 16) =~= digits(n, 16) + digits(d, 16));
    }
}

/// The white characters are the five controls from tab to carriage return and the
/// spaces of all widths; letters, digits and signs are not among them, nor are the
/// spaces that have no width.
pub proof fn law_white_characters(c: char)
    ensures
        is_white(c) <==> {
            let n = c as u32;
            ||| 9 <= n <= 13
            ||| n == 0x20 || n == 0x85 || n == 0xa0 || n == 0x1680
            ||| 0x2000 <= n <= 0x200a
            ||| n == 0x2028 || n == 0x2029 || n == 0x202f || n == 0x205f || n == 0x3000
        },
{
}

} // verus!
