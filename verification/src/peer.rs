//! Reading a provider's endpoint URL, and where to connect for it.

use vstd::prelude::*;

use crate::rewrite::EndpointUrl;
use crate::rewrite;
use crate::scan;
use crate::text;

verus! {

/// The parts of an endpoint URL.
pub struct Parts {
    pub scheme: Seq<char>,
    pub host: Seq<char>,
    pub port: nat,
    pub path_prefix: Seq<char>,
}

/// The parts that `ep` holds.
pub open spec fn parts_of(ep: EndpointUrl) -> Parts {
    Parts {
        scheme: ep.scheme@,
        host: ep.host@,
        port: ep.port as nat,
        path_prefix: ep.path_prefix@,
    }
}

/// Where the authority of a URL ends: at its path, query or fragment.
pub open spec fn authority_end(s: Seq<char>) -> int
    decreases s.len(),
{
    if s.len() == 0 || s[0] == '/' || s[0] == '?' || s[0] == '#' {
        0
    } else {
        1 + authority_end(s.drop_first())
    }
}

/// Where the path of a URL ends: at its query or fragment.
pub open spec fn path_end(s: Seq<char>) -> int
    decreases s.len(),
{
    if s.len() == 0 || s[0] == '?' || s[0] == '#' {
        0
    } else {
        1 + path_end(s.drop_first())
    }
}

/// `s` without the slashes at its end.
pub open spec fn without_slashes(s: Seq<char>) -> Seq<char>
    decreases s.len(),
{
    if s.len() > 0 && s.last() == '/' {
        without_slashes(s.drop_last())
    } else {
        s
    }
}

/// The character is a decimal digit.
pub open spec fn is_digit(c: char) -> bool {
    '0' <= c <= '9'
}

/// The number that the decimal digits `s` write out.
pub open spec fn value(s: Seq<char>) -> nat
    decreases s.len(),
{
    if s.len() == 0 {
        0
    } else {
        value(s.drop_last()) * 10 + (s.last() as nat - '0' as nat) as nat
    }
}

/// All of `s` is decimal digits.
pub open spec fn all_digits(s: Seq<char>) -> bool {
    forall|i: int| 0 <= i < s.len() ==> is_digit(#[trigger] s[i])
}

/// `s` without the plus sign that it may begin with.
pub open spec fn without_plus(s: Seq<char>) -> Seq<char> {
    if s.len() > 0 && s[0] == '+' {
        s.skip(1)
    } else {
        s
    }
}

/// A port number: decimal digits, perhaps behind a plus sign.
pub open spec fn port_number(s: Seq<char>) -> Option<nat> {
    let d = without_plus(s);
    if d.len() > 0 && all_digits(d) && value(d) <= u16::MAX {
        Some(value(d))
    } else {
        None
    }
}

/// The port that a scheme stands for.
pub open spec fn scheme_port(scheme: Seq<char>) -> nat {
    if scheme == "https"@ {
        443
    } else {
        80
    }
}

/// Host and port of an authority: what stands before its last colon and behind
/// it. Without a colon the port is the scheme's. There are none where the host is
/// empty.
pub open spec fn host_and_port(scheme: Seq<char>, authority: Seq<char>) -> Option<
    (Seq<char>, nat),
> {
    if exists|i: int| scan::last_at(authority, ':', i) {
        let i = choose|i: int| scan::last_at(authority, ':', i);
        match port_number(authority.skip(i + 1)) {
            Some(port) => if i > 0 {
                Some((authority.take(i), port))
            } else {
                None
            },
            None => None,
        }
    } else if authority.len() > 0 {
        Some((authority, scheme_port(scheme)))
    } else {
        None
    }
}

/// The parts of what stands behind the `://`.
pub open spec fn parsed_rest(scheme: Seq<char>, rest: Seq<char>) -> Option<Parts> {
    let e = authority_end(rest);
    let tail = rest.skip(e);
    match host_and_port(scheme, rest.take(e)) {
        None => None,
        Some((host, port)) => Some(
            Parts {
                scheme,
                host,
                port,
                path_prefix: without_slashes(tail.take(path_end(tail))),
            },
        ),
    }
}

/// The parts of an endpoint URL. There are none where it is neither `https` nor
/// `http`, where the host is empty, or where the port is no port number.
pub open spec fn parsed(url: Seq<char>) -> Option<Parts> {
    if text::begins(url, "https://"@) {
        parsed_rest("https"@, url.skip(8))
    } else if text::begins(url, "http://"@) {
        parsed_rest("http"@, url.skip(7))
    } else {
        None
    }
}

/// Reads an endpoint URL.
pub fn parse_endpoint(endpoint: &str) -> (r: Option<EndpointUrl>)
    ensures
        match (r, parsed(endpoint@)) {
            (Some(ep), Some(p)) => parts_of(ep) == p,
            (None, None) => true,
            _ => false,
        },
{
    proof {
        reveal_strlit("https://");
        reveal_strlit("http://");
    }
    let chars = text::chars_of(endpoint);
    if text::starts_with(chars.as_slice(), "https://") {
        parse_rest("https", chars.as_slice(), 8)
    } else if text::starts_with(chars.as_slice(), "http://") {
        parse_rest("http", chars.as_slice(), 7)
    } else {
        None
    }
}

/// Reads what stands from `from` on, behind the `://`.
fn parse_rest(scheme: &str, chars: &[char], from: usize) -> (r: Option<EndpointUrl>)
    requires
        from <= chars@.len(),
    ensures
        match (r, parsed_rest(scheme@, chars@.skip(from as int))) {
            (Some(ep), Some(p)) => parts_of(ep) == p,
            (None, None) => true,
            _ => false,
        },
{
    let ghost rest = chars@.skip(from as int);
    let mut end: usize = from;
    assert(rest.skip(0) =~= rest);
    while end < chars.len() && chars[end] != '/' && chars[end] != '?' && chars[end] != '#'
        invariant
            from <= end <= chars@.len(),
            rest == chars@.skip(from as int),
            authority_end(rest) == (end - from) + authority_end(rest.skip(end - from)),
        decreases chars@.len() - end,
    {
        assert(rest.skip(end - from).drop_first() =~= rest.skip(end - from + 1));
        end = end + 1;
    }
    assert(authority_end(rest) == end - from);
    assert(rest.take(end - from) =~= chars@.subrange(from as int, end as int));
    assert(rest.skip(end - from) =~= chars@.skip(end as int));
    match parse_authority(scheme, chars, from, end) {
        None => None,
        Some((host, port)) => {
            let path_prefix = parse_path(chars, end);
            Some(EndpointUrl { scheme: scheme.to_string(), host, port, path_prefix })
        },
    }
}

/// Reads host and port in `chars[from..end]`.
fn parse_authority(scheme: &str, chars: &[char], from: usize, end: usize) -> (r: Option<
    (String, u16),
>)
    requires
        from <= end <= chars@.len(),
    ensures
        match (r, host_and_port(scheme@, chars@.subrange(from as int, end as int))) {
            (Some(hp), Some(m)) => hp.0@ == m.0 && hp.1 == m.1,
            (None, None) => true,
            _ => false,
        },
{
    let ghost authority = chars@.subrange(from as int, end as int);
    // One behind the last colon, if there is any.
    let mut colon: usize = end;
    while colon > from && chars[colon - 1] != ':'
        invariant
            from <= colon <= end <= chars@.len(),
            forall|k: int| colon <= k < end ==> chars@[k] != ':',
        decreases colon,
    {
        colon = colon - 1;
    }
    if colon > from {
        proof {
            let i = colon - 1 - from;
            assert(scan::last_at(authority, ':', i));
            lemma_last_colon(authority, i);
            assert(authority.skip(i + 1) =~= chars@.subrange(colon as int, end as int));
            assert(authority.take(i) =~= chars@.subrange(from as int, colon - 1));
        }
        match parse_port(chars, colon, end) {
            None => None,
            Some(port) => if colon - 1 > from {
                Some((text::text_of(chars, from, colon - 1), port))
            } else {
                None
            },
        }
    } else {
        proof {
            assert forall|i: int| !scan::last_at(authority, ':', i) by {
                if 0 <= i < authority.len() {
                    assert(authority[i] == chars@[from + i]);
                }
            }
        }
        if from == end {
            return None;
        }
        Some((text::text_of(chars, from, end), default_port(scheme)))
    }
}

/// Reads the path prefix that stands from `from` on.
fn parse_path(chars: &[char], from: usize) -> (r: String)
    requires
        from <= chars@.len(),
    ensures
        r@ == without_slashes(chars@.skip(from as int).take(path_end(chars@.skip(from as int)))),
{
    let ghost tail = chars@.skip(from as int);
    let mut stop: usize = from;
    assert(tail.skip(0) =~= tail);
    while stop < chars.len() && chars[stop] != '?' && chars[stop] != '#'
        invariant
            from <= stop <= chars@.len(),
            tail == chars@.skip(from as int),
            path_end(tail) == (stop - from) + path_end(tail.skip(stop - from)),
        decreases chars@.len() - stop,
    {
        assert(tail.skip(stop - from).drop_first() =~= tail.skip(stop - from + 1));
        stop = stop + 1;
    }
    let ghost path = tail.take(path_end(tail));
    let mut last: usize = stop;
    assert(path =~= chars@.subrange(from as int, last as int));
    while last > from && chars[last - 1] == '/'
        invariant
            from <= last <= chars@.len(),
            without_slashes(path) == without_slashes(chars@.subrange(from as int, last as int)),
        decreases last,
    {
        assert(chars@.subrange(from as int, last as int).drop_last() =~= chars@.subrange(
            from as int,
            last - 1,
        ));
        last = last - 1;
    }
    text::text_of(chars, from, last)
}

/// Reads the port number in `chars[from..to]`.
fn parse_port(chars: &[char], from: usize, to: usize) -> (r: Option<u16>)
    requires
        from <= to <= chars@.len(),
    ensures
        match (r, port_number(chars@.subrange(from as int, to as int))) {
            (Some(p), Some(n)) => p == n,
            (None, None) => true,
            _ => false,
        },
{
    let ghost s = chars@.subrange(from as int, to as int);
    let mut i: usize = from;
    if i < to && chars[i] == '+' {
        i = i + 1;
        assert(s.skip(1) =~= chars@.subrange(from + 1, to as int));
    }
    let ghost start = i as int;
    let ghost d = chars@.subrange(start, to as int);
    if i == to {
        return None;
    }
    let mut n: u32 = 0;
    assert(d.take(0) =~= Seq::empty());
    while i < to
        invariant
            from <= start <= i <= to <= chars@.len(),
            d == chars@.subrange(start, to as int),
            forall|k: int| 0 <= k < i - start ==> is_digit(#[trigger] d[k]),
            n == value(d.take(i - start)),
            n <= u16::MAX,
            d == without_plus(chars@.subrange(from as int, to as int)),
        decreases to - i,
    {
        let c = chars[i];
        if c < '0' || c > '9' {
            assert(!is_digit(d[i - start]));
            return None;
        }
        proof {
            assert(d.take(i - start + 1).drop_last() =~= d.take(i - start));
        }
        n = n * 10 + (c as u32 - '0' as u32);
        if n > u16::MAX as u32 {
            proof {
                lemma_value_grows(d, i - start + 1);
            }
            return None;
        }
        i = i + 1;
    }
    assert(d.take(to - start) =~= d);
    Some(n as u16)
}

/// The port that a scheme stands for.
fn default_port(scheme: &str) -> (r: u16)
    ensures
        r == scheme_port(scheme@),
{
    if text::same(scheme, "https") {
        443
    } else {
        80
    }
}

proof fn lemma_last_colon(s: Seq<char>, i: int)
    requires
        scan::last_at(s, ':', i),
    ensures
        exists|k: int| scan::last_at(s, ':', k),
        (choose|k: int| scan::last_at(s, ':', k)) == i,
{
    let k = choose|k: int| scan::last_at(s, ':', k);
    assert(scan::last_at(s, ':', k));
    if k < i {
        assert(s[i] == ':');
    } else if i < k {
        assert(s[k] == ':');
    }
}

/// More digits make no smaller number.
proof fn lemma_value_grows(d: Seq<char>, k: int)
    requires
        0 <= k <= d.len(),
    ensures
        value(d.take(k)) <= value(d),
    decreases d.len() - k,
{
    if k < d.len() {
        assert(d.take(k + 1).drop_last() =~= d.take(k));
        lemma_value_grows(d, k + 1);
    } else {
        assert(d.take(k) =~= d);
    }
}

/// Where to connect for an endpoint.
#[derive(Clone, Debug, PartialEq, Eq)]
pub struct PeerTarget {
    /// `host:port`.
    pub address: String,
    pub tls: bool,
    /// The server name for the TLS handshake.
    pub sni: String,
}

impl PeerTarget {
    /// Whether the connection is made over TLS.
    pub fn is_tls(&self) -> (r: bool)
        ensures
            r == self.tls,
    {
        self.tls
    }
}

/// Where to connect for `endpoint`: TLS exactly for `https`, with the host as
/// the server name.
pub fn build_peer(endpoint: &EndpointUrl) -> (r: PeerTarget)
    ensures
        r.address@ == endpoint.host@ + seq![':'] + text::digits(endpoint.port as nat, 10),
        r.tls == (endpoint.scheme@ == "https"@),
        r.sni@ == endpoint.host@,
{
    let mut address = endpoint.host.clone();
    address.push(':');
    text::push_number(&mut address, endpoint.port as u128, 10);
    assert(address@ =~= endpoint.host@ + seq![':'] + text::digits(endpoint.port as nat, 10));
    PeerTarget {
        address,
        tls: text::same(endpoint.scheme.as_str(), "https"),
        sni: endpoint.host.clone(),
    }
}

// ---------------------------------------------------------------------------
// Laws
// ---------------------------------------------------------------------------

/// `c` does not occur in `s`.
pub open spec fn lacks(s: Seq<char>, c: char) -> bool {
    forall|i: int| 0 <= i < s.len() ==> s[i] != c
}

/// Parts that can stand in an endpoint URL: a known scheme, a host, and a path
/// prefix that is empty or begins with a slash and does not end with one.
pub open spec fn usable(p: Parts) -> bool {
    &&& p.scheme == "https"@ || p.scheme == "http"@
    &&& p.host.len() > 0
    &&& lacks(p.host, '/') && lacks(p.host, '?') && lacks(p.host, '#')
    &&& p.port <= u16::MAX
    &&& p.path_prefix.len() > 0 ==> p.path_prefix[0] == '/' && p.path_prefix.last() != '/'
    &&& lacks(p.path_prefix, '?') && lacks(p.path_prefix, '#')
}

proof fn lemma_authority_end(s: Seq<char>)
    ensures
        0 <= authority_end(s) <= s.len(),
        forall|i: int|
            0 <= i < authority_end(s) ==> s[i] != '/' && s[i] != '?' && s[i] != '#',
        authority_end(s) < s.len() ==> s[authority_end(s)] == '/' || s[authority_end(s)] == '?'
            || s[authority_end(s)] == '#',
    decreases s.len(),
{
    if s.len() > 0 && s[0] != '/' && s[0] != '?' && s[0] != '#' {
        let d = s.drop_first();
        lemma_authority_end(d);
        assert forall|i: int| 0 <= i < authority_end(s) implies s[i] != '/' && s[i] != '?' && s[i]
            != '#' by {
            if i > 0 {
                assert(s[i] == d[i - 1]);
            }
        }
    }
}

proof fn lemma_path_end(s: Seq<char>)
    ensures
        0 <= path_end(s) <= s.len(),
        forall|i: int| 0 <= i < path_end(s) ==> s[i] != '?' && s[i] != '#',
        path_end(s) < s.len() ==> s[path_end(s)] == '?' || s[path_end(s)] == '#',
    decreases s.len(),
{
    if s.len() > 0 && s[0] != '?' && s[0] != '#' {
        let d = s.drop_first();
        lemma_path_end(d);
        assert forall|i: int| 0 <= i < path_end(s) implies s[i] != '?' && s[i] != '#' by {
            if i > 0 {
                assert(s[i] == d[i - 1]);
            }
        }
    }
}

proof fn lemma_without_slashes(s: Seq<char>)
    ensures
        without_slashes(s).len() <= s.len(),
        without_slashes(s) == s.take(without_slashes(s).len() as int),
        without_slashes(s).len() > 0 ==> without_slashes(s).last() != '/',
    decreases s.len(),
{
    if s.len() > 0 && s.last() == '/' {
        lemma_without_slashes(s.drop_last());
        let n = without_slashes(s).len() as int;
        assert(s.drop_last().take(n) =~= s.take(n));
    } else {
        assert(s.take(s.len() as int) =~= s);
    }
}

/// A number written out in decimal digits is read back as itself.
proof fn lemma_digits_read_back(n: nat)
    ensures
        all_digits(text::digits(n, 10)),
        text::digits(n, 10).len() > 0,
        value(text::digits(n, 10)) == n,
    decreases n,
{
    if n < 10 {
        let d = text::digits(n, 10);
        assert(d =~= seq![text::digit(n)]);
        assert(d.drop_last() =~= Seq::empty());
        assert(value(d.drop_last()) == 0);
    } else {
        text::lemma_quotient_smaller(n, 10);
        lemma_digits_read_back(n / 10);
        let head = text::digits(n / 10, 10);
        let d = text::digits(n, 10);
        assert(d == head.push(text::digit(n % 10)));
        assert(d.drop_last() =~= head);
        assert forall|i: int| 0 <= i < d.len() implies is_digit(#[trigger] d[i]) by {
            if i < head.len() {
                assert(d[i] == head[i]);
            }
        }
    }
}

proof fn lemma_scheme_read_back(scheme: Seq<char>, rest: Seq<char>)
    requires
        scheme == "https"@ || scheme == "http"@,
    ensures
        parsed(scheme + "://"@ + rest) == parsed_rest(scheme, rest),
{
    reveal_strlit("https");
    reveal_strlit("http");
    reveal_strlit("://");
    reveal_strlit("https://");
    reveal_strlit("http://");
    let url = scheme + "://"@ + rest;
    if scheme == "https"@ {
        assert(url.take(8) =~= "https://"@);
        assert(url.skip(8) =~= rest);
    } else {
        assert(url[4] == ':');
        if url.len() >= 8 {
            assert(url.take(8)[4] == ':');
            assert("https://"@[4] == 's');
        }
        assert(url.take(7) =~= "http://"@);
        assert(url.skip(7) =~= rest);
    }
}

proof fn lemma_authority_read_back(authority: Seq<char>, path: Seq<char>)
    requires
        lacks(authority, '/') && lacks(authority, '?') && lacks(authority, '#'),
        path.len() > 0 ==> path[0] == '/',
    ensures
        authority_end(authority + path) == authority.len(),
        (authority + path).take(authority.len() as int) == authority,
        (authority + path).skip(authority.len() as int) == path,
{
    let rest = authority + path;
    lemma_authority_end(rest);
    let e = authority_end(rest);
    if e < authority.len() {
        assert(rest[e] == authority[e]);
    } else if e > authority.len() {
        assert(rest[authority.len() as int] == path[0]);
    }
    assert(rest.take(authority.len() as int) =~= authority);
    assert(rest.skip(authority.len() as int) =~= path);
}

proof fn lemma_port_read_back(scheme: Seq<char>, host: Seq<char>, port: nat)
    requires
        host.len() > 0,
        port <= u16::MAX,
    ensures
        host_and_port(scheme, host + (seq![':'] + text::digits(port, 10))) == Some((host, port)),
{
    let number = text::digits(port, 10);
    lemma_digits_read_back(port);
    let authority = host + (seq![':'] + number);
    let i = host.len() as int;
    assert(authority[i] == ':');
    assert forall|j: int| i < j < authority.len() implies authority[j] != ':' by {
        assert(authority[j] == number[j - i - 1]);
        assert(is_digit(number[j - i - 1]));
    }
    assert(scan::last_at(authority, ':', i));
    lemma_last_colon(authority, i);
    assert(authority.skip(i + 1) =~= number);
    assert(authority.take(i) =~= host);
    assert(is_digit(number[0]));
}

/// The URL that stands for usable parts is read back as those parts.
pub proof fn law_base_url_is_read_back(ep: EndpointUrl)
    requires
        usable(parts_of(ep)),
        lacks(ep.host@, ':'),
    ensures
        parsed(rewrite::base_url(ep)) == Some(parts_of(ep)),
{
    let scheme = ep.scheme@;
    let host = ep.host@;
    let number = text::digits(ep.port as nat, 10);
    let port = if rewrite::port_is_default(scheme, ep.port as nat) {
        Seq::empty()
    } else {
        seq![':'] + number
    };
    let authority = host + port;
    let path = ep.path_prefix@;
    assert(rewrite::base_url(ep) =~= scheme + "://"@ + (authority + path));
    lemma_scheme_read_back(scheme, authority + path);
    if rewrite::port_is_default(scheme, ep.port as nat) {
        assert(authority =~= host);
        assert forall|i: int| !scan::last_at(authority, ':', i) by {}
        lemma_schemes_differ();
        assert(host_and_port(scheme, authority) == Some((host, ep.port as nat)));
    } else {
        lemma_port_read_back(scheme, host, ep.port as nat);
        lemma_digits_read_back(ep.port as nat);
        assert forall|i: int| 0 <= i < authority.len() implies authority[i] != '/' && authority[i]
            != '?' && authority[i] != '#' by {
            if i > host.len() {
                assert(authority[i] == number[i - host.len() - 1]);
                assert(is_digit(number[i - host.len() - 1]));
            }
        }
    }
    lemma_authority_read_back(authority, path);
    lemma_path_end(path);
    assert(path.take(path_end(path)) =~= path);
}

proof fn lemma_schemes_differ()
    ensures
        "https"@ != "http"@,
{
    reveal_strlit("https");
    reveal_strlit("http");
    assert("https"@.len() != "http"@.len());
}

/// What is read from an endpoint URL is usable.
pub proof fn law_parsed_is_usable(url: Seq<char>)
    requires
        parsed(url) is Some,
    ensures
        usable(parsed(url)->0),
{
    let scheme = (parsed(url)->0).scheme;
    let rest = if text::begins(url, "https://"@) {
        url.skip(8)
    } else {
        url.skip(7)
    };
    assert(parsed(url) == parsed_rest(scheme, rest));
    let e = authority_end(rest);
    lemma_authority_end(rest);
    let authority = rest.take(e);
    let (host, port) = host_and_port(scheme, authority)->0;
    if exists|i: int| scan::last_at(authority, ':', i) {
        let i = choose|i: int| scan::last_at(authority, ':', i);
        assert(host == authority.take(i));
    }
    assert(host.len() > 0);
    assert forall|i: int| 0 <= i < host.len() implies host[i] != '/' && host[i] != '?' && host[i]
        != '#' by {
        assert(host[i] == rest[i]);
    }
    let tail = rest.skip(e);
    let n = path_end(tail);
    lemma_path_end(tail);
    let path = tail.take(n);
    lemma_without_slashes(path);
    let prefix = without_slashes(path);
    assert forall|i: int| 0 <= i < prefix.len() implies prefix[i] != '?' && prefix[i] != '#' by {
        assert(prefix[i] == path[i]);
        assert(path[i] == tail[i]);
    }
    if prefix.len() > 0 {
        assert(prefix[0] == path[0]);
        assert(path[0] == tail[0]);
        assert(tail[0] == rest[e]);
    }
}

proof fn lemma_end_is_cut(path: Seq<char>, slashes: Seq<char>, query: Seq<char>)
    requires
        path.len() > 0 ==> path.last() != '/',
        lacks(path, '?') && lacks(path, '#'),
        forall|i: int| 0 <= i < slashes.len() ==> #[trigger] slashes[i] == '/',
        query.len() > 0 ==> query[0] == '?' || query[0] == '#',
    ensures
        ({
            let tail = path + slashes + query;
            without_slashes(tail.take(path_end(tail))) == path
        }),
{
    let tail = path + slashes + query;
    lemma_path_end(tail);
    let n = (path.len() + slashes.len()) as int;
    let e = path_end(tail);
    if e < n {
        if e < path.len() {
            assert(tail[e] == path[e]);
        } else {
            assert(tail[e] == slashes[e - path.len()]);
        }
    } else if e > n {
        assert(tail[n] == query[0]);
    }
    assert(tail.take(n) =~= path + slashes);
    lemma_slashes_are_cut(path, slashes);
}

proof fn lemma_slashes_are_cut(path: Seq<char>, slashes: Seq<char>)
    requires
        path.len() > 0 ==> path.last() != '/',
        forall|i: int| 0 <= i < slashes.len() ==> #[trigger] slashes[i] == '/',
    ensures
        without_slashes(path + slashes) == path,
    decreases slashes.len(),
{
    if slashes.len() > 0 {
        assert(slashes[slashes.len() - 1] == slashes.last());
        assert((path + slashes).drop_last() =~= path + slashes.drop_last());
        lemma_slashes_are_cut(path, slashes.drop_last());
    } else {
        assert(path + slashes =~= path);
    }
}

proof fn lemma_authority_is_cut(authority: Seq<char>, tail: Seq<char>)
    requires
        lacks(authority, '/') && lacks(authority, '?') && lacks(authority, '#'),
        tail.len() > 0 ==> tail[0] == '/' || tail[0] == '?' || tail[0] == '#',
    ensures
        authority_end(authority + tail) == authority.len(),
        (authority + tail).take(authority.len() as int) == authority,
        (authority + tail).skip(authority.len() as int) == tail,
{
    let rest = authority + tail;
    lemma_authority_end(rest);
    let e = authority_end(rest);
    if e < authority.len() {
        assert(rest[e] == authority[e]);
    } else if e > authority.len() {
        assert(rest[authority.len() as int] == tail[0]);
    }
    assert(rest.take(authority.len() as int) =~= authority);
    assert(rest.skip(authority.len() as int) =~= tail);
}

/// What an endpoint URL is read as, part by part: scheme, host and path prefix stand as
/// they are written; without a port it is 443 for `https` and 80 for `http`. Slashes at
/// the end of the path, a query and a fragment are dropped.
pub proof fn law_endpoint_without_a_port(
    host: Seq<char>,
    path: Seq<char>,
    slashes: Seq<char>,
    query: Seq<char>,
)
    requires
        host.len() > 0,
        forall|i: int|
            0 <= i < host.len() ==> #[trigger] host[i] != '/' && host[i] != '?' && host[i] != '#'
                && host[i] != ':',
        path.len() > 0 ==> path[0] == '/' && path.last() != '/',
        forall|i: int| 0 <= i < path.len() ==> #[trigger] path[i] != '?' && path[i] != '#',
        forall|i: int| 0 <= i < slashes.len() ==> #[trigger] slashes[i] == '/',
        query.len() > 0 ==> query[0] == '?' || query[0] == '#',
    ensures
        parsed("https"@ + "://"@ + (host + (path + slashes + query))) == Some(
            Parts { scheme: "https"@, host, port: 443, path_prefix: path },
        ),
        parsed("http"@ + "://"@ + (host + (path + slashes + query))) == Some(
            Parts { scheme: "http"@, host, port: 80, path_prefix: path },
        ),
{
    let tail = path + slashes + query;
    if tail.len() > 0 {
        assert(tail[0] == if path.len() > 0 {
            path[0]
        } else if slashes.len() > 0 {
            slashes[0]
        } else {
            query[0]
        });
    }
    lemma_scheme_read_back("https"@, host + tail);
    lemma_scheme_read_back("http"@, host + tail);
    lemma_authority_is_cut(host, tail);
    lemma_end_is_cut(path, slashes, query);
    assert forall|i: int| !scan::last_at(host, ':', i) by {}
    lemma_schemes_differ();
}

/// A port is read as the number that is written, and stands for itself with either
/// scheme. A number that is no port number makes the URL unreadable.
pub proof fn law_endpoint_with_a_port(
    scheme: Seq<char>,
    host: Seq<char>,
    port: nat,
    path: Seq<char>,
    slashes: Seq<char>,
    query: Seq<char>,
)
    requires
        scheme == "https"@ || scheme == "http"@,
        host.len() > 0,
        forall|i: int|
            0 <= i < host.len() ==> #[trigger] host[i] != '/' && host[i] != '?' && host[i] != '#',
        path.len() > 0 ==> path[0] == '/' && path.last() != '/',
        forall|i: int| 0 <= i < path.len() ==> #[trigger] path[i] != '?' && path[i] != '#',
        forall|i: int| 0 <= i < slashes.len() ==> #[trigger] slashes[i] == '/',
        query.len() > 0 ==> query[0] == '?' || query[0] == '#',
    ensures
        ({
            let authority = host + (seq![':'] + text::digits(port, 10));
            parsed(scheme + "://"@ + (authority + (path + slashes + query))) == if port <= 65535 {
                Some(Parts { scheme, host, port, path_prefix: path })
            } else {
                None
            }
        }),
{
    let number = text::digits(port, 10);
    let authority = host + (seq![':'] + number);
    let tail = path + slashes + query;
    if tail.len() > 0 {
        assert(tail[0] == if path.len() > 0 {
            path[0]
        } else if slashes.len() > 0 {
            slashes[0]
        } else {
            query[0]
        });
    }
    lemma_digits_read_back(port);
    assert forall|i: int| 0 <= i < authority.len() implies authority[i] != '/' && authority[i]
        != '?' && authority[i] != '#' by {
        if i > host.len() {
            assert(authority[i] == number[i - host.len() - 1]);
            assert(is_digit(number[i - host.len() - 1]));
        } else if i < host.len() {
            assert(authority[i] == host[i]);
        }
    }
    lemma_scheme_read_back(scheme, authority + tail);
    lemma_authority_is_cut(authority, tail);
    lemma_end_is_cut(path, slashes, query);
    if port <= 65535 {
        lemma_port_read_back(scheme, host, port);
    } else {
        let i = host.len() as int;
        assert forall|j: int| i < j < authority.len() implies authority[j] != ':' by {
            assert(authority[j] == number[j - i - 1]);
            assert(is_digit(number[j - i - 1]));
        }
        assert(scan::last_at(authority, ':', i));
        lemma_last_colon(authority, i);
        assert(authority.skip(i + 1) =~= number);
        assert(is_digit(number[0]));
    }
}

/// Only `https` and `http` URLs are read, and only where a host stands behind the
/// scheme.
pub proof fn law_unreadable_endpoints(url: Seq<char>, rest: Seq<char>)
    requires
        rest.len() == 0 || rest[0] == '/' || rest[0] == '?' || rest[0] == '#',
    ensures
        parsed(url) is Some ==> url.len() >= 7 && (url.take(7) == "http://"@ || url.len() >= 8
            && url.take(8) == "https://"@),
        parsed("https"@ + "://"@ + rest) is None,
        parsed("http"@ + "://"@ + rest) is None,
        parsed("https"@ + "://"@ + (seq![':'] + rest)) is None,
        parsed("http"@ + "://"@ + (seq![':'] + rest)) is None,
{
    reveal_strlit("https://");
    reveal_strlit("http://");
    lemma_scheme_read_back("https"@, rest);
    lemma_scheme_read_back("http"@, rest);
    let none = Seq::<char>::empty();
    lemma_authority_is_cut(none, rest);
    assert(none + rest =~= rest);
    assert forall|i: int| !scan::last_at(none, ':', i) by {}
    let colon = seq![':'];
    lemma_scheme_read_back("https"@, colon + rest);
    lemma_scheme_read_back("http"@, colon + rest);
    lemma_authority_is_cut(colon, rest);
    assert(scan::last_at(colon, ':', 0));
    lemma_last_colon(colon, 0);
    assert(colon.skip(1) =~= none);
}

/// A port that is written with anything but decimal digits, a plus sign in front left
/// aside, makes the URL unreadable.
pub proof fn law_port_is_digits(
    scheme: Seq<char>,
    host: Seq<char>,
    port: Seq<char>,
    i: int,
)
    requires
        scheme == "https"@ || scheme == "http"@,
        forall|k: int|
            0 <= k < host.len() ==> #[trigger] host[k] != '/' && host[k] != '?' && host[k] != '#',
        forall|k: int|
            0 <= k < port.len() ==> #[trigger] port[k] != '/' && port[k] != '?' && port[k] != '#'
                && port[k] != ':',
        0 <= i < port.len(),
        !('0' <= port[i] <= '9'),
        i == 0 ==> port[0] != '+',
    ensures
        parsed(scheme + "://"@ + (host + (seq![':'] + port))) is None,
{
    let authority = host + (seq![':'] + port);
    let none = Seq::<char>::empty();
    lemma_scheme_read_back(scheme, authority);
    assert(authority + none =~= authority);
    assert forall|k: int| 0 <= k < authority.len() implies authority[k] != '/' && authority[k]
        != '?' && authority[k] != '#' by {
        if k < host.len() {
            assert(authority[k] == host[k]);
        } else if k > host.len() {
            assert(authority[k] == port[k - host.len() - 1]);
        }
    }
    lemma_authority_is_cut(authority, none);
    let c = host.len() as int;
    assert forall|k: int| c < k < authority.len() implies authority[k] != ':' by {
        assert(authority[k] == port[k - c - 1]);
    }
    assert(scan::last_at(authority, ':', c));
    lemma_last_colon(authority, c);
    assert(authority.skip(c + 1) =~= port);
    let d = without_plus(port);
    if port[0] == '+' {
        assert(d[i - 1] == port[i]);
        assert(!is_digit(d[i - 1]));
    } else {
        assert(!is_digit(d[i]));
    }
}

} // verus!
