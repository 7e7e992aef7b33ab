//! Rewriting a request path onto an upstream endpoint, and masking api-keys.

use vstd::prelude::*;
use vstd::string::StringExecFns;

use crate::scan;
use crate::text;

verus! {

/// A provider's base URL in its parts. `path_prefix` is empty for a bare host.
#[derive(Debug, PartialEq, Eq)]
pub struct EndpointUrl {
    pub scheme: String,
    pub host: String,
    pub port: u16,
    pub path_prefix: String,
}

impl Clone for EndpointUrl {
    fn clone(&self) -> (r: Self)
        ensures
            r == *self,
    {
        EndpointUrl {
            scheme: self.scheme.clone(),
            host: self.host.clone(),
            port: self.port,
            path_prefix: self.path_prefix.clone(),
        }
    }
}

/// The part of a request path that is kept: from the first `/v1` on, or all of
/// it where there is none.
pub open spec fn kept(path: Seq<char>) -> Seq<char> {
    match scan::find(path, "/v1"@) {
        Some(i) => path.skip(i),
        None => path,
    }
}

/// The port is the one that the scheme stands for.
pub open spec fn port_is_default(scheme: Seq<char>, port: nat) -> bool {
    scheme == "https"@ && port == 443 || scheme == "http"@ && port == 80
}

/// A URL given by its parts. A port that the scheme stands for is left out.
pub open spec fn url_text(
    scheme: Seq<char>,
    host: Seq<char>,
    port: nat,
    path_prefix: Seq<char>,
) -> Seq<char> {
    let shown = if port_is_default(scheme, port) {
        Seq::empty()
    } else {
        seq![':'] + text::digits(port, 10)
    };
    scheme + "://"@ + host + shown + path_prefix
}

/// The URL of an endpoint.
pub open spec fn base_url(ep: EndpointUrl) -> Seq<char> {
    url_text(ep.scheme@, ep.host@, ep.port as nat, ep.path_prefix@)
}

/// Joins what is kept of a request path onto the endpoint.
pub fn rewrite_path(req_path: &str, endpoint: &EndpointUrl) -> (r: String)
    ensures
        r@ == base_url(*endpoint) + kept(req_path@),
{
    proof {
        reveal_strlit("/v1");
        reveal_strlit("https");
        reveal_strlit("http");
        scan::lemma_find(req_path@, "/v1"@);
    }
    let tail = match text::split_at_first(req_path, "/v1") {
        Some((a, b)) => {
            proof {
                scan::lemma_find_first(req_path@, "/v1"@, a@.len() as int);
                assert(b@ =~= req_path@.skip(a@.len() as int));
            }
            b
        },
        None => req_path,
    };
    let mut out = String::new();
    out.append(endpoint.scheme.as_str());
    out.append("://");
    out.append(endpoint.host.as_str());
    let is_default = text::same(endpoint.scheme.as_str(), "https") && endpoint.port == 443
        || text::same(endpoint.scheme.as_str(), "http") && endpoint.port == 80;
    let ghost before = out@;
    assert(before =~= endpoint.scheme@ + "://"@ + endpoint.host@);
    if !is_default {
        out.push(':');
        text::push_number(&mut out, endpoint.port as u128, 10);
        assert(out@ =~= before + (seq![':'] + text::digits(endpoint.port as nat, 10)));
    } else {
        assert(out@ =~= before + Seq::<char>::empty());
    }
    out.append(endpoint.path_prefix.as_str());
    out.append(tail);
    out
}

/// What is shown of an api-key: nothing of one of at most eight characters,
/// otherwise its first four and its last four.
pub open spec fn masked(key: Seq<char>) -> Seq<char> {
    if key.len() <= 8 {
        "****"@
    } else {
        key.take(4) + seq!['\u{2026}'] + key.skip(key.len() - 4)
    }
}

/// Masks an api-key so that it can be told apart but not read.
pub fn mask_key(key: &str) -> (r: String)
    ensures
        r@ == masked(key@),
{
    let chars = text::chars_of(key);
    let len: usize = chars.len();
    if len <= 8 {
        return "****".to_string();
    }
    let mut out = text::text_of(chars.as_slice(), 0, 4);
    out.push('\u{2026}');
    let last = text::text_of(chars.as_slice(), len - 4, len);
    out.append(last.as_str());
    proof {
        assert(chars@.subrange(0, 4) =~= key@.take(4));
        assert(chars@.subrange(len - 4, len as int) =~= key@.skip(len - 4));
        assert(out@ =~= masked(key@));
    }
    out
}

// ---------------------------------------------------------------------------
// Laws
// ---------------------------------------------------------------------------

/// What stands before the first `/v1` of a path has no part in the rewritten
/// URL, and nothing behind it is lost.
pub proof fn law_only_the_tail_counts(before: Seq<char>, tail: Seq<char>)
    requires
        scan::first_at(before + tail, "/v1"@, before.len() as int),
    ensures
        kept(before + tail) == tail,
        kept(tail) == tail,
{
    reveal_strlit("/v1");
    scan::lemma_find_first(before + tail, "/v1"@, before.len() as int);
    assert((before + tail).skip(before.len() as int) =~= tail);
    assert((before + tail).subrange(before.len() as int, (before.len() + 3) as int) =~= tail.subrange(0, 3));
    assert(scan::first_at(tail, "/v1"@, 0));
    scan::lemma_find_first(tail, "/v1"@, 0);
    assert(tail.skip(0) =~= tail);
}

/// A path that was cut once is not cut again.
pub proof fn law_kept_is_stable(path: Seq<char>)
    ensures
        kept(kept(path)) == kept(path),
{
    reveal_strlit("/v1");
    scan::lemma_find(path, "/v1"@);
    match scan::find(path, "/v1"@) {
        Some(i) => {
            assert(path.take(i) + path.skip(i) =~= path);
            law_only_the_tail_counts(path.take(i), path.skip(i));
        },
        None => {},
    }
}

/// The mask shows nothing but the first four and the last four characters: keys
/// that share those look alike, and so do all short keys.
pub proof fn law_mask_hides_the_rest(a: Seq<char>, b: Seq<char>)
    requires
        a.len() <= 8 && b.len() <= 8 || a.len() > 8 && b.len() > 8 && a.take(4) == b.take(4)
            && a.skip(a.len() - 4) == b.skip(b.len() - 4),
    ensures
        masked(a) == masked(b),
{
}

/// A path without `/v1` is kept as it is, and of any other what stands from the
/// leftmost `/v1` on.
pub proof fn law_path_is_cut_at_the_leftmost_v1(path: Seq<char>, i: int)
    requires
        0 <= i <= path.len() - 3,
        path[i] == '/' && path[i + 1] == 'v' && path[i + 2] == '1',
        forall|j: int|
            0 <= j < i ==> !(#[trigger] path[j] == '/' && path[j + 1] == 'v' && path[j + 2] == '1'),
    ensures
        kept(path) == path.skip(i),
{
    reveal_strlit("/v1");
    assert(path.subrange(i, i + 3) =~= "/v1"@);
    assert forall|j: int| 0 <= j < i implies !scan::occurs_at(path, "/v1"@, j) by {
        if scan::occurs_at(path, "/v1"@, j) {
            assert(path.subrange(j, j + 3)[0] == '/');
            assert(path.subrange(j, j + 3)[1] == 'v');
            assert(path.subrange(j, j + 3)[2] == '1');
        }
    }
    scan::lemma_find_first(path, "/v1"@, i);
}

/// A path that holds no `/v1` is kept whole.
pub proof fn law_path_without_v1_is_kept(path: Seq<char>)
    requires
        forall|j: int|
            0 <= j <= path.len() - 3 ==> !(#[trigger] path[j] == '/' && path[j + 1] == 'v' && path[j
                + 2] == '1'),
    ensures
        kept(path) == path,
{
    reveal_strlit("/v1");
    scan::lemma_find(path, "/v1"@);
    match scan::find(path, "/v1"@) {
        Some(j) => {
            assert(path.subrange(j, j + 3)[0] == '/');
            assert(path.subrange(j, j + 3)[1] == 'v');
            assert(path.subrange(j, j + 3)[2] == '1');
        },
        None => {},
    }
}

/// The port is left out exactly where it is 443 for `https` or 80 for `http`;
/// otherwise it stands between the host and the path prefix.
pub proof fn law_only_the_usual_port_is_left_out(ep: EndpointUrl)
    ensures
        ({
            let front = ep.scheme@ + "://"@ + ep.host@;
            let https = seq!['h', 't', 't', 'p', 's'];
            let http = seq!['h', 't', 't', 'p'];
            base_url(ep) == if ep.scheme@ == https && ep.port == 443 || ep.scheme@ == http
                && ep.port == 80 {
                front + ep.path_prefix@
            } else {
                front + seq![':'] + text::digits(ep.port as nat, 10) + ep.path_prefix@
            }
        }),
{
    reveal_strlit("https");
    reveal_strlit("http");
    assert("https"@ =~= seq!['h', 't', 't', 'p', 's']);
    assert("http"@ =~= seq!['h', 't', 't', 'p']);
    let front = ep.scheme@ + "://"@ + ep.host@;
    assert(front + Seq::<char>::empty() =~= front);
    assert(front + (seq![':'] + text::digits(ep.port as nat, 10)) =~= front + seq![':']
        + text::digits(ep.port as nat, 10));
}

/// A key of more than eight characters shows its first four and its last four around
/// an ellipsis; a shorter one shows nothing.
pub proof fn law_mask_shows_four_and_four(key: Seq<char>, i: int)
    requires
        0 <= i < 4,
    ensures
        key.len() <= 8 ==> masked(key) == seq!['*', '*', '*', '*'],
        key.len() > 8 ==> {
            &&& masked(key).len() == 9
            &&& masked(key)[i] == key[i]
            &&& masked(key)[4] == '\u{2026}'
            &&& masked(key)[5 + i] == key[key.len() - 4 + i]
        },
{
    reveal_strlit("****");
    assert("****"@ =~= seq!['*', '*', '*', '*']);
}

} // verus!
