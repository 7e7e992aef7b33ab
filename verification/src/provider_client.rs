//! The request that goes to a provider.

use vstd::prelude::*;
use vstd::string::StringExecFns;

use crate::ctx::{str_view, text_view};
use crate::model::Provider;
use crate::peer;
use crate::rewrite;
use crate::text;

verus! {

/// How providers are called: connections are kept for long, and a call may take
/// minutes.
#[derive(Clone, Debug, PartialEq, Eq)]
pub struct ProviderClient {
    pub max_idle_per_host: usize,
    pub idle_timeout_secs: u64,
    pub timeout_secs: u64,
}

/// A request to a provider. The body is borrowed, so that every attempt sends the
/// same bytes without copying them.
#[derive(Clone, Debug, PartialEq, Eq)]
pub struct UpstreamRequest<'a> {
    pub method: String,
    pub url: String,
    pub authorization: String,
    pub trace_id: String,
    pub host: Option<String>,
    pub accept: Option<String>,
    pub content_type: Option<String>,
    pub body: &'a [u8],
}

/// `s` without the slashes at its beginning.
pub open spec fn without_leading_slashes(s: Seq<char>) -> Seq<char>
    decreases s.len(),
{
    if s.len() > 0 && s[0] == '/' {
        without_leading_slashes(s.drop_first())
    } else {
        s
    }
}

/// The URL of a request: what is kept of the path, joined onto the endpoint. An
/// endpoint that cannot be read is taken as it stands.
pub open spec fn upstream_url(endpoint: Seq<char>, path: Seq<char>) -> Seq<char> {
    match peer::parsed(endpoint) {
        Some(p) => rewrite::url_text(p.scheme, p.host, p.port, p.path_prefix) + rewrite::kept(path),
        None => peer::without_slashes(endpoint) + "/"@ + without_leading_slashes(path),
    }
}

impl Default for ProviderClient {
    fn default() -> (r: Self)
        ensures
            r.max_idle_per_host == 32,
            r.idle_timeout_secs == 90,
            r.timeout_secs == 300,
    {
        ProviderClient::new()
    }
}

impl ProviderClient {
    /// The client for long generations.
    pub fn new() -> (r: Self)
        ensures
            r.max_idle_per_host == 32,
            r.idle_timeout_secs == 90,
            r.timeout_secs == 300,
    {
        ProviderClient { max_idle_per_host: 32, idle_timeout_secs: 90, timeout_secs: 300 }
    }

    /// The request for one attempt: the path goes onto the provider's endpoint,
    /// the client's key is replaced by the provider's, and the host is the
    /// provider's. Of the client's headers only `Accept` and `Content-Type` are
    /// handed on. The body goes as it is, byte for byte.
    pub fn build_request<'a>(
        &self,
        method: &str,
        path: &str,
        accept: Option<&str>,
        content_type: Option<&str>,
        provider: &Provider,
        upstream_key: &str,
        body: &'a [u8],
        trace_id: &str,
    ) -> (r: UpstreamRequest<'a>)
        ensures
            r.method@ == method@,
            r.url@ == upstream_url(provider.endpoint@, path@),
            r.authorization@ == "Bearer "@ + upstream_key@,
            r.trace_id@ == trace_id@,
            text_view(r.host) == match peer::parsed(provider.endpoint@) {
                Some(p) => Some(p.host),
                None => None,
            },
            text_view(r.accept) == str_view(accept),
            text_view(r.content_type) == str_view(content_type),
            r.body@ == body@,
    {
        let endpoint = peer::parse_endpoint(provider.endpoint.as_str());
        let url = match &endpoint {
            Some(ep) => rewrite::rewrite_path(path, ep),
            None => fallback_url(provider.endpoint.as_str(), path),
        };
        let mut authorization = "Bearer ".to_string();
        authorization.append(upstream_key);
        UpstreamRequest {
            method: method.to_string(),
            url,
            authorization,
            trace_id: trace_id.to_string(),
            host: match endpoint {
                Some(ep) => Some(ep.host),
                None => None,
            },
            accept: owned(accept),
            content_type: owned(content_type),
            body,
        }
    }
}

/// The URL where the endpoint cannot be read.
fn fallback_url(endpoint: &str, path: &str) -> (r: String)
    ensures
        r@ == peer::without_slashes(endpoint@) + "/"@ + without_leading_slashes(path@),
{
    let e = text::chars_of(endpoint);
    let mut to: usize = e.len();
    assert(e@.take(to as int) =~= e@);
    while to > 0 && e[to - 1] == '/'
        invariant
            to <= e@.len(),
            peer::without_slashes(e@) == peer::without_slashes(e@.take(to as int)),
        decreases to,
    {
        assert(e@.take(to as int).drop_last() =~= e@.take(to - 1));
        to = to - 1;
    }
    let mut url = text::text_of(e.as_slice(), 0, to);
    assert(e@.subrange(0, to as int) =~= e@.take(to as int));
    url.append("/");
    let p = text::chars_of(path);
    let mut from: usize = 0;
    assert(p@.skip(0) =~= p@);
    while from < p.len() && p[from] == '/'
        invariant
            from <= p@.len(),
            without_leading_slashes(p@) == without_leading_slashes(p@.skip(from as int)),
        decreases p@.len() - from,
    {
        assert(p@.skip(from as int).drop_first() =~= p@.skip(from + 1));
        from = from + 1;
    }
    let rest = text::text_of(p.as_slice(), from, p.len());
    assert(p@.subrange(from as int, p@.len() as int) =~= p@.skip(from as int));
    url.append(rest.as_str());
    url
}

fn owned(s: Option<&str>) -> (r: Option<String>)
    ensures
        text_view(r) == str_view(s),
{
    match s {
        Some(t) => Some(t.to_string()),
        None => None,
    }
}

// ---------------------------------------------------------------------------
// Laws
// ---------------------------------------------------------------------------

/// An endpoint that cannot be read is joined to the path by one slash, however many
/// stand at the end of the one and the beginning of the other.
pub proof fn law_one_slash_joins(
    endpoint: Seq<char>,
    after: Seq<char>,
    before: Seq<char>,
    path: Seq<char>,
)
    requires
        endpoint.len() > 0 ==> endpoint.last() != '/',
        path.len() > 0 ==> path[0] != '/',
        forall|i: int| 0 <= i < after.len() ==> #[trigger] after[i] == '/',
        forall|i: int| 0 <= i < before.len() ==> #[trigger] before[i] == '/',
        peer::parsed(endpoint + after) is None,
    ensures
        upstream_url(endpoint + after, before + path) == endpoint + seq!['/'] + path,
{
    reveal_strlit("/");
    assert("/"@ =~= seq!['/']);
    lemma_end_slashes(endpoint, after);
    lemma_leading_slashes(before, path);
}

proof fn lemma_end_slashes(s: Seq<char>, slashes: Seq<char>)
    requires
        s.len() > 0 ==> s.last() != '/',
        forall|i: int| 0 <= i < slashes.len() ==> #[trigger] slashes[i] == '/',
    ensures
        peer::without_slashes(s + slashes) == s,
    decreases slashes.len(),
{
    if slashes.len() > 0 {
        assert(slashes[slashes.len() - 1] == slashes.last());
        assert((s + slashes).drop_last() =~= s + slashes.drop_last());
        lemma_end_slashes(s, slashes.drop_last());
    } else {
        assert(s + slashes =~= s);
    }
}

proof fn lemma_leading_slashes(slashes: Seq<char>, s: Seq<char>)
    requires
        s.len() > 0 ==> s[0] != '/',
        forall|i: int| 0 <= i < slashes.len() ==> #[trigger] slashes[i] == '/',
    ensures
        without_leading_slashes(slashes + s) == s,
    decreases slashes.len(),
{
    if slashes.len() > 0 {
        assert((slashes + s)[0] == slashes[0]);
        assert((slashes + s).drop_first() =~= slashes.drop_first() + s);
        lemma_leading_slashes(slashes.drop_first(), s);
    } else {
        assert(slashes + s =~= s);
    }
}

/// A request goes to the provider's endpoint: its URL is that of the endpoint's parts,
/// followed by what is kept of the path.
pub proof fn law_request_goes_to_the_endpoint(
    ep: crate::rewrite::EndpointUrl,
    endpoint: Seq<char>,
    path: Seq<char>,
)
    requires
        peer::parsed(endpoint) == Some(peer::parts_of(ep)),
    ensures
        upstream_url(endpoint, path) == rewrite::base_url(ep) + rewrite::kept(path),
{
}

} // verus!
