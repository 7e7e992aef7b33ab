//! What is known of a request while it passes through the gateway.

use vstd::prelude::*;

use crate::auth::AuthVerdict;
use crate::limit::{Attributes, MatchCtx};
use crate::model::{Candidate, ProviderKind, RouteError, Tenant, Usage};
use crate::rewrite::EndpointUrl;
use crate::rewrite;
use crate::sse::UsageScanner;

verus! {

/// The provider, endpoint and api-key of the current attempt.
#[derive(Debug)]
pub struct SelectedRoute {
    pub provider_id: String,
    pub endpoint: EndpointUrl,
    /// The provider's api-key, which takes the place of the client's.
    pub upstream_api_key: String,
}

impl Clone for SelectedRoute {
    fn clone(&self) -> (r: Self)
        ensures
            r == *self,
    {
        SelectedRoute {
            provider_id: self.provider_id.clone(),
            endpoint: self.endpoint.clone(),
            upstream_api_key: self.upstream_api_key.clone(),
        }
    }
}

/// The state of one request.
pub struct RequestContext {
    /// The tenant of the requested domain.
    pub tenant: Option<Tenant>,
    /// The api-key that the client sent.
    pub client_api_key: Option<String>,
    pub auth_verdict: Option<AuthVerdict>,
    /// The model that the request names. `None` where it names none.
    pub model_key: Option<String>,
    /// The request is not routed by model but goes to a provider of the tenant.
    pub passthrough: bool,
    /// The candidates, in the order in which they are tried.
    pub candidates: Vec<Candidate>,
    /// The candidate of the current attempt.
    pub cursor: usize,
    pub selected: Option<SelectedRoute>,
    /// The lengths of the body chunks that are kept for another attempt.
    pub body_buffer: Vec<usize>,
    /// How many bytes of the body have come.
    pub accumulated_bytes: u64,
    /// The body has outgrown what is kept, and cannot be sent again.
    pub body_too_large: bool,
    /// The body was refused as too large.
    pub hard_capped: bool,
    /// How many bytes the upstream has answered.
    pub upstream_bytes_seen: u64,
    /// The status that the upstream answered, or 0.
    pub status_code: u16,
    /// The host that was contacted.
    pub upstream_host: Option<String>,
    pub scanner: UsageScanner,
    pub usage: Option<Usage>,
    pub route_error: Option<RouteError>,
    /// Names the request in logs and in the response.
    pub trace_id: String,
}

/// The sum of the lengths.
pub open spec fn sum(lens: Seq<usize>) -> int
    decreases lens.len(),
{
    if lens.len() == 0 {
        0
    } else {
        sum(lens.drop_last()) + lens.last()
    }
}

/// `s` as the text it holds.
pub open spec fn text_view(s: Option<String>) -> Option<Seq<char>> {
    match s {
        Some(t) => Some(t@),
        None => None,
    }
}

/// `s` as the text it borrows.
pub open spec fn str_view(s: Option<&str>) -> Option<Seq<char>> {
    match s {
        Some(t) => Some(t@),
        None => None,
    }
}

impl RequestContext {
    /// A body that can be sent again is kept whole.
    pub open spec fn replay_is_whole(&self) -> bool {
        !self.body_too_large ==> sum(self.body_buffer@) == self.accumulated_bytes
    }

    /// What limit roles are matched by before a provider is known.
    pub open spec fn count_attributes(&self) -> Attributes {
        Attributes {
            api_key: self.masked(),
            model: text_view(self.model_key),
            tenant: match self.tenant {
                Some(t) => Some(t.id@),
                None => None,
            },
            provider: None,
        }
    }

    /// What limit roles are matched by once the provider is known.
    pub open spec fn token_attributes(&self) -> Attributes {
        Attributes {
            provider: match self.selected {
                Some(s) => Some(s.provider_id@),
                None => None,
            },
            ..self.count_attributes()
        }
    }

    /// The tokens that count against the token limits: the reported total, where it
    /// is above zero and tenant, provider and model are known.
    pub open spec fn billed(&self) -> Option<u64> {
        match self.usage {
            Some(u) => if u.total_tokens is Some && u.total_tokens->0 > 0 && self.tenant is Some
                && self.selected is Some && self.model_key is Some {
                u.total_tokens
            } else {
                None
            },
            None => None,
        }
    }

    /// The provider of the current attempt.
    pub open spec fn current(&self) -> Option<Seq<char>> {
        if self.cursor < self.candidates@.len() {
            Some(self.candidates@[self.cursor as int].provider_id@)
        } else {
            None
        }
    }

    /// The masked form of the client's api-key.
    pub open spec fn masked(&self) -> Option<Seq<char>> {
        match self.client_api_key {
            Some(k) => Some(rewrite::masked(k@)),
            None => None,
        }
    }

    /// A request of which nothing is known but its trace id.
    pub fn new(trace_id: String) -> (r: Self)
        ensures
            r.tenant is None,
            r.client_api_key is None,
            r.auth_verdict is None,
            r.model_key is None,
            !r.passthrough,
            r.candidates@ == Seq::<Candidate>::empty(),
            r.cursor == 0,
            r.selected is None,
            r.body_buffer@ == Seq::<usize>::empty(),
            r.accumulated_bytes == 0,
            !r.body_too_large,
            !r.hard_capped,
            r.upstream_bytes_seen == 0,
            r.status_code == 0,
            r.upstream_host is None,
            r.scanner@.provider == ProviderKind::Generic,
            r.scanner@.tail == Seq::<u8>::empty(),
            r.scanner@.usage == (Usage {
                prompt_tokens: None,
                completion_tokens: None,
                total_tokens: None,
                cached_tokens: None,
            }),
            !r.scanner@.seen_any,
            !r.scanner@.done,
            r.usage is None,
            r.route_error is None,
            r.trace_id == trace_id,
            r.replay_is_whole(),
    {
        RequestContext {
            tenant: None,
            client_api_key: None,
            auth_verdict: None,
            model_key: None,
            passthrough: false,
            candidates: Vec::new(),
            cursor: 0,
            selected: None,
            body_buffer: Vec::new(),
            accumulated_bytes: 0,
            body_too_large: false,
            hard_capped: false,
            upstream_bytes_seen: 0,
            status_code: 0,
            upstream_host: None,
            scanner: UsageScanner::new(ProviderKind::Generic),
            usage: None,
            route_error: None,
            trace_id,
        }
    }

    /// The provider of the current attempt.
    pub fn current_provider_id(&self) -> (r: Option<&str>)
        ensures
            str_view(r) == self.current(),
    {
        if self.cursor < self.candidates.len() {
            Some(self.candidates[self.cursor].provider_id.as_str())
        } else {
            None
        }
    }

    /// The masked form of the client's api-key.
    pub fn masked_key(&self) -> (r: Option<String>)
        ensures
            text_view(r) == self.masked(),
    {
        match &self.client_api_key {
            Some(k) => Some(rewrite::mask_key(k.as_str())),
            None => None,
        }
    }

    /// What limit roles are matched by before a provider is known. `masked` is
    /// the masked api-key.
    pub fn count_match<'a>(&'a self, masked: Option<&'a str>) -> (r: MatchCtx<'a>)
        ensures
            r@ == (Attributes { api_key: str_view(masked), ..self.count_attributes() }),
    {
        MatchCtx {
            api_key: masked,
            model: match &self.model_key {
                Some(m) => Some(m.as_str()),
                None => None,
            },
            tenant: match &self.tenant {
                Some(t) => Some(t.id.as_str()),
                None => None,
            },
            provider: None,
        }
    }

    /// What limit roles are matched by once the provider is known.
    pub fn token_match<'a>(&'a self, masked: Option<&'a str>) -> (r: MatchCtx<'a>)
        ensures
            r@ == (Attributes { api_key: str_view(masked), ..self.token_attributes() }),
    {
        let before = self.count_match(masked);
        MatchCtx {
            api_key: before.api_key,
            model: before.model,
            tenant: before.tenant,
            provider: match &self.selected {
                Some(s) => Some(s.provider_id.as_str()),
                None => None,
            },
        }
    }

    /// The tokens that count against the token limits: the reported total, where
    /// it is above zero and tenant, provider and model are known.
    pub fn billed_tokens(&self) -> (r: Option<u64>)
        ensures
            r == self.billed(),
    {
        let total: u64 = match self.usage {
            Some(u) => match u.total_tokens {
                Some(n) => n,
                None => 0,
            },
            None => 0,
        };
        if total > 0 && self.tenant.is_some() && self.selected.is_some()
            && self.model_key.is_some() {
            Some(total)
        } else {
            None
        }
    }
}

// ---------------------------------------------------------------------------
// Laws
// ---------------------------------------------------------------------------

/// Limit roles see the model, the tenant and the masked key of a request, and the
/// provider only once one is selected.
pub proof fn law_roles_see_the_request(ctx: RequestContext)
    ensures
        ctx.client_api_key is None ==> ctx.count_attributes().api_key is None,
        ctx.client_api_key matches Some(k) ==> ctx.count_attributes().api_key == Some(
            rewrite::masked(k@),
        ),
        ctx.model_key is None ==> ctx.count_attributes().model is None,
        ctx.model_key matches Some(m) ==> ctx.count_attributes().model == Some(m@),
        ctx.tenant is None ==> ctx.count_attributes().tenant is None,
        ctx.tenant matches Some(t) ==> ctx.count_attributes().tenant == Some(t.id@),
        ctx.count_attributes().provider is None,
        ctx.token_attributes().api_key == ctx.count_attributes().api_key,
        ctx.token_attributes().model == ctx.count_attributes().model,
        ctx.token_attributes().tenant == ctx.count_attributes().tenant,
        ctx.selected is None ==> ctx.token_attributes().provider is None,
        ctx.selected matches Some(s) ==> ctx.token_attributes().provider == Some(s.provider_id@),
{
}

/// A request is billed the total that its usage reports, and nothing only where there
/// is no such total or it is not known whose request it was.
pub proof fn law_reported_total_is_billed(ctx: RequestContext, n: u64)
    ensures
        ctx.billed() == Some(n) <==> {
            &&& n > 0
            &&& ctx.usage is Some && (ctx.usage->0).total_tokens == Some(n)
            &&& ctx.tenant is Some
            &&& ctx.selected is Some
            &&& ctx.model_key is Some
        },
{
}

/// The current provider is the one at the cursor, until the list is over.
pub proof fn law_current_is_at_the_cursor(ctx: RequestContext)
    ensures
        ctx.current() is Some <==> ctx.cursor < ctx.candidates@.len(),
        ctx.cursor < ctx.candidates@.len() ==> ctx.current() == Some(
            ctx.candidates@[ctx.cursor as int].provider_id@,
        ),
{
}

/// The kept chunks add up to the body: their lengths are summed.
pub proof fn law_lengths_add_up(lens: Seq<usize>)
    ensures
        sum(lens) == lens.fold_left(0, |n: int, len: usize| n + len),
    decreases lens.len(),
{
    if lens.len() > 0 {
        law_lengths_add_up(lens.drop_last());
    }
}

/// The kept chunks can be sent again as long as they are the whole body: either the body
/// grew too large to be kept, or as many bytes are kept as have come.
pub proof fn law_what_is_kept_is_what_came(ctx: RequestContext)
    ensures
        ctx.replay_is_whole() <==> ctx.body_too_large || ctx.body_buffer@.fold_left(
            0,
            |n: int, len: usize| n + len,
        ) == ctx.accumulated_bytes,
{
    law_lengths_add_up(ctx.body_buffer@);
}

} // verus!
