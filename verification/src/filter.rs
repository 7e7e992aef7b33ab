//! What happens to a request before it is sent: identified, allowed, routed.
//!
//! Each function takes what the shell has learnt and gives the next [`Action`].
//! The shell performs it and comes back with the outcome.

use vstd::prelude::*;

use crate::auth::{AuthVerdict, CacheSource};
use crate::config::ConfigData;
use crate::ctx::{str_view, text_view, RequestContext, SelectedRoute};
use crate::extract;
use crate::limit;
use crate::limit::{Tally, Windows};
use crate::model::{RouteError, Tenant};
use crate::peer;
use crate::proxy::{
    reason_of, route_error_reason, route_error_status, status_of, AppState, HydraProxy,
    NonRouteStrategy,
};
use crate::rewrite::EndpointUrl;
use crate::router;
use crate::scan;
use crate::swrr;
use crate::swrr::SwrrState;
use crate::text;

verus! {

/// What to do next with a request.
#[derive(Clone, Copy, Debug, PartialEq, Eq)]
pub enum Action {
    /// Answer with this status and error, and stop.
    Respond { status: u16, reason: &'static str, kind: &'static str },
    /// Ask the tenant's auth service about the client's key, and go on with
    /// [`HydraProxy::on_verdict`].
    CallAuth,
    /// Read the first chunk of the body, and go on with
    /// [`HydraProxy::on_first_chunk`].
    ReadFirstChunk,
    /// Look the running weights of the tenant and the model up, and go on with
    /// [`HydraProxy::order`].
    Order,
    /// Check the request-count limits, and go on with [`HydraProxy::on_count`].
    CheckCount,
    /// Send the request: go on with [`HydraProxy::upstream_peer`].
    Connect,
}

/// The request is answered with this error of the gateway.
pub open spec fn refused(action: Action, status: u16, reason: Seq<char>) -> bool {
    action matches Action::Respond { status: s, reason: r, kind: k } && s == status && r@ == reason
        && k@ == "proxy_error"@
}

/// The verdict denies with this status and reason.
pub open spec fn denied_as(v: AuthVerdict, status: u16, reason: Seq<char>) -> bool {
    v matches AuthVerdict::Denied { status: s, reason: w, .. } && s == status && w@ == reason
}

/// The request is answered with the status and the reason of the denial.
pub open spec fn answers(action: Action, v: AuthVerdict) -> bool {
    action matches Action::Respond { status: s, reason: w, kind: k } && denied_as(v, s, w@) && k@
        == "auth_error"@
}

pub(crate) fn refuse(status: u16, reason: &'static str) -> (r: Action)
    ensures
        refused(r, status, reason@),
{
    Action::Respond { status, reason, kind: "proxy_error" }
}

/// The domain that a `Host` names: without the port, in lower case. A missing
/// one is `localhost`.
pub open spec fn domain_of(host: Seq<char>) -> Seq<char> {
    let name = match scan::find(host, seq![':']) {
        Some(i) => host.take(i),
        None => host,
    };
    if name.len() == 0 {
        "localhost"@
    } else {
        text::lower(name)
    }
}

/// The tenant of a `Host`.
pub open spec fn tenant_of(cfg: ConfigData, host: Seq<char>) -> Option<Tenant> {
    if cfg.tenants_by_domain@.contains_key(domain_of(host)) {
        Some(cfg.tenants_by_domain@[domain_of(host)])
    } else {
        None
    }
}

/// The client's api-key: what follows `Bearer` in `Authorization`, or else a
/// non-empty `x-api-key`.
pub open spec fn client_key(authorization: Option<Seq<char>>, x_api_key: Option<Seq<char>>) -> Option<
    Seq<char>,
> {
    if authorization is Some && (text::begins(authorization->0, "Bearer "@) || text::begins(
        authorization->0,
        "bearer "@,
    )) {
        Some((authorization->0).skip(7))
    } else if x_api_key is Some && (x_api_key->0).len() > 0 {
        x_api_key
    } else {
        None
    }
}

/// The request may have a body that names a model.
pub open spec fn names_model(method: Seq<char>, path: Seq<char>) -> bool {
    (method == "POST"@ || method == "PUT"@ || method == "PATCH"@) && text::begins(path, "/v1/"@)
}

/// The provider can take a request: it is known, alive and not soft-disabled, has
/// an api-key and an endpoint that can be read.
pub open spec fn takes_requests(state: AppState, id: Seq<char>) -> bool {
    let cfg = state.store;
    &&& !state.breaker@.dead.contains(id)
    &&& cfg.providers@.contains_key(id)
    &&& cfg.providers@[id].weight > 0
    &&& cfg.provider_keys@.contains_key(id)
    &&& cfg.provider_keys@[id]@.len() > 0
    &&& peer::parsed(cfg.providers@[id].endpoint@) is Some
}

/// `id` is the first, in the order of ids, that can take a request.
pub open spec fn first_taker(state: AppState, ids: Seq<String>, id: Seq<char>) -> bool {
    &&& router::lists(ids, id)
    &&& takes_requests(state, id)
    &&& forall|i: int|
        0 <= i < ids.len() && takes_requests(state, (#[trigger] ids[i])@) ==> !text::precedes(
            ids[i]@,
            id,
        )
}

/// None of `ids` can take a request.
pub open spec fn no_taker(state: AppState, ids: Seq<String>) -> bool {
    forall|i: int| 0 <= i < ids.len() ==> !takes_requests(state, (#[trigger] ids[i])@)
}

/// The endpoint is the provider's.
pub open spec fn endpoint_of(cfg: ConfigData, id: Seq<char>, ep: EndpointUrl) -> bool {
    peer::parsed(cfg.providers@[id].endpoint@) == Some(peer::parts_of(ep))
}

/// One of the keys is `s`.
pub open spec fn key_of(cfg: ConfigData, id: Seq<char>, s: Seq<char>) -> bool {
    cfg.provider_keys@.contains_key(id) && router::lists(cfg.provider_keys@[id]@, s)
}

/// Calls `rand::seq::SliceRandom::choose` with `rand::thread_rng()`: it gives
/// one of the keys, at random, and nothing only where there is none.
#[verifier::external_body]
pub(crate) fn random_key(keys: &[String]) -> (r: Option<&String>)
    ensures
        match r {
            Some(k) => router::lists(keys@, k@),
            None => keys@.len() == 0,
        },
{
    rand::seq::SliceRandom::choose(keys, &mut rand::thread_rng())
}

/// The text that bytes stand for, with what is not UTF-8 replaced: what
/// `String::from_utf8_lossy` gives.
pub uninterp spec fn utf8_lossy(b: Seq<u8>) -> Seq<char>;

/// Calls `String::from_utf8_lossy`. The result is what [`utf8_lossy`] names;
/// of bytes that are UTF-8 it is the text that they encode.
#[verifier::external_body]
fn lossy_text(b: &[u8]) -> (r: String)
    ensures
        r@ == utf8_lossy(b@),
        vstd::utf8::valid_utf8(b@) ==> r@ == vstd::utf8::decode_utf8(b@),
{
    String::from_utf8_lossy(b).into_owned()
}

/// The model that the first chunk of a body names.
pub open spec fn model_named(chunk: Option<Seq<u8>>) -> Option<Seq<char>> {
    match chunk {
        Some(c) => match extract::model_value(c) {
            Some(m) => Some(utf8_lossy(m)),
            None => None,
        },
        None => None,
    }
}

/// `s` as the bytes it borrows.
pub open spec fn bytes_view(s: Option<&[u8]>) -> Option<Seq<u8>> {
    match s {
        Some(b) => Some(b@),
        None => None,
    }
}

// ---------------------------------------------------------------------------
// The steps
// ---------------------------------------------------------------------------

/// The outcome of identifying a request. An unknown domain, a disabled tenant
/// and a missing key are refused. A tenant without an auth service denies every
/// request.
pub open spec fn identified(
    cfg: ConfigData,
    before: RequestContext,
    host: Seq<char>,
    authorization: Option<Seq<char>>,
    x_api_key: Option<Seq<char>>,
    after: RequestContext,
    action: Action,
) -> bool {
    match tenant_of(cfg, host) {
        None => refused(action, 404, "unknown_domain"@) && after == before,
        Some(t) => {
            let known = RequestContext { tenant: Some(t), ..before };
            if !t.enabled {
                refused(action, 403, "tenant_disabled"@) && after == known
            } else {
                match client_key(authorization, x_api_key) {
                    None => refused(action, 401, "missing_api_key"@) && after == known,
                    Some(k) => {
                        let keyed = RequestContext {
                            client_api_key: after.client_api_key,
                            ..known
                        };
                        &&& text_view(after.client_api_key) == Some(k)
                        &&& if t.auth_url@.len() == 0 {
                            &&& after.auth_verdict matches Some(v) && denied_as(
                                v,
                                401,
                                "no_auth_url"@,
                            ) && v.came_from() == CacheSource::Local && answers(action, v)
                            &&& after == (RequestContext {
                                auth_verdict: after.auth_verdict,
                                ..keyed
                            })
                        } else {
                            action == Action::CallAuth && after == keyed
                        }
                    },
                }
            }
        },
    }
}

/// The outcome of routing a request by its tenant and its model.
pub open spec fn routed(
    gw: HydraProxy,
    before: RequestContext,
    after: RequestContext,
    action: Action,
) -> bool {
    match router::resolved(
        gw.state.store,
        gw.state.breaker,
        before.tenant->0,
        (before.model_key->0)@,
    ) {
        Ok(ms) => {
            &&& action == Action::Order
            &&& router::candidates_for(gw.state.store, after.candidates@, ms)
            &&& after == (RequestContext { candidates: after.candidates, ..before })
        },
        Err(e) => refused(action, status_of(e), reason_of(e)) && after == (RequestContext {
            route_error: Some(e),
            ..before
        }),
    }
}

/// The outcome of passing a request through to a provider of its tenant. Where
/// none can take it, the routing failure is noted and nothing is selected; the
/// request then ends where it is sent.
pub open spec fn passed_through(
    state: AppState,
    before: RequestContext,
    after: RequestContext,
    action: Action,
) -> bool {
    let cfg = state.store;
    let id = (before.tenant->0).id@;
    let known = cfg.tenant_providers@.contains_key(id);
    let ids = cfg.tenant_providers@[id]@;
    &&& action == Action::Connect
    &&& if known && !no_taker(state, ids) {
        &&& after.selected matches Some(sel) && first_taker(state, ids, sel.provider_id@)
            && endpoint_of(cfg, sel.provider_id@, sel.endpoint) && key_of(
            cfg,
            sel.provider_id@,
            sel.upstream_api_key@,
        ) && text_view(after.upstream_host) == Some(sel.endpoint.host@)
        &&& after == (RequestContext {
            selected: after.selected,
            upstream_host: after.upstream_host,
            ..before
        })
    } else {
        after == (RequestContext {
            route_error: Some(RouteError::NoAvailableProvider),
            ..before
        })
    }
}

/// The outcome of taking the model that a request names. Without one the request
/// is refused or passed through, as the policy says.
pub open spec fn modelled(
    gw: HydraProxy,
    before: RequestContext,
    model: Option<Seq<char>>,
    after: RequestContext,
    action: Action,
) -> bool {
    match model {
        Some(m) => text_view(after.model_key) == Some(m) && routed(
            gw,
            RequestContext { model_key: after.model_key, ..before },
            after,
            action,
        ),
        None => match gw.state.proxy.non_route_strategy {
            NonRouteStrategy::Reject => refused(action, 400, "no_model_field"@) && after == before,
            NonRouteStrategy::Passthrough => passed_through(
                gw.state,
                RequestContext { passthrough: true, model_key: None, ..before },
                after,
                action,
            ),
        },
    }
}

/// The outcome of reading the first chunk of the body. One that is by itself too
/// large is refused.
pub open spec fn chunk_read(
    gw: HydraProxy,
    before: RequestContext,
    chunk: Option<Seq<u8>>,
    after: RequestContext,
    action: Action,
) -> bool {
    if chunk is Some && (chunk->0).len() > gw.state.proxy.max_request_body_hard {
        refused(action, 413, "request_body_too_large"@) && after == (RequestContext {
            hard_capped: true,
            ..before
        })
    } else {
        modelled(gw, before, model_named(chunk), after, action)
    }
}

/// The outcome of a verdict of the auth service. A denial is answered with its
/// own status and reason. The body is read only where it may name a model.
pub open spec fn judged(
    gw: HydraProxy,
    before: RequestContext,
    verdict: AuthVerdict,
    method: Seq<char>,
    path: Seq<char>,
    after: RequestContext,
    action: Action,
) -> bool {
    let noted = RequestContext { auth_verdict: Some(verdict), ..before };
    match verdict {
        AuthVerdict::Denied { .. } => answers(action, verdict) && after == noted,
        AuthVerdict::Allowed { .. } => if names_model(method, path) {
            action == Action::ReadFirstChunk && after == noted
        } else {
            chunk_read(gw, noted, None, after, action)
        },
    }
}

impl HydraProxy {
    /// The tenant of a `Host`.
    pub fn resolve_tenant(cfg: &ConfigData, host: &str) -> (r: Option<Tenant>)
        ensures
            r == tenant_of(*cfg, host@),
    {
        let chars = text::chars_of(host);
        let mut end: usize = 0;
        while end < chars.len() && chars[end] != ':'
            invariant
                end <= chars@.len(),
                forall|k: int| 0 <= k < end ==> chars@[k] != ':',
            decreases chars@.len() - end,
        {
            end = end + 1;
        }
        proof {
            scan::lemma_find_one(host@, ':');
            assert(host@.take(end as int) =~= chars@.subrange(0, end as int));
            if end == chars@.len() {
                assert(host@.take(end as int) =~= host@);
            }
        }
        let domain = if end == 0 {
            "localhost".to_string()
        } else {
            text::lower_text_of(chars.as_slice(), 0, end)
        };
        match cfg.tenants_by_domain.get(domain.as_str()) {
            Some(t) => Some(t.clone()),
            None => None,
        }
    }

    /// The client's api-key.
    pub fn extract_api_key(authorization: Option<&str>, x_api_key: Option<&str>) -> (r: Option<
        String,
    >)
        ensures
            text_view(r) == client_key(str_view(authorization), str_view(x_api_key)),
    {
        if let Some(auth) = authorization {
            let chars = text::chars_of(auth);
            if text::starts_with(chars.as_slice(), "Bearer ") || text::starts_with(
                chars.as_slice(),
                "bearer ",
            ) {
                proof {
                    reveal_strlit("Bearer ");
                    reveal_strlit("bearer ");
                    assert(chars@.subrange(7, chars@.len() as int) =~= auth@.skip(7));
                }
                return Some(text::text_of(chars.as_slice(), 7, chars.len()));
            }
        }
        if let Some(k) = x_api_key {
            if !k.is_empty() {
                return Some(k.to_string());
            }
        }
        None
    }

    /// Finds the tenant and the client's key.
    pub fn identify(
        &self,
        ctx: &mut RequestContext,
        host: &str,
        authorization: Option<&str>,
        x_api_key: Option<&str>,
    ) -> (r: Action)
        ensures
            identified(
                self.state.store,
                *old(ctx),
                host@,
                str_view(authorization),
                str_view(x_api_key),
                *final(ctx),
                r,
            ),
    {
        let tenant = match Self::resolve_tenant(&self.state.store, host) {
            Some(t) => t,
            None => {
                return refuse(404, "unknown_domain");
            },
        };
        let enabled = tenant.enabled;
        let has_auth = !tenant.auth_url.as_str().is_empty();
        ctx.tenant = Some(tenant);
        if !enabled {
            return refuse(403, "tenant_disabled");
        }
        match Self::extract_api_key(authorization, x_api_key) {
            Some(k) => {
                ctx.client_api_key = Some(k);
                if has_auth {
                    return Action::CallAuth;
                }
                let verdict = AuthVerdict::Denied {
                    status: 401,
                    reason: "no_auth_url",
                    source: CacheSource::Local,
                };
                ctx.auth_verdict = Some(verdict);
                Action::Respond { status: 401, reason: "no_auth_url", kind: "auth_error" }
            },
            None => refuse(401, "missing_api_key"),
        }
    }

    /// Takes the verdict of the auth service.
    pub fn on_verdict(
        &self,
        ctx: &mut RequestContext,
        verdict: AuthVerdict,
        method: &str,
        path: &str,
    ) -> (r: Action)
        requires
            old(ctx).tenant is Some,
        ensures
            judged(*self, *old(ctx), verdict, method@, path@, *final(ctx), r),
    {
        ctx.auth_verdict = Some(verdict.clone());
        match verdict {
            AuthVerdict::Denied { status, reason, .. } => Action::Respond {
                status,
                reason,
                kind: "auth_error",
            },
            AuthVerdict::Allowed { .. } => if self.wants_first_chunk(method, path) {
                Action::ReadFirstChunk
            } else {
                self.on_first_chunk(ctx, None)
            },
        }
    }

    /// Whether the first chunk of the body is read to find the model.
    pub fn wants_first_chunk(&self, method: &str, path: &str) -> (r: bool)
        ensures
            r == names_model(method@, path@),
    {
        let chars = text::chars_of(path);
        (text::same(method, "POST") || text::same(method, "PUT") || text::same(method, "PATCH"))
            && text::starts_with(chars.as_slice(), "/v1/")
    }

    /// Looks for the model in the first chunk of the body.
    pub fn on_first_chunk(&self, ctx: &mut RequestContext, chunk: Option<&[u8]>) -> (r: Action)
        requires
            old(ctx).tenant is Some,
        ensures
            chunk_read(*self, *old(ctx), bytes_view(chunk), *final(ctx), r),
    {
        let model = match chunk {
            Some(c) => {
                if c.len() as u64 > self.state.proxy.max_request_body_hard {
                    ctx.hard_capped = true;
                    return refuse(413, "request_body_too_large");
                }
                match extract::extract_model(c) {
                    Some(m) => Some(lossy_text(m)),
                    None => None,
                }
            },
            None => None,
        };
        self.on_model(ctx, model)
    }

    /// Takes the model that the request names.
    pub fn on_model(&self, ctx: &mut RequestContext, model: Option<String>) -> (r: Action)
        requires
            old(ctx).tenant is Some,
        ensures
            modelled(*self, *old(ctx), text_view(model), *final(ctx), r),
    {
        match model {
            Some(m) => {
                ctx.model_key = Some(m);
                self.route(ctx)
            },
            None => match self.state.proxy.non_route_strategy {
                NonRouteStrategy::Reject => refuse(400, "no_model_field"),
                NonRouteStrategy::Passthrough => {
                    ctx.passthrough = true;
                    ctx.model_key = None;
                    self.select_passthrough(ctx)
                },
            },
        }
    }

    /// Finds the candidates for the tenant and the model.
    pub fn route(&self, ctx: &mut RequestContext) -> (r: Action)
        requires
            old(ctx).tenant is Some,
            old(ctx).model_key is Some,
        ensures
            routed(*self, *old(ctx), *final(ctx), r),
    {
        let found = match (&ctx.tenant, &ctx.model_key) {
            (Some(t), Some(m)) => router::resolve(
                &self.state.store,
                &self.state.breaker,
                t,
                m.as_str(),
            ),
            _ => Err(RouteError::ModelNotFound),
        };
        match found {
            Ok(c) => {
                ctx.candidates = c;
                Action::Order
            },
            Err(e) => {
                ctx.route_error = Some(e);
                refuse(route_error_status(e), route_error_reason(e))
            },
        }
    }

    /// Puts the candidates in the order in which they are tried: one round over
    /// the running weights of the tenant and the model.
    pub fn order(&self, ctx: &mut RequestContext, weights: &mut SwrrState) -> (r: Action)
        requires
            swrr::fits(old(ctx).candidates@, old(weights)@),
        ensures
            r == Action::CheckCount,
            swrr::ordered(
                old(ctx).candidates@,
                old(weights)@,
                final(ctx).candidates@,
                final(weights)@,
            ),
            *final(ctx) == (RequestContext { candidates: final(ctx).candidates, ..*old(ctx) }),
    {
        swrr::order(ctx.candidates.as_mut_slice(), weights);
        Action::CheckCount
    }

    /// Takes the verdict of the request-count limits.
    pub fn on_count(&self, denied: bool) -> (r: Action)
        ensures
            if denied {
                refused(r, 429, "rate_limited"@)
            } else {
                r == Action::Connect
            },
    {
        if denied {
            refuse(429, "rate_limited")
        } else {
            Action::Connect
        }
    }

    /// Holds the request against the limits at `now`, in milliseconds. A request that
    /// a role refuses is answered, with the place of the first such role; any other
    /// one is counted and goes on.
    pub fn check_count(&self, ctx: &RequestContext, windows: &mut Windows, now: u64) -> (r: (
        Action,
        Option<usize>,
    ))
        ensures
            ({
                let roles = self.state.store.limit_roles@;
                let before = limit::states(old(windows)@);
                let a = ctx.count_attributes();
                match r.1 {
                    Some(i) => {
                        &&& i < roles.len()
                        &&& limit::refuses(before, roles[i as int], a, now)
                        &&& forall|k: int|
                            0 <= k < i ==> !limit::refuses(before, #[trigger] roles[k], a, now)
                        &&& refused(r.0, 429, "rate_limited"@)
                        &&& final(windows)@ == old(windows)@
                    },
                    None => {
                        &&& !limit::any_refuses(before, roles, a, now)
                        &&& r.0 == Action::Connect
                        &&& limit::states(final(windows)@) == limit::tallied(
                            before,
                            roles,
                            a,
                            Tally::Request,
                            now,
                        )
                    },
                }
            }),
    {
        let masked = ctx.masked_key();
        let key = match &masked {
            Some(k) => Some(k.as_str()),
            None => None,
        };
        let place = limit::let_in(
            windows,
            self.state.store.limit_roles.as_slice(),
            &ctx.count_match(key),
            now,
        );
        (self.on_count(place.is_some()), place)
    }

    /// The provider that takes a request that is passed through: the first, in
    /// the order of ids, of the tenant's that can. Where there is none, why.
    pub fn passthrough_target(&self, tenant_id: &str) -> (r: Result<
        (String, EndpointUrl),
        &'static str,
    >)
        ensures
            ({
                let cfg = self.state.store;
                if !cfg.tenant_providers@.contains_key(tenant_id@) {
                    r matches Err(e) && e@ == "no_provider_for_tenant"@
                } else {
                    let ids = cfg.tenant_providers@[tenant_id@]@;
                    match r {
                        Ok(t) => first_taker(self.state, ids, t.0@) && endpoint_of(cfg, t.0@, t.1),
                        Err(e) => no_taker(self.state, ids) && e@ == "no_live_provider"@,
                    }
                }
            }),
    {
        let cfg = &self.state.store;
        let ids = match cfg.tenant_providers.get(tenant_id) {
            Some(ids) => ids,
            None => {
                return Err("no_provider_for_tenant");
            },
        };
        let mut best: Option<(usize, EndpointUrl)> = None;
        let mut i: usize = 0;
        while i < ids.len()
            invariant
                i <= ids@.len(),
                *cfg == self.state.store,
                match best {
                    Some(b) => {
                        &&& b.0 < i
                        &&& takes_requests(self.state, ids@[b.0 as int]@)
                        &&& endpoint_of(*cfg, ids@[b.0 as int]@, b.1)
                        &&& forall|k: int|
                            0 <= k < i && takes_requests(self.state, (#[trigger] ids@[k])@)
                                ==> !text::precedes(ids@[k]@, ids@[b.0 as int]@)
                    },
                    None => forall|k: int|
                        0 <= k < i ==> !takes_requests(self.state, (#[trigger] ids@[k])@),
                },
            decreases ids@.len() - i,
        {
            let id = ids[i].as_str();
            if let Some(ep) = self.taker_endpoint(id) {
                let better = match &best {
                    Some(b) => text::comes_before(id, ids[b.0].as_str()),
                    None => true,
                };
                proof {
                    if better {
                        assert forall|k: int|
                            0 <= k <= i && takes_requests(
                                self.state,
                                (#[trigger] ids@[k])@,
                            ) implies !text::precedes(ids@[k]@, ids@[i as int]@) by {
                            if text::precedes(ids@[k]@, ids@[i as int]@) {
                                if k == i {
                                    lemma_precedes_irreflexive(ids@[k]@);
                                } else if best is Some {
                                    text::lemma_less_transitive(
                                        vstd::utf8::encode_utf8(ids@[k]@),
                                        vstd::utf8::encode_utf8(ids@[i as int]@),
                                        vstd::utf8::encode_utf8(
                                            ids@[(best->0).0 as int]@,
                                        ),
                                    );
                                }
                            }
                        }
                    }
                }
                if better {
                    best = Some((i, ep));
                }
            }
            i = i + 1;
        }
        match best {
            Some(b) => {
                assert(router::lists(ids@, ids@[b.0 as int]@));
                Ok((ids[b.0].clone(), b.1))
            },
            None => Err("no_live_provider"),
        }
    }

    /// The endpoint of a provider that can take a request.
    fn taker_endpoint(&self, id: &str) -> (r: Option<EndpointUrl>)
        ensures
            match r {
                Some(ep) => takes_requests(self.state, id@) && endpoint_of(
                    self.state.store,
                    id@,
                    ep,
                ),
                None => !takes_requests(self.state, id@),
            },
    {
        let cfg = &self.state.store;
        if self.state.breaker.is_dead(id) {
            return None;
        }
        let provider = match cfg.providers.get(id) {
            Some(p) => p,
            None => {
                return None;
            },
        };
        if provider.weight <= 0 {
            return None;
        }
        match cfg.provider_keys.get(id) {
            Some(keys) => if keys.len() == 0 {
                None
            } else {
                peer::parse_endpoint(provider.endpoint.as_str())
            },
            None => None,
        }
    }

    /// Selects the provider for a request that is passed through, with one of
    /// its keys, at random. Where none can take it, the routing failure is noted.
    pub fn select_passthrough(&self, ctx: &mut RequestContext) -> (r: Action)
        requires
            old(ctx).tenant is Some,
        ensures
            passed_through(self.state, *old(ctx), *final(ctx), r),
    {
        let found = match &ctx.tenant {
            Some(t) => self.passthrough_target(t.id.as_str()),
            None => Err("no_provider_for_tenant"),
        };
        match found {
            Ok((id, endpoint)) => {
                if let Some(keys) = self.state.store.provider_keys.get(id.as_str()) {
                    if let Some(key) = random_key(keys.as_slice()) {
                        Self::select(ctx, id, endpoint, key.clone());
                    }
                }
            },
            Err(_) => {
                ctx.route_error = Some(RouteError::NoAvailableProvider);
            },
        }
        Action::Connect
    }

    /// Notes provider, endpoint and key of the current attempt.
    pub fn select(ctx: &mut RequestContext, provider_id: String, endpoint: EndpointUrl, key: String)
        ensures
            final(ctx).selected == Some(
                SelectedRoute { provider_id, endpoint, upstream_api_key: key },
            ),
            text_view(final(ctx).upstream_host) == Some(endpoint.host@),
            *final(ctx) == (RequestContext {
                selected: final(ctx).selected,
                upstream_host: final(ctx).upstream_host,
                ..*old(ctx)
            }),
    {
        ctx.upstream_host = Some(endpoint.host.clone());
        ctx.selected = Some(SelectedRoute { provider_id, endpoint, upstream_api_key: key });
    }
}

proof fn lemma_precedes_irreflexive(s: Seq<char>)
    ensures
        !text::precedes(s, s),
{
    lemma_less_irreflexive(vstd::utf8::encode_utf8(s));
}

proof fn lemma_less_irreflexive(b: Seq<u8>)
    ensures
        !text::bytes_less(b, b),
    decreases b.len(),
{
    if b.len() > 0 {
        lemma_less_irreflexive(b.drop_first());
    }
}

// ---------------------------------------------------------------------------
// Laws
// ---------------------------------------------------------------------------

/// Neither the port nor the letter case of a `Host` changes the tenant.
pub proof fn law_port_and_case_make_no_difference(name: Seq<char>, port: Seq<char>)
    requires
        peer::lacks(name, ':'),
    ensures
        domain_of(name + seq![':'] + port) == domain_of(name),
        domain_of(text::lower(name)) == domain_of(name),
{
    let host = name + seq![':'] + port;
    scan::lemma_find_one(host, ':');
    scan::lemma_find_one(name, ':');
    assert(host[name.len() as int] == ':');
    assert forall|i: int| 0 <= i < name.len() implies host[i] != ':' by {
        assert(host[i] == name[i]);
    }
    assert(host.take(name.len() as int) =~= name);
    let low = text::lower(name);
    assert forall|i: int| 0 <= i < low.len() implies low[i] != ':' by {
        assert(low[i] == text::lower_char(name[i]));
    }
    scan::lemma_find_one(low, ':');
    assert(text::lower(low) =~= low);
}

/// A request gets as far as its candidates only where its domain belongs to an
/// enabled tenant, it carries a key, the auth service allows it, and the tenant
/// may use the model. Every candidate then serves the model, may be used by the
/// tenant, is alive and has an api-key.
pub proof fn law_only_the_allowed_are_routed(
    gw: HydraProxy,
    start: RequestContext,
    host: Seq<char>,
    authorization: Option<Seq<char>>,
    x_api_key: Option<Seq<char>>,
    known: RequestContext,
    verdict: AuthVerdict,
    method: Seq<char>,
    path: Seq<char>,
    allowed: RequestContext,
    chunk: Option<Seq<u8>>,
    end: RequestContext,
)
    requires
        identified(
            gw.state.store,
            start,
            host,
            authorization,
            x_api_key,
            known,
            Action::CallAuth,
        ),
        judged(gw, known, verdict, method, path, allowed, Action::ReadFirstChunk),
        chunk_read(gw, allowed, chunk, end, Action::Order),
    ensures
        end.tenant == tenant_of(gw.state.store, host),
        end.tenant matches Some(t) && t.enabled,
        text_view(end.client_api_key) == client_key(authorization, x_api_key),
        end.client_api_key is Some,
        (end.tenant->0).auth_url@.len() > 0,
        verdict is Allowed,
        text_view(end.model_key) == model_named(chunk),
        end.model_key matches Some(m) && router::model_allowed(
            gw.state.store,
            end.tenant->0,
            m@,
        ),
        end.candidates@.len() > 0,
        forall|i: int|
            0 <= i < end.candidates@.len() ==> {
                let id = (#[trigger] end.candidates@[i]).provider_id@;
                &&& router::served_by(gw.state.store, (end.model_key->0)@, id)
                &&& router::lists(router::granted(gw.state.store, end.tenant->0), id)
                &&& gw.state.store.providers@.contains_key(id)
                &&& !gw.state.breaker@.dead.contains(id)
                &&& gw.state.store.provider_keys@[id]@.len() > 0
            },
{
    let t = end.tenant->0;
    let m = (end.model_key->0)@;
    router::law_candidates_qualify(gw.state.store, gw.state.breaker, t, m);
    let ms = router::resolved(gw.state.store, gw.state.breaker, t, m)->Ok_0;
    assert forall|i: int| 0 <= i < end.candidates@.len() implies {
        let id = (#[trigger] end.candidates@[i]).provider_id@;
        &&& router::served_by(gw.state.store, m, id)
        &&& router::lists(router::granted(gw.state.store, t), id)
        &&& gw.state.store.providers@.contains_key(id)
        &&& !gw.state.breaker@.dead.contains(id)
        &&& gw.state.store.provider_keys@[id]@.len() > 0
    } by {
        assert(router::live(gw.state.store, gw.state.breaker, t, ms[i]));
        assert(router::keyed(gw.state.store, ms[i]));
        let serving = router::serving(gw.state.store, m);
        let k = choose|k: int| 0 <= k < serving.len() && serving[k] == ms[i];
        assert(serving[k].provider_id@ == end.candidates@[i].provider_id@);
    }
}

/// A request is passed through only where its domain belongs to an enabled
/// tenant, it carries a key, the auth service allows it, and the policy passes
/// requests without a model through. It then goes to a provider that is granted to
/// the tenant and alive; where there is none, the failure is noted.
pub proof fn law_only_the_allowed_pass_through(
    gw: HydraProxy,
    start: RequestContext,
    host: Seq<char>,
    authorization: Option<Seq<char>>,
    x_api_key: Option<Seq<char>>,
    known: RequestContext,
    verdict: AuthVerdict,
    method: Seq<char>,
    path: Seq<char>,
    allowed: RequestContext,
    chunk: Option<Seq<u8>>,
    end: RequestContext,
)
    requires
        start.selected is None,
        identified(
            gw.state.store,
            start,
            host,
            authorization,
            x_api_key,
            known,
            Action::CallAuth,
        ),
        judged(gw, known, verdict, method, path, end, Action::Connect) || judged(
            gw,
            known,
            verdict,
            method,
            path,
            allowed,
            Action::ReadFirstChunk,
        ) && chunk_read(gw, allowed, chunk, end, Action::Connect),
    ensures
        end.tenant == tenant_of(gw.state.store, host),
        end.tenant matches Some(t) && t.enabled,
        end.client_api_key is Some,
        (end.tenant->0).auth_url@.len() > 0,
        verdict is Allowed,
        gw.state.proxy.non_route_strategy == NonRouteStrategy::Passthrough,
        end.passthrough,
        match end.selected {
            Some(sel) => router::lists(
                router::granted(gw.state.store, end.tenant->0),
                sel.provider_id@,
            ) && !gw.state.breaker@.dead.contains(sel.provider_id@),
            None => end.route_error == Some(RouteError::NoAvailableProvider),
        },
{
}

/// An `x-api-key` counts wherever `Authorization` is missing or is no bearer
/// credential, and a bearer credential counts whatever `x-api-key` is.
pub proof fn law_key_comes_from_either_header(
    authorization: Option<Seq<char>>,
    x_api_key: Option<Seq<char>>,
    k: Seq<char>,
)
    requires
        authorization matches Some(a) ==> a.len() < 7 || a.take(7) != seq![
            'B',
            'e',
            'a',
            'r',
            'e',
            'r',
            ' ',
        ] && a.take(7) != seq!['b', 'e', 'a', 'r', 'e', 'r', ' '],
    ensures
        k.len() > 0 ==> client_key(authorization, Some(k)) == Some(k),
        client_key(authorization, None) is None,
        client_key(authorization, Some(Seq::empty())) is None,
        client_key(Some(seq!['B', 'e', 'a', 'r', 'e', 'r', ' '] + k), x_api_key) == Some(k),
        client_key(Some(seq!['b', 'e', 'a', 'r', 'e', 'r', ' '] + k), x_api_key) == Some(k),
{
    reveal_strlit("Bearer ");
    reveal_strlit("bearer ");
    assert("Bearer "@ =~= seq!['B', 'e', 'a', 'r', 'e', 'r', ' ']);
    assert("bearer "@ =~= seq!['b', 'e', 'a', 'r', 'e', 'r', ' ']);
    assert(("Bearer "@ + k).take(7) =~= "Bearer "@);
    assert(("Bearer "@ + k).skip(7) =~= k);
    assert(("bearer "@ + k).take(7) =~= "bearer "@);
    assert(("bearer "@ + k).skip(7) =~= k);
}

/// A domain in lower case is looked up as it is. Where none is given, the tenant is
/// that of `localhost`.
pub proof fn law_domain_is_looked_up(cfg: ConfigData, name: Seq<char>, port: Seq<char>)
    requires
        forall|i: int|
            0 <= i < name.len() ==> #[trigger] name[i] != ':' && !('A' <= name[i] <= 'Z'),
    ensures
        ({
            let domain = if name.len() == 0 {
                "localhost"@
            } else {
                name
            };
            let found = if cfg.tenants_by_domain@.contains_key(domain) {
                Some(cfg.tenants_by_domain@[domain])
            } else {
                None
            };
            tenant_of(cfg, name) == found && tenant_of(cfg, name + seq![':'] + port) == found
        }),
{
    lemma_host_name(name, port);
    assert(text::lower(name) =~= name);
}

proof fn lemma_host_name(name: Seq<char>, port: Seq<char>)
    requires
        forall|i: int| 0 <= i < name.len() ==> #[trigger] name[i] != ':',
    ensures
        scan::find(name, seq![':']) is None,
        scan::find(name + seq![':'] + port, seq![':']) == Some(name.len() as int),
        (name + seq![':'] + port).take(name.len() as int) == name,
{
    let host = name + seq![':'] + port;
    let n = name.len() as int;
    scan::lemma_find(name, seq![':']);
    if let Some(i) = scan::find(name, seq![':']) {
        scan::lemma_occurs_one(name, ':', i);
    }
    assert(host[n] == ':');
    scan::lemma_occurs_one(host, ':', n);
    assert forall|j: int| 0 <= j < n implies !scan::occurs_at(host, seq![':'], j) by {
        scan::lemma_occurs_one(host, ':', j);
        assert(host[j] == name[j]);
    }
    scan::lemma_find_first(host, seq![':'], n);
    assert(host.take(n) =~= name);
}

/// Hosts that differ only in the case of their letters name one tenant.
pub proof fn law_case_of_the_host_does_not_matter(
    cfg: ConfigData,
    a: Seq<char>,
    b: Seq<char>,
)
    requires
        a.len() == b.len(),
        forall|i: int|
            0 <= i < a.len() ==> (#[trigger] a[i] == b[i] || 'A' <= a[i] <= 'Z' && b[i] as int
                == a[i] as int + 32),
    ensures
        tenant_of(cfg, a) == tenant_of(cfg, b),
{
    scan::lemma_find_one(a, ':');
    scan::lemma_find_one(b, ':');
    assert forall|i: int| 0 <= i < a.len() implies (a[i] == ':' <==> b[i] == ':') by {
        assert(a[i] == b[i] || 'A' <= a[i] <= 'Z' && b[i] as int == a[i] as int + 32);
    }
    let x = match scan::find(a, seq![':']) {
        Some(i) => a.take(i),
        None => a,
    };
    let y = match scan::find(b, seq![':']) {
        Some(i) => b.take(i),
        None => b,
    };
    if let (Some(i), Some(j)) = (scan::find(a, seq![':']), scan::find(b, seq![':'])) {
        if i < j {
            assert(a[i] == ':' <==> b[i] == ':');
        } else if j < i {
            assert(a[j] == ':' <==> b[j] == ':');
        }
    } else if let Some(i) = scan::find(a, seq![':']) {
        assert(a[i] == ':' <==> b[i] == ':');
    } else if let Some(j) = scan::find(b, seq![':']) {
        assert(a[j] == ':' <==> b[j] == ':');
    }
    assert forall|i: int| 0 <= i < x.len() implies text::lower(x)[i] == text::lower(y)[i] by {
        assert(x[i] == a[i] && y[i] == b[i]);
        assert(a[i] == b[i] || 'A' <= a[i] <= 'Z' && b[i] as int == a[i] as int + 32);
    }
    assert(text::lower(x) =~= text::lower(y));
}

/// The auth service is asked exactly where the domain has an enabled tenant with an
/// auth service and the client sent a key. Every other request is answered at once: an
/// unknown domain with 404, a disabled tenant with 403, and a missing key or a missing
/// auth service with 401.
pub proof fn law_who_gets_to_the_auth_service(
    cfg: ConfigData,
    before: RequestContext,
    host: Seq<char>,
    authorization: Option<Seq<char>>,
    x_api_key: Option<Seq<char>>,
    after: RequestContext,
    action: Action,
)
    requires
        identified(cfg, before, host, authorization, x_api_key, after, action),
    ensures
        ({
            let t = tenant_of(cfg, host);
            let k = client_key(authorization, x_api_key);
            let asked = t is Some && (t->0).enabled && k is Some && (t->0).auth_url@
                != Seq::<char>::empty();
            &&& action is CallAuth <==> asked
            &&& asked ==> {
                &&& after.tenant == t
                &&& after.client_api_key is Some && (after.client_api_key->0)@ == k->0
                &&& after.auth_verdict == before.auth_verdict
            }
            &&& !asked ==> action is Respond
            &&& t is None ==> action->status == 404 && action->reason@ == "unknown_domain"@
                && action->kind@ == "proxy_error"@ && after == before
            &&& t is Some && !(t->0).enabled ==> action->status == 403 && action->reason@
                == "tenant_disabled"@ && action->kind@ == "proxy_error"@ && after.tenant == t
            &&& t is Some && (t->0).enabled && k is None ==> action->status == 401
                && action->reason@ == "missing_api_key"@ && action->kind@ == "proxy_error"@
                && after.tenant == t
            &&& t is Some && (t->0).enabled && k is Some && (t->0).auth_url@
                == Seq::<char>::empty() ==> action->status == 401 && action->reason@
                == "no_auth_url"@ && action->kind@ == "auth_error"@ && after.tenant == t
        }),
{
    if let Some(t) = tenant_of(cfg, host) {
        if t.auth_url@.len() == 0 {
            assert(t.auth_url@ =~= Seq::<char>::empty());
        }
    }
}

/// The body is read for a model exactly on a `POST`, `PUT` or `PATCH` of a path under
/// `/v1/`.
pub proof fn law_where_a_model_is_looked_for(method: Seq<char>, path: Seq<char>)
    ensures
        names_model(method, path) <==> {
            &&& method == seq!['P', 'O', 'S', 'T'] || method == seq!['P', 'U', 'T'] || method
                == seq!['P', 'A', 'T', 'C', 'H']
            &&& path.len() >= 4
            &&& path[0] == '/' && path[1] == 'v' && path[2] == '1' && path[3] == '/'
        },
{
    reveal_strlit("POST");
    reveal_strlit("PUT");
    reveal_strlit("PATCH");
    reveal_strlit("/v1/");
    assert("POST"@ =~= seq!['P', 'O', 'S', 'T']);
    assert("PUT"@ =~= seq!['P', 'U', 'T']);
    assert("PATCH"@ =~= seq!['P', 'A', 'T', 'C', 'H']);
    assert("/v1/"@ =~= seq!['/', 'v', '1', '/']);
    if path.len() >= 4 {
        let head = path.take(4);
        assert(head[0] == path[0] && head[1] == path[1] && head[2] == path[2] && head[3]
            == path[3]);
        if path[0] == '/' && path[1] == 'v' && path[2] == '1' && path[3] == '/' {
            assert(head =~= "/v1/"@);
        }
    }
}

/// A denial ends the request with the status and the reason of the denial. An
/// allowance never does by itself: the body is read, or the request goes on without a
/// model.
pub proof fn law_verdict_decides(
    gw: HydraProxy,
    before: RequestContext,
    verdict: AuthVerdict,
    method: Seq<char>,
    path: Seq<char>,
    after: RequestContext,
    action: Action,
)
    requires
        judged(gw, before, verdict, method, path, after, action),
    ensures
        match verdict {
            AuthVerdict::Denied { status, reason, .. } => {
                &&& action is Respond
                &&& action->status == status
                &&& action->reason@ == reason@
                &&& action->kind@ == "auth_error"@
                &&& after == (RequestContext { auth_verdict: Some(verdict), ..before })
            },
            AuthVerdict::Allowed { .. } => if names_model(method, path) {
                action is ReadFirstChunk && after == (RequestContext {
                    auth_verdict: Some(verdict),
                    ..before
                })
            } else {
                modelled(
                    gw,
                    RequestContext { auth_verdict: Some(verdict), ..before },
                    None,
                    after,
                    action,
                )
            },
        },
{
}

/// A first chunk is refused exactly where it is longer than the hard cap. Any other
/// one is searched for the model, and without a chunk there is none.
pub proof fn law_first_chunk_has_a_cap(
    gw: HydraProxy,
    before: RequestContext,
    chunk: Option<Seq<u8>>,
    after: RequestContext,
    action: Action,
)
    requires
        chunk_read(gw, before, chunk, after, action),
    ensures
        match chunk {
            None => modelled(gw, before, None, after, action),
            Some(c) => if c.len() > gw.state.proxy.max_request_body_hard {
                &&& action is Respond
                &&& action->status == 413
                &&& action->reason@ == "request_body_too_large"@
                &&& action->kind@ == "proxy_error"@
                &&& after == (RequestContext { hard_capped: true, ..before })
            } else {
                match extract::model_value(c) {
                    Some(m) => modelled(gw, before, Some(utf8_lossy(m)), after, action),
                    None => modelled(gw, before, None, after, action),
                }
            },
        },
{
}

/// A request with a model is routed by it: it goes on with the candidates, or is
/// answered with the failure. One without a model is refused or passed through, as the
/// policy says, and keeps no model.
pub proof fn law_model_decides(
    gw: HydraProxy,
    before: RequestContext,
    model: Option<Seq<char>>,
    after: RequestContext,
    action: Action,
)
    requires
        modelled(gw, before, model, after, action),
    ensures
        match model {
            Some(m) => {
                &&& after.model_key is Some && (after.model_key->0)@ == m
                &&& after.tenant == before.tenant
                &&& after.passthrough == before.passthrough
                &&& match router::resolved(
                    gw.state.store,
                    gw.state.breaker,
                    before.tenant->0,
                    m,
                ) {
                    Ok(ms) => action is Order && router::candidates_for(
                        gw.state.store,
                        after.candidates@,
                        ms,
                    ) && after.route_error == before.route_error,
                    Err(e) => {
                        &&& action is Respond
                        &&& action->status == status_of(e)
                        &&& action->reason@ == reason_of(e)
                        &&& action->kind@ == "proxy_error"@
                        &&& after.route_error == Some(e)
                        &&& after.candidates == before.candidates
                    },
                }
            },
            None => if gw.state.proxy.non_route_strategy is Reject {
                &&& action is Respond
                &&& action->status == 400
                &&& action->reason@ == "no_model_field"@
                &&& action->kind@ == "proxy_error"@
                &&& after == before
            } else {
                action is Connect && after.passthrough && after.model_key is None && after.tenant
                    == before.tenant
            },
        },
{
}

/// A request that is passed through goes to a provider that is granted to the tenant,
/// alive, known, not soft-disabled, and has an api-key and a readable endpoint, with
/// one of its own keys; of several, to the first in the order of ids. Where there is
/// one, one is found; where there is none, the failure is noted and nothing selected.
pub proof fn law_passthrough_goes_to_the_first_that_can(
    state: AppState,
    before: RequestContext,
    after: RequestContext,
    action: Action,
    ids: Seq<String>,
)
    requires
        passed_through(state, before, after, action),
        before.tenant is Some,
        ({
            let granted = state.store.tenant_providers@;
            let tenant = (before.tenant->0).id@;
            &&& granted.contains_key(tenant) ==> ids == granted[tenant]@
            &&& !granted.contains_key(tenant) ==> ids == Seq::<String>::empty()
        }),
    ensures
        ({
            let cfg = state.store;
            let can = |id: Seq<char>|
                {
                    &&& !state.breaker@.dead.contains(id)
                    &&& cfg.providers@.contains_key(id)
                    &&& cfg.providers@[id].weight > 0
                    &&& cfg.provider_keys@.contains_key(id)
                    &&& cfg.provider_keys@[id]@.len() > 0
                    &&& peer::parsed(cfg.providers@[id].endpoint@) is Some
                };
            &&& action is Connect
            &&& if exists|i: int| 0 <= i < ids.len() && can((#[trigger] ids[i])@) {
                let sel = after.selected->0;
                let id = sel.provider_id@;
                &&& after.selected is Some
                &&& exists|i: int| 0 <= i < ids.len() && (#[trigger] ids[i])@ == id
                &&& can(id)
                &&& forall|i: int|
                    0 <= i < ids.len() && can((#[trigger] ids[i])@) ==> !text::precedes(
                        ids[i]@,
                        id,
                    )
                &&& peer::parsed(cfg.providers@[id].endpoint@) == Some(
                    peer::parts_of(sel.endpoint),
                )
                &&& exists|k: int|
                    0 <= k < cfg.provider_keys@[id]@.len() && (
                    #[trigger] cfg.provider_keys@[id]@[k])@ == sel.upstream_api_key@
                &&& after.upstream_host is Some && (after.upstream_host->0)@ == sel.endpoint.host@
                &&& after.route_error == before.route_error
            } else {
                after.selected == before.selected && after.route_error == Some(
                    RouteError::NoAvailableProvider,
                )
            }
        }),
{
    let cfg = state.store;
    let tenant = (before.tenant->0).id@;
    let can = |id: Seq<char>|
        {
            &&& !state.breaker@.dead.contains(id)
            &&& cfg.providers@.contains_key(id)
            &&& cfg.providers@[id].weight > 0
            &&& cfg.provider_keys@.contains_key(id)
            &&& cfg.provider_keys@[id]@.len() > 0
            &&& peer::parsed(cfg.providers@[id].endpoint@) is Some
        };
    assert forall|id: Seq<char>| #[trigger] can(id) <==> takes_requests(state, id) by {}
    if cfg.tenant_providers@.contains_key(tenant) {
        if exists|i: int| 0 <= i < ids.len() && can((#[trigger] ids[i])@) {
            let i = choose|i: int| 0 <= i < ids.len() && can((#[trigger] ids[i])@);
            assert(takes_requests(state, ids[i]@));
            let id = (after.selected->0).provider_id@;
            assert(can(id));
            assert forall|i: int|
                0 <= i < ids.len() && can((#[trigger] ids[i])@) implies !text::precedes(
                ids[i]@,
                id,
            ) by {
                assert(takes_requests(state, ids[i]@));
            }
        } else {
            assert forall|i: int| 0 <= i < ids.len() implies !takes_requests(
                state,
                (#[trigger] ids[i])@,
            ) by {
                assert(!can(ids[i]@));
            }
        }
    }
}

/// A refusal is an answer with that status and that reason, marked as the gateway's.
pub proof fn law_refusal_is_an_answer(action: Action, status: u16, reason: Seq<char>)
    ensures
        refused(action, status, reason) <==> action is Respond && action->status == status
            && action->reason@ == reason && action->kind@ == "proxy_error"@,
{
}

} // verus!
