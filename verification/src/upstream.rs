//! What happens to a request once it is sent: attempts, chunks, failures, record.

use vstd::prelude::*;
use vstd::string::StringExecFns;

use crate::breaker::{failed, fails_of, succeeded};
use crate::config::ConfigData;
use crate::ctx::{text_view, RequestContext};
use crate::filter::{key_of, random_key, refuse, refused, Action};
use crate::limit;
use crate::limit::{Tally, Windows};
use crate::model::{ProviderKind, Usage, UsageRecord};
use crate::peer;
use crate::peer::PeerTarget;
use crate::proxy::{
    reason_of, route_error_reason, route_error_status, status_of, HydraProxy, ProxyConfig,
};
use crate::rewrite;
use crate::rewrite::EndpointUrl;
use crate::sse;
use crate::sse::UsageScanner;
use crate::text;

verus! {

/// What to do with the reply of a provider.
#[derive(Clone, Copy, Debug, PartialEq, Eq, Structural)]
pub enum ReplyStep {
    /// Hand it to the client.
    Forward,
    /// Drop it, and send the request to the next candidate.
    NextCandidate,
}

/// The headers and the URL that a request goes upstream with.
#[derive(Clone, Debug, PartialEq, Eq)]
pub struct UpstreamHeaders {
    /// `None` leaves the client's header as it is.
    pub authorization: Option<String>,
    pub url: String,
    pub host: String,
    pub trace_id: String,
}

/// How long the parts of a request took, in milliseconds.
#[derive(Clone, Copy, Debug, PartialEq, Eq)]
pub struct Timing {
    pub latency_ms: u64,
    pub forward_latency_ms: Option<u64>,
    pub ttft_ms: Option<u64>,
}

/// The header that carries the trace id, upstream and back to the client.
pub open spec fn trace_header_name() -> Seq<char> {
    "X-Hydra-Trace-Id"@
}

/// The header tells which provider answered, and is kept from the client.
pub open spec fn gives_away(name: Seq<char>) -> bool {
    text::lower(name) == "server"@ || text::lower(name) == "via"@
}

/// Whether a header of a provider's reply is kept from the client, in any letter
/// case.
pub fn dropped_from_reply(name: &str) -> (r: bool)
    ensures
        r == gives_away(name@),
{
    let chars = text::chars_of(name);
    assert(chars@.subrange(0, chars@.len() as int) =~= name@);
    let low = text::lower_text_of(chars.as_slice(), 0, chars.len());
    text::same(low.as_str(), "server") || text::same(low.as_str(), "via")
}

/// There is another candidate behind the current one.
pub open spec fn has_next(ctx: RequestContext) -> bool {
    ctx.cursor + 1 < ctx.candidates@.len()
}

/// After a failure in mid-stream another candidate may be tried: where that is
/// switched on, nothing was answered yet, and the body can be sent again.
pub open spec fn may_resend(cfg: ProxyConfig, ctx: RequestContext) -> bool {
    cfg.failover.retry_after_connect && ctx.upstream_bytes_seen == 0 && !ctx.body_too_large
        && ctx.body_buffer@.len() > 0 && has_next(ctx)
}

/// The status that is recorded: the upstream's, or else what was written to the
/// client.
pub open spec fn final_status(ctx: RequestContext, written: Option<u16>) -> u16 {
    if ctx.status_code > 0 {
        ctx.status_code
    } else {
        match written {
            Some(s) => s,
            None => 0,
        }
    }
}

/// The count that a usage gives, where there is a usage.
pub open spec fn counted(u: Option<Usage>, f: spec_fn(Usage) -> Option<u64>) -> Option<u64> {
    match u {
        Some(v) => f(v),
        None => None,
    }
}

/// The provider and the endpoint of the current candidate, or what is missing.
pub open spec fn target(cfg: ConfigData, ctx: RequestContext) -> Result<
    (Seq<char>, peer::Parts),
    Seq<char>,
> {
    match ctx.current() {
        None => Err("no_candidate"@),
        Some(id) => if !cfg.providers@.contains_key(id) {
            Err("provider_missing"@)
        } else {
            match peer::parsed(cfg.providers@[id].endpoint@) {
                None => Err("invalid_endpoint"@),
                Some(p) => if !cfg.provider_keys@.contains_key(id) {
                    Err("no_api_key"@)
                } else if cfg.provider_keys@[id]@.len() == 0 {
                    Err("empty_api_key"@)
                } else {
                    Ok((id, p))
                },
            }
        },
    }
}

/// The connection goes to the endpoint, over TLS exactly for `https`.
pub open spec fn connects(p: PeerTarget, ep: peer::Parts) -> bool {
    &&& p.address@ == ep.host + seq![':'] + text::digits(ep.port, 10)
    &&& p.tls == (ep.scheme == "https"@)
    &&& p.sni@ == ep.host
}

/// Nothing but the cursor has changed, and it by one exactly where another
/// candidate is tried.
pub open spec fn advanced(before: RequestContext, after: RequestContext, retry: bool) -> bool {
    after == (RequestContext {
        cursor: if retry {
            (before.cursor + 1) as usize
        } else {
            before.cursor
        },
        ..before
    })
}

/// The breaker has noted a failure of the provider, if there is one, and nothing
/// else has changed.
pub open spec fn failure_noted(
    before: HydraProxy,
    after: HydraProxy,
    provider: Option<Seq<char>>,
) -> bool {
    &&& after.state.store == before.state.store
    &&& after.state.proxy == before.state.proxy
    &&& after.state.breaker@ == match provider {
        Some(id) => failed(before.state.breaker@, id),
        None => before.state.breaker@,
    }
}

impl HydraProxy {
    /// The provider and the endpoint of the current candidate.
    pub fn route_target(&self, ctx: &RequestContext) -> (r: Result<
        (String, EndpointUrl),
        &'static str,
    >)
        ensures
            match (r, target(self.state.store, *ctx)) {
                (Ok(t), Ok(m)) => t.0@ == m.0 && peer::parts_of(t.1) == m.1,
                (Err(e), Err(f)) => e@ == f,
                _ => false,
            },
    {
        if ctx.cursor >= ctx.candidates.len() {
            return Err("no_candidate");
        }
        let id = &ctx.candidates[ctx.cursor].provider_id;
        let provider = match self.state.store.providers.get(id.as_str()) {
            Some(p) => p,
            None => {
                return Err("provider_missing");
            },
        };
        let endpoint = match peer::parse_endpoint(provider.endpoint.as_str()) {
            Some(ep) => ep,
            None => {
                return Err("invalid_endpoint");
            },
        };
        match self.state.store.provider_keys.get(id.as_str()) {
            None => Err("no_api_key"),
            Some(keys) => if keys.len() == 0 {
                Err("empty_api_key")
            } else {
                Ok((id.clone(), endpoint))
            },
        }
    }

    /// Where to connect for the current attempt. The provider and one of its
    /// keys, at random, are selected; a request that is passed through keeps
    /// what was selected before.
    pub fn upstream_peer(&self, ctx: &mut RequestContext) -> (r: Result<PeerTarget, &'static str>)
        ensures
            if old(ctx).passthrough {
                &&& *final(ctx) == *old(ctx)
                &&& match (r, old(ctx).selected) {
                    (Ok(p), Some(sel)) => connects(p, peer::parts_of(sel.endpoint)),
                    (Err(e), None) => e@ == "passthrough_no_route"@,
                    _ => false,
                }
            } else {
                match (r, target(self.state.store, *old(ctx))) {
                    (Ok(p), Ok(m)) => {
                        &&& connects(p, m.1)
                        &&& final(ctx).selected matches Some(sel) && sel.provider_id@ == m.0
                            && peer::parts_of(sel.endpoint) == m.1 && key_of(
                            self.state.store,
                            m.0,
                            sel.upstream_api_key@,
                        )
                        &&& text_view(final(ctx).upstream_host) == Some(m.1.host)
                        &&& *final(ctx) == (RequestContext {
                            selected: final(ctx).selected,
                            upstream_host: final(ctx).upstream_host,
                            ..*old(ctx)
                        })
                    },
                    (Err(e), Err(f)) => e@ == f && *final(ctx) == *old(ctx),
                    _ => false,
                }
            },
    {
        if ctx.passthrough {
            return match &ctx.selected {
                Some(sel) => Ok(peer::build_peer(&sel.endpoint)),
                None => Err("passthrough_no_route"),
            };
        }
        let (id, endpoint) = match self.route_target(ctx) {
            Ok(t) => t,
            Err(e) => {
                return Err(e);
            },
        };
        let peer = peer::build_peer(&endpoint);
        if let Some(keys) = self.state.store.provider_keys.get(id.as_str()) {
            if let Some(key) = random_key(keys.as_slice()) {
                Self::select(ctx, id, endpoint, key.clone());
            }
        }
        Ok(peer)
    }

    /// The headers and the URL of the upstream request. The client's key is
    /// replaced by the provider's, but for a request that is passed through.
    pub fn upstream_headers(&self, ctx: &RequestContext, path: &str) -> (r: Option<
        UpstreamHeaders,
    >)
        ensures
            match (r, ctx.selected) {
                (Some(h), Some(sel)) => {
                    &&& text_view(h.authorization) == if ctx.passthrough {
                        None
                    } else {
                        Some("Bearer "@ + sel.upstream_api_key@)
                    }
                    &&& h.url@ == rewrite::base_url(sel.endpoint) + rewrite::kept(path@)
                    &&& h.host@ == sel.endpoint.host@
                    &&& h.trace_id@ == ctx.trace_id@
                },
                (None, None) => true,
                _ => false,
            },
    {
        match &ctx.selected {
            None => None,
            Some(sel) => {
                let authorization = if ctx.passthrough {
                    None
                } else {
                    let mut a = "Bearer ".to_string();
                    a.append(sel.upstream_api_key.as_str());
                    Some(a)
                };
                Some(
                    UpstreamHeaders {
                        authorization,
                        url: rewrite::rewrite_path(path, &sel.endpoint),
                        host: sel.endpoint.host.clone(),
                        trace_id: ctx.trace_id.clone(),
                    },
                )
            },
        }
    }

    /// Counts a chunk of the body, and says whether it is kept for another
    /// attempt. From the chunk on that takes the body over the soft cap, nothing
    /// is kept any more and the body cannot be sent again.
    pub fn on_request_chunk(
        &self,
        ctx: &mut RequestContext,
        len: Option<usize>,
        end_of_stream: bool,
    ) -> (keep: bool)
        requires
            old(ctx).accumulated_bytes + (if len is Some {
                len->0 as int
            } else {
                0
            }) <= u64::MAX,
        ensures
            ({
                let o = *old(ctx);
                let p = self.state.proxy;
                let n = o.accumulated_bytes + (if len is Some {
                    len->0 as int
                } else {
                    0
                });
                &&& keep == (len is Some && !o.body_too_large && n <= p.max_request_body)
                &&& final(ctx).accumulated_bytes == n
                &&& final(ctx).body_buffer@ == if keep {
                    o.body_buffer@.push(len->0)
                } else {
                    o.body_buffer@
                }
                &&& final(ctx).body_too_large == (o.body_too_large || len is Some && n
                    > p.max_request_body || n > p.max_request_body_hard && !end_of_stream)
                &&& *final(ctx) == (RequestContext {
                    accumulated_bytes: final(ctx).accumulated_bytes,
                    body_buffer: final(ctx).body_buffer,
                    body_too_large: final(ctx).body_too_large,
                    ..o
                })
                &&& o.replay_is_whole() ==> final(ctx).replay_is_whole()
            }),
    {
        let mut keep = false;
        if let Some(n) = len {
            ctx.accumulated_bytes = ctx.accumulated_bytes + n as u64;
            if !ctx.body_too_large {
                if ctx.accumulated_bytes > self.state.proxy.max_request_body {
                    ctx.body_too_large = true;
                } else {
                    ctx.body_buffer.push(n);
                    keep = true;
                    assert(ctx.body_buffer@.drop_last() =~= old(ctx).body_buffer@);
                }
            }
        }
        if ctx.accumulated_bytes > self.state.proxy.max_request_body_hard && !end_of_stream {
            ctx.body_too_large = true;
        }
        keep
    }

    /// The header that is set in every reply to the client: its name, and the trace
    /// id of the request.
    pub fn reply_header<'a>(&self, ctx: &'a RequestContext) -> (r: (&'static str, &'a str))
        ensures
            r.0@ == trace_header_name(),
            r.1@ == ctx.trace_id@,
    {
        ("X-Hydra-Trace-Id", ctx.trace_id.as_str())
    }

    /// The answer to a request that could not be sent because routing had failed.
    pub fn fail_to_proxy(&self, ctx: &RequestContext) -> (r: Option<Action>)
        ensures
            match (r, ctx.route_error) {
                (Some(a), Some(e)) => refused(a, status_of(e), reason_of(e)),
                (None, None) => true,
                _ => false,
            },
    {
        match ctx.route_error {
            Some(e) => Some(refuse(route_error_status(e), route_error_reason(e))),
            None => None,
        }
    }

    /// Notes the status of the upstream. Success clears the provider's failures.
    pub fn on_response_header(&mut self, ctx: &mut RequestContext, status: u16)
        ensures
            *final(ctx) == (RequestContext { status_code: status, ..*old(ctx) }),
            final(self).state.store == old(self).state.store,
            final(self).state.proxy == old(self).state.proxy,
            final(self).state.breaker@ == match old(ctx).current() {
                Some(id) => if 200 <= status < 300 {
                    succeeded(old(self).state.breaker@, id)
                } else {
                    old(self).state.breaker@
                },
                None => old(self).state.breaker@,
            },
    {
        ctx.status_code = status;
        if status >= 200 && status < 300 {
            if let Some(id) = ctx.current_provider_id() {
                self.state.breaker.on_success(id);
            }
        }
    }

    /// Counts a chunk of the response and scans it for usage.
    pub fn on_response_chunk(&self, ctx: &mut RequestContext, chunk: &[u8])
        requires
            old(ctx).upstream_bytes_seen + chunk@.len() <= u64::MAX,
        ensures
            final(ctx).upstream_bytes_seen == old(ctx).upstream_bytes_seen + chunk@.len(),
            final(ctx).scanner@ == sse::scanned(old(ctx).scanner@, chunk@).0,
            *final(ctx) == (RequestContext {
                upstream_bytes_seen: final(ctx).upstream_bytes_seen,
                scanner: final(ctx).scanner,
                ..*old(ctx)
            }),
    {
        ctx.upstream_bytes_seen = ctx.upstream_bytes_seen + chunk.len() as u64;
        ctx.scanner.scan_chunk(chunk);
    }

    /// Notes that no connection could be made. Says whether the next candidate
    /// is tried; it always is, where there is one.
    pub fn fail_to_connect(&mut self, ctx: &mut RequestContext) -> (retry: bool)
        requires
            old(ctx).current() is Some ==> fails_of(
                old(self).state.breaker@,
                old(ctx).current()->0,
            ) < u32::MAX,
        ensures
            retry == has_next(*old(ctx)),
            retry == (old(ctx).cursor + 1 < old(ctx).candidates@.len()),
            final(ctx).cursor == old(ctx).cursor + (if retry {
                1int
            } else {
                0
            }),
            advanced(*old(ctx), *final(ctx), retry),
            failure_noted(*old(self), *final(self), old(ctx).current()),
    {
        self.note_failure(ctx);
        let more = ctx.cursor < ctx.candidates.len() && ctx.cursor + 1 < ctx.candidates.len();
        if more {
            ctx.cursor = ctx.cursor + 1;
        }
        more
    }

    /// Notes that a connection failed in mid-stream. Says whether the next
    /// candidate is tried.
    pub fn error_while_proxy(&mut self, ctx: &mut RequestContext) -> (retry: bool)
        requires
            old(ctx).current() is Some ==> fails_of(
                old(self).state.breaker@,
                old(ctx).current()->0,
            ) < u32::MAX,
        ensures
            retry == may_resend(old(self).state.proxy, *old(ctx)),
            advanced(*old(ctx), *final(ctx), retry),
            failure_noted(*old(self), *final(self), old(ctx).current()),
    {
        self.note_failure(ctx);
        let replayable = !ctx.body_too_large && ctx.body_buffer.len() > 0;
        let more = ctx.cursor < ctx.candidates.len() && ctx.cursor + 1 < ctx.candidates.len();
        let retry = self.state.proxy.failover.retry_after_connect && ctx.upstream_bytes_seen == 0
            && replayable && more;
        if retry {
            ctx.cursor = ctx.cursor + 1;
        }
        retry
    }

    /// Takes the status that a provider replied with. Success clears its
    /// failures. A server error counts as a failure: the next candidate is tried
    /// where there is one, and otherwise the client gets the reply.
    pub fn on_reply(&mut self, ctx: &mut RequestContext, status: u16) -> (r: ReplyStep)
        requires
            status >= 500 && old(ctx).current() is Some ==> fails_of(
                old(self).state.breaker@,
                old(ctx).current()->0,
            ) < u32::MAX,
        ensures
            status < 500 ==> {
                &&& r == ReplyStep::Forward
                &&& *final(ctx) == (RequestContext { status_code: status, ..*old(ctx) })
                &&& final(self).state.store == old(self).state.store
                &&& final(self).state.proxy == old(self).state.proxy
                &&& final(self).state.breaker@ == match old(ctx).current() {
                    Some(id) => if 200 <= status < 300 {
                        succeeded(old(self).state.breaker@, id)
                    } else {
                        old(self).state.breaker@
                    },
                    None => old(self).state.breaker@,
                }
            },
            status >= 500 ==> {
                &&& (r == ReplyStep::NextCandidate) == has_next(*old(ctx))
                &&& (r == ReplyStep::NextCandidate) == (old(ctx).cursor + 1
                    < old(ctx).candidates@.len())
                &&& advanced(
                    RequestContext { status_code: status, ..*old(ctx) },
                    *final(ctx),
                    has_next(*old(ctx)),
                )
                &&& failure_noted(*old(self), *final(self), old(ctx).current())
            },
    {
        if status < 500 {
            self.on_response_header(ctx, status);
            return ReplyStep::Forward;
        }
        ctx.status_code = status;
        if self.fail_to_connect(ctx) {
            ReplyStep::NextCandidate
        } else {
            ReplyStep::Forward
        }
    }

    fn note_failure(&mut self, ctx: &RequestContext)
        requires
            ctx.current() is Some ==> fails_of(old(self).state.breaker@, ctx.current()->0)
                < u32::MAX,
        ensures
            failure_noted(*old(self), *final(self), ctx.current()),
    {
        if let Some(id) = ctx.current_provider_id() {
            self.state.breaker.on_failure(id);
        }
    }

    /// Ends a request: reports its usage, and gives the record of it where it
    /// was sent to a provider.
    pub fn finish(
        &self,
        ctx: &mut RequestContext,
        timing: Timing,
        written: Option<u16>,
        error: Option<String>,
        created_at: String,
    ) -> (r: Option<UsageRecord>)
        ensures
            final(ctx).usage == sse::outcome(old(ctx).scanner@),
            final(ctx).scanner@.provider == ProviderKind::Generic,
            final(ctx).scanner@.tail == Seq::<u8>::empty(),
            final(ctx).scanner@.usage == (Usage {
                prompt_tokens: None,
                completion_tokens: None,
                total_tokens: None,
                cached_tokens: None,
            }),
            !final(ctx).scanner@.seen_any,
            !final(ctx).scanner@.done,
            *final(ctx) == (RequestContext {
                usage: final(ctx).usage,
                scanner: final(ctx).scanner,
                ..*old(ctx)
            }),
            match (r, old(ctx).tenant, old(ctx).selected) {
                (Some(rec), Some(t), Some(sel)) => {
                    let u = sse::outcome(old(ctx).scanner@);
                    &&& rec.tenant_id@ == t.id@
                    &&& rec.provider_id@ == sel.provider_id@
                    &&& rec.model_key@ == match old(ctx).model_key {
                        Some(m) => m@,
                        None => Seq::empty(),
                    }
                    &&& text_view(rec.client_api_key_masked) == old(ctx).masked()
                    &&& rec.status_code == final_status(*old(ctx), written)
                    &&& rec.prompt_tokens == counted(u, |v: Usage| v.prompt_tokens)
                    &&& rec.completion_tokens == counted(u, |v: Usage| v.completion_tokens)
                    &&& rec.total_tokens == counted(u, |v: Usage| v.total_tokens)
                    &&& rec.cached_tokens == counted(u, |v: Usage| v.cached_tokens)
                    &&& rec.latency_ms == timing.latency_ms
                    &&& rec.forward_latency_ms == timing.forward_latency_ms
                    &&& rec.ttft_ms == timing.ttft_ms
                    &&& text_view(rec.upstream_host) == text_view(old(ctx).upstream_host)
                    &&& rec.error == error
                    &&& rec.trace_id@ == old(ctx).trace_id@
                    &&& rec.created_at == created_at
                },
                (None, Some(_), Some(_)) => false,
                (None, _, _) => true,
                _ => false,
            },
    {
        let mut scanner = UsageScanner::new(ProviderKind::Generic);
        core::mem::swap(&mut scanner, &mut ctx.scanner);
        let usage = scanner.finalize();
        ctx.usage = usage;
        let status_code: u16 = if ctx.status_code > 0 {
            ctx.status_code
        } else {
            match written {
                Some(s) => s,
                None => 0,
            }
        };
        match (&ctx.tenant, &ctx.selected) {
            (Some(t), Some(sel)) => {
                let u = match usage {
                    Some(u) => u,
                    None => Usage::default(),
                };
                Some(
                    UsageRecord {
                        tenant_id: t.id.clone(),
                        provider_id: sel.provider_id.clone(),
                        model_key: match &ctx.model_key {
                            Some(m) => m.clone(),
                            None => String::new(),
                        },
                        client_api_key_masked: ctx.masked_key(),
                        status_code,
                        prompt_tokens: u.prompt_tokens,
                        completion_tokens: u.completion_tokens,
                        total_tokens: u.total_tokens,
                        cached_tokens: u.cached_tokens,
                        latency_ms: timing.latency_ms,
                        forward_latency_ms: timing.forward_latency_ms,
                        ttft_ms: timing.ttft_ms,
                        upstream_host: ctx.upstream_host.clone(),
                        error,
                        trace_id: ctx.trace_id.clone(),
                        created_at,
                    },
                )
            },
            _ => None,
        }
    }

    /// Counts the tokens of a request that has ended against the limits, at `now`
    /// in milliseconds.
    pub fn bill(&self, ctx: &RequestContext, windows: &mut Windows, now: u64)
        ensures
            limit::states(final(windows)@) == match ctx.billed() {
                Some(n) => limit::tallied(
                    limit::states(old(windows)@),
                    self.state.store.limit_roles@,
                    ctx.token_attributes(),
                    Tally::Tokens(n),
                    now,
                ),
                None => limit::states(old(windows)@),
            },
    {
        if let Some(n) = ctx.billed_tokens() {
            let masked = ctx.masked_key();
            let key = match &masked {
                Some(k) => Some(k.as_str()),
                None => None,
            };
            limit::tally(
                windows,
                self.state.store.limit_roles.as_slice(),
                &ctx.token_match(key),
                Tally::Tokens(n),
                now,
            );
        }
    }
}

// ---------------------------------------------------------------------------
// Laws
// ---------------------------------------------------------------------------

/// Failing over walks down the list: as long as the next candidate is tried,
/// every attempt has a candidate that no attempt before it had.
pub proof fn law_failover_tries_each_once(ctxs: Seq<RequestContext>, i: int, j: int)
    requires
        forall|k: int|
            0 <= k < ctxs.len() - 1 ==> has_next(#[trigger] ctxs[k]) && advanced(
                ctxs[k],
                ctxs[k + 1],
                true,
            ),
        0 <= i < j < ctxs.len(),
    ensures
        ctxs[j].cursor == ctxs[i].cursor + (j - i),
        ctxs[j].candidates == ctxs[i].candidates,
        ctxs[j].cursor < ctxs[j].candidates@.len(),
    decreases j - i,
{
    assert(has_next(ctxs[j - 1]) && advanced(ctxs[j - 1], ctxs[j], true));
    assert(ctxs[j - 1].candidates@.len() == ctxs[j - 1].candidates.len());
    if i < j - 1 {
        law_failover_tries_each_once(ctxs, i, j - 1);
    }
}

/// Once the upstream has answered anything, or unless it is switched on, a
/// failure in mid-stream is not tried again: no answer is sent twice.
pub proof fn law_no_resend_in_midstream(cfg: ProxyConfig, ctx: RequestContext)
    requires
        ctx.upstream_bytes_seen > 0 || !cfg.failover.retry_after_connect || ctx.body_too_large,
    ensures
        !may_resend(cfg, ctx),
{
}

/// There is another attempt exactly as long as the list goes on behind the cursor,
/// and it is made at the next place of the list. Nothing else of the request changes.
pub proof fn law_next_candidate_is_tried(before: RequestContext, after: RequestContext)
    requires
        advanced(before, after, has_next(before)),
    ensures
        before.cursor + 1 < before.candidates@.len() ==> after.cursor == before.cursor + 1,
        before.cursor + 1 >= before.candidates@.len() ==> after.cursor == before.cursor,
        has_next(before) <==> before.cursor + 1 < before.candidates@.len(),
        (RequestContext { cursor: before.cursor, ..after }) == before,
{
    assert(before.candidates@.len() == before.candidates.len());
}

/// Failing over is complete: from the first candidate on, as many attempts are made
/// as there are candidates, one at each, and only the last one is not followed by
/// another.
pub proof fn law_every_candidate_gets_an_attempt(ctxs: Seq<RequestContext>, n: int)
    requires
        ctxs.len() > 0,
        ctxs[0].cursor == 0,
        ctxs.len() == ctxs[0].candidates@.len(),
        forall|k: int|
            0 <= k < ctxs.len() - 1 ==> advanced(
                #[trigger] ctxs[k],
                ctxs[k + 1],
                has_next(ctxs[k]),
            ),
        0 <= n < ctxs.len(),
    ensures
        ctxs[n].cursor == n,
        ctxs[n].candidates == ctxs[0].candidates,
        ctxs[n].current() == Some(ctxs[0].candidates@[n].provider_id@),
        has_next(ctxs[n]) <==> n < ctxs[0].candidates@.len() - 1,
    decreases n,
{
    assert(ctxs[0].candidates@.len() == ctxs[0].candidates.len());
    if n > 0 {
        law_every_candidate_gets_an_attempt(ctxs, n - 1);
        assert(advanced(ctxs[n - 1], ctxs[n - 1 + 1], has_next(ctxs[n - 1])));
    }
}

/// In mid-stream another candidate is tried exactly where that is switched on,
/// nothing was answered yet, the body was kept, and the list goes on.
pub proof fn law_resent_only_where_it_can_be(cfg: ProxyConfig, ctx: RequestContext)
    ensures
        may_resend(cfg, ctx) <==> {
            &&& cfg.failover.retry_after_connect
            &&& ctx.upstream_bytes_seen == 0
            &&& !ctx.body_too_large
            &&& ctx.body_buffer@ != Seq::<usize>::empty()
            &&& ctx.cursor + 1 < ctx.candidates@.len()
        },
{
    assert(ctx.body_buffer@.len() == 0 ==> ctx.body_buffer@ =~= Seq::<usize>::empty());
}

/// An attempt that failed counts one more failure of its own provider, and of no
/// other; the configuration and the policy are not touched.
pub proof fn law_failure_is_the_providers_own(
    before: HydraProxy,
    after: HydraProxy,
    ctx: RequestContext,
    other: Seq<char>,
)
    requires
        failure_noted(before, after, ctx.current()),
        ctx.cursor < ctx.candidates@.len(),
        fails_of(before.state.breaker@, ctx.candidates@[ctx.cursor as int].provider_id@)
            < u32::MAX,
    ensures
        ({
            let id = ctx.candidates@[ctx.cursor as int].provider_id@;
            &&& fails_of(after.state.breaker@, id) == fails_of(before.state.breaker@, id) + 1
            &&& other != id ==> fails_of(after.state.breaker@, other) == fails_of(
                before.state.breaker@,
                other,
            ) && (after.state.breaker@.dead.contains(other)
                == before.state.breaker@.dead.contains(other))
            &&& after.state.store == before.state.store
            &&& after.state.proxy == before.state.proxy
        }),
{
}

/// An attempt goes to the provider at the cursor. It cannot be made exactly where the
/// list is over, or the provider, a readable endpoint or an api-key is missing.
pub proof fn law_attempt_goes_to_the_cursor(cfg: ConfigData, ctx: RequestContext)
    ensures
        ({
            let id = ctx.candidates@[ctx.cursor as int].provider_id@;
            let endpoint = peer::parsed(cfg.providers@[id].endpoint@);
            match target(cfg, ctx) {
                Ok(t) => {
                    &&& ctx.cursor < ctx.candidates@.len()
                    &&& cfg.providers@.contains_key(id)
                    &&& cfg.provider_keys@.contains_key(id)
                    &&& cfg.provider_keys@[id]@.len() > 0
                    &&& t.0 == id
                    &&& endpoint == Some(t.1)
                },
                Err(why) => {
                    ||| ctx.cursor >= ctx.candidates@.len() && why == "no_candidate"@
                    ||| ctx.cursor < ctx.candidates@.len() && !cfg.providers@.contains_key(id)
                        && why == "provider_missing"@
                    ||| ctx.cursor < ctx.candidates@.len() && cfg.providers@.contains_key(id)
                        && endpoint is None && why == "invalid_endpoint"@
                    ||| ctx.cursor < ctx.candidates@.len() && cfg.providers@.contains_key(id)
                        && endpoint is Some && !cfg.provider_keys@.contains_key(id) && why
                        == "no_api_key"@
                    ||| ctx.cursor < ctx.candidates@.len() && cfg.providers@.contains_key(id)
                        && endpoint is Some && cfg.provider_keys@.contains_key(id)
                        && cfg.provider_keys@[id]@.len() == 0 && why == "empty_api_key"@
                },
            }
        }),
{
}

/// A connection goes to the host and the port of the endpoint, asks for that host by
/// name, and is encrypted exactly where the scheme says so.
pub proof fn law_connection_is_the_endpoints(p: PeerTarget, ep: peer::Parts)
    requires
        connects(p, ep),
    ensures
        p.sni@ == ep.host,
        p.tls <==> ep.scheme == seq!['h', 't', 't', 'p', 's'],
        p.address@.len() == ep.host.len() + 1 + text::digits(ep.port, 10).len(),
        p.address@.take(ep.host.len() as int) == ep.host,
        p.address@[ep.host.len() as int] == ':',
        p.address@.skip(ep.host.len() as int + 1) == text::digits(ep.port, 10),
{
    reveal_strlit("https");
    assert("https"@ =~= seq!['h', 't', 't', 'p', 's']);
    assert(p.address@.take(ep.host.len() as int) =~= ep.host);
    assert(p.address@.skip(ep.host.len() as int + 1) =~= text::digits(ep.port, 10));
}

/// The recorded status is the provider's where one answered, and otherwise what the
/// client was told.
pub proof fn law_recorded_status(ctx: RequestContext, written: Option<u16>)
    ensures
        ctx.status_code != 0 ==> final_status(ctx, written) == ctx.status_code,
        ctx.status_code == 0 && written is Some ==> Some(final_status(ctx, written)) == written,
        ctx.status_code == 0 && written is None ==> final_status(ctx, written) == 0,
{
}

/// The recorded counts are those of the usage, and there are none without one.
pub proof fn law_recorded_counts(u: Usage)
    ensures
        counted(Some(u), |v: Usage| v.prompt_tokens) == u.prompt_tokens,
        counted(Some(u), |v: Usage| v.completion_tokens) == u.completion_tokens,
        counted(Some(u), |v: Usage| v.total_tokens) == u.total_tokens,
        counted(Some(u), |v: Usage| v.cached_tokens) == u.cached_tokens,
        forall|f: spec_fn(Usage) -> Option<u64>| #[trigger] counted(None, f) is None,
{
}

/// Two headers whose names differ only in the case of their letters are treated
/// alike, and of names in lower case exactly two are kept from the client.
pub proof fn law_dropped_headers(a: Seq<char>, b: Seq<char>)
    requires
        a.len() == b.len(),
        forall|i: int|
            0 <= i < a.len() ==> (#[trigger] a[i] == b[i] || 'A' <= a[i] <= 'Z' && b[i] as int
                == a[i] as int + 32),
        forall|i: int| 0 <= i < b.len() ==> !('A' <= #[trigger] b[i] <= 'Z'),
    ensures
        gives_away(a) <==> gives_away(b),
        gives_away(b) <==> b == seq!['s', 'e', 'r', 'v', 'e', 'r'] || b == seq!['v', 'i', 'a'],
{
    reveal_strlit("server");
    reveal_strlit("via");
    assert("server"@ =~= seq!['s', 'e', 'r', 'v', 'e', 'r']);
    assert("via"@ =~= seq!['v', 'i', 'a']);
    assert(text::lower(b) =~= b);
    assert forall|i: int| 0 <= i < a.len() implies text::lower(a)[i] == b[i] by {
        assert(a[i] == b[i] || 'A' <= a[i] <= 'Z' && b[i] as int == a[i] as int + 32);
        assert(!('A' <= b[i] <= 'Z'));
    }
    assert(text::lower(a) =~= b);
}

/// A reply carries its trace id in a header that a client finds under any spelling of
/// `x-hydra-trace-id`, and that is not among those that are taken out.
pub proof fn law_trace_header_stays()
    ensures
        text::lower(trace_header_name()) == "x-hydra-trace-id"@,
        !gives_away(trace_header_name()),
{
    reveal_strlit("X-Hydra-Trace-Id");
    reveal_strlit("x-hydra-trace-id");
    reveal_strlit("server");
    reveal_strlit("via");
    assert(text::lower(trace_header_name()) =~= "x-hydra-trace-id"@);
}

} // verus!
