use hydra::auth::{AuthVerdict, CacheSource};
use hydra::breaker::{Breaker, BreakerConfig};
use hydra::config::{ConfigData, ModelProvider};
use hydra::ctx::RequestContext;
use hydra::filter::Action;
use hydra::model::{Candidate, Provider, RouteError, Tenant, Usage};
use hydra::peer::parse_endpoint;
use hydra::proxy::{
    error_body, new_trace_id, route_error_reason, route_error_status, timestamp, AppState,
    FailoverConfig, HydraProxy, NonRouteStrategy, ProxyConfig,
};
use hydra::swrr::{order_fits, SwrrState};
use hydra::upstream::{dropped_from_reply, ReplyStep, Timing};
use vstd::hash_set::StringHashSet;

fn tenant(id: &str, domain: &str, enabled: bool) -> Tenant {
    Tenant {
        id: id.into(),
        name: id.into(),
        domain: domain.into(),
        auth_url: "https://auth".into(),
        cert_key: None,
        cert_file: None,
        enabled,
        created_at: "c".into(),
        updated_at: "u".into(),
    }
}

fn add_provider(cfg: &mut ConfigData, id: &str, weight: i32, endpoint: &str, keys: &[&str]) {
    cfg.providers.insert(
        id.to_string(),
        Provider {
            id: id.into(),
            key: id.into(),
            name: id.into(),
            endpoint: endpoint.into(),
            weight,
            created_at: "c".into(),
            updated_at: "u".into(),
        },
    );
    cfg.provider_keys
        .insert(id.to_string(), keys.iter().map(|k| k.to_string()).collect());
}

fn policy() -> ProxyConfig {
    ProxyConfig {
        max_request_body: 10,
        max_request_body_hard: 20,
        non_route_strategy: NonRouteStrategy::Reject,
        failover: FailoverConfig {
            retry_after_connect: false,
        },
    }
}

fn gateway(proxy: ProxyConfig) -> HydraProxy {
    let mut cfg = ConfigData::default();
    cfg.tenants_by_domain
        .insert("localhost".to_string(), tenant("t1", "localhost", true));
    cfg.tenants_by_domain
        .insert("acme.example.com".to_string(), tenant("t2", "acme.example.com", true));
    cfg.tenants_by_domain
        .insert("off.example.com".to_string(), tenant("t3", "off.example.com", false));
    add_provider(&mut cfg, "p1", 1, "https://one.example.com/llm", &["sk-one"]);
    add_provider(&mut cfg, "p2", 1, "http://two.example.com:8080", &["sk-two", "sk-zwei"]);
    add_provider(&mut cfg, "a0", 0, "https://zero.example.com", &["sk-zero"]);
    add_provider(&mut cfg, "b0", 1, "not a url", &["sk-bad"]);
    add_provider(&mut cfg, "c0", 1, "https://c.example.com", &[]);
    cfg.models_by_key.insert(
        "gpt-4".to_string(),
        vec![
            ModelProvider {
                provider_id: "p1".into(),
                weight: 1,
            },
            ModelProvider {
                provider_id: "p2".into(),
                weight: 1,
            },
        ],
    );
    let mut models = StringHashSet::new();
    models.insert("gpt-4".to_string());
    cfg.tenant_models.insert("t1".to_string(), models);
    cfg.tenant_providers.insert(
        "t1".to_string(),
        ["p2", "c0", "p1", "b0", "a0", "zz"].iter().map(|s| s.to_string()).collect(),
    );
    cfg.tenant_providers
        .insert("t2".to_string(), vec!["a0".to_string()]);
    HydraProxy::new(AppState {
        store: cfg,
        breaker: Breaker::new(BreakerConfig::new(5)),
        proxy,
    })
}

fn ctx() -> RequestContext {
    RequestContext::new("trace-1".to_string())
}

fn routed(gw: &HydraProxy) -> RequestContext {
    let mut c = ctx();
    c.tenant = Some(tenant("t1", "localhost", true));
    assert_eq!(gw.on_model(&mut c, Some("gpt-4".to_string())), Action::Order);
    assert_eq!(c.model_key.as_deref(), Some("gpt-4"));
    c
}

fn known() -> RequestContext {
    let mut c = ctx();
    c.tenant = Some(tenant("t1", "localhost", true));
    c
}

fn refusal(status: u16, reason: &'static str) -> Action {
    Action::Respond {
        status,
        reason,
        kind: "proxy_error",
    }
}

#[test]
fn tenant_is_found_by_domain() {
    let gw = gateway(policy());
    let id = |host: &str| HydraProxy::resolve_tenant(&gw.state.store, host).map(|t| t.id);
    assert_eq!(id("localhost").as_deref(), Some("t1"));
    assert_eq!(id("localhost:8080").as_deref(), Some("t1"));
    assert_eq!(id("").as_deref(), Some("t1"));
    assert_eq!(id(":8080").as_deref(), Some("t1"));
    assert_eq!(id("ACME.Example.COM:443").as_deref(), Some("t2"));
    assert_eq!(id("nobody.example.com"), None);
}

#[test]
fn client_key_comes_from_either_header() {
    let key = |a: Option<&str>, x: Option<&str>| HydraProxy::extract_api_key(a, x);
    assert_eq!(key(Some("Bearer sk-1"), None).as_deref(), Some("sk-1"));
    assert_eq!(key(Some("bearer sk-1"), Some("x")).as_deref(), Some("sk-1"));
    assert_eq!(key(Some("Bearer "), None).as_deref(), Some(""));
    assert_eq!(key(Some("BEARER sk-1"), Some("x")).as_deref(), Some("x"));
    assert_eq!(key(Some("sk-1"), None), None);
    assert_eq!(key(None, Some("")), None);
    assert_eq!(key(None, None), None);
}

#[test]
fn identification_refuses_in_order() {
    let gw = gateway(policy());
    let mut c = ctx();
    assert_eq!(gw.identify(&mut c, "nobody", None, None), refusal(404, "unknown_domain"));
    assert!(c.tenant.is_none());
    assert_eq!(
        gw.identify(&mut c, "off.example.com", Some("Bearer k"), None),
        refusal(403, "tenant_disabled")
    );
    assert_eq!(c.tenant.as_ref().map(|t| t.id.as_str()), Some("t3"));
    let mut c = ctx();
    assert_eq!(gw.identify(&mut c, "localhost", None, None), refusal(401, "missing_api_key"));
    assert!(c.client_api_key.is_none());
    assert_eq!(gw.identify(&mut c, "localhost", Some("Bearer k"), None), Action::CallAuth);
    assert_eq!(c.client_api_key.as_deref(), Some("k"));
}

#[test]
fn denial_is_answered_as_the_auth_service_says() {
    let gw = gateway(policy());
    let mut c = known();
    let denied = AuthVerdict::Denied {
        status: 401,
        reason: "denied",
        source: CacheSource::Miss,
    };
    assert_eq!(
        gw.on_verdict(&mut c, denied.clone(), "POST", "/v1/x"),
        Action::Respond {
            status: 401,
            reason: "denied",
            kind: "auth_error"
        }
    );
    assert_eq!(c.auth_verdict, Some(denied));
}

#[test]
fn body_of_an_allowed_request_is_read() {
    let gw = gateway(policy());
    let allowed = || AuthVerdict::Allowed {
        source: CacheSource::Hit,
    };
    let mut c = known();
    assert_eq!(gw.on_verdict(&mut c, allowed(), "POST", "/v1/x"), Action::ReadFirstChunk);
    assert_eq!(c.auth_verdict, Some(allowed()));
    assert_eq!(
        gw.on_verdict(&mut c, allowed(), "GET", "/v1/models"),
        refusal(400, "no_model_field")
    );
}

#[test]
fn body_is_read_for_the_model_on_v1_routes() {
    let gw = gateway(policy());
    assert!(gw.wants_first_chunk("POST", "/v1/chat/completions"));
    assert!(gw.wants_first_chunk("PUT", "/v1/x"));
    assert!(gw.wants_first_chunk("PATCH", "/v1/"));
    assert!(!gw.wants_first_chunk("GET", "/v1/models"));
    assert!(!gw.wants_first_chunk("POST", "/v1"));
    assert!(!gw.wants_first_chunk("POST", "/api/v1/x"));
}

#[test]
fn first_chunk_gives_the_model() {
    let mut p = policy();
    p.max_request_body_hard = 100;
    let gw = gateway(p);
    let mut c = known();
    assert_eq!(gw.on_first_chunk(&mut c, Some(b"{\"model\":\"gpt-4\"}")), Action::Order);
    assert_eq!(c.model_key.as_deref(), Some("gpt-4"));
    assert_eq!(c.candidates.len(), 2);
    let mut c = known();
    assert_eq!(
        gw.on_first_chunk(&mut c, Some(b"{\"model\":\"a\xffb\"}")),
        refusal(403, "model_not_allowed")
    );
    assert_eq!(c.model_key.as_deref(), Some("a\u{fffd}b"));
    let mut c = known();
    assert_eq!(gw.on_first_chunk(&mut c, Some(b"{}")), refusal(400, "no_model_field"));
    assert_eq!(gw.on_first_chunk(&mut c, None), refusal(400, "no_model_field"));
    assert!(!c.passthrough);
}

#[test]
fn first_chunk_over_the_hard_cap_is_refused() {
    let gw = gateway(policy());
    let mut c = known();
    assert_eq!(
        gw.on_first_chunk(&mut c, Some(b"{\"model\":\"gpt-4\",\"x\":1}")),
        refusal(413, "request_body_too_large")
    );
    assert!(c.hard_capped);
    assert!(c.model_key.is_none());
}

#[test]
fn request_without_a_model_can_pass_through() {
    let mut p = policy();
    p.non_route_strategy = NonRouteStrategy::Passthrough;
    let gw = gateway(p);
    let mut c = known();
    let allowed = AuthVerdict::Allowed {
        source: CacheSource::Local,
    };
    assert_eq!(gw.on_verdict(&mut c, allowed, "GET", "/v1/models"), Action::Connect);
    assert!(c.passthrough);
    let sel = c.selected.clone().unwrap();
    assert_eq!(sel.provider_id, "p1");
    assert_eq!(sel.upstream_api_key, "sk-one");
    assert_eq!(c.upstream_host.as_deref(), Some("one.example.com"));
    assert_eq!(gw.upstream_peer(&mut c).unwrap().address, "one.example.com:443");
    assert_eq!(gw.upstream_headers(&c, "/v1/models").unwrap().authorization, None);
}

#[test]
fn passthrough_needs_a_live_provider() {
    let gw = gateway(policy());
    let mut c = ctx();
    c.tenant = Some(tenant("t2", "acme.example.com", true));
    assert_eq!(gw.select_passthrough(&mut c), Action::Connect);
    assert_eq!(c.route_error, Some(RouteError::NoAvailableProvider));
    assert!(c.selected.is_none());
    let mut c = ctx();
    c.tenant = Some(tenant("t9", "x", true));
    assert_eq!(gw.select_passthrough(&mut c), Action::Connect);
    assert_eq!(c.route_error, Some(RouteError::NoAvailableProvider));
    c.passthrough = true;
    assert_eq!(gw.upstream_peer(&mut c).err(), Some("passthrough_no_route"));
    assert_eq!(gw.fail_to_proxy(&c), Some(refusal(503, "no_available_provider")));
}

#[test]
fn passthrough_skips_dead_providers() {
    let mut gw = gateway(policy());
    for _ in 0..5 {
        gw.state.breaker.on_failure("p1");
    }
    assert!(gw.state.breaker.is_dead("p1"));
    let mut c = known();
    assert_eq!(gw.select_passthrough(&mut c), Action::Connect);
    let sel = c.selected.clone().unwrap();
    assert_eq!(sel.provider_id, "p2");
    assert_eq!(c.route_error, None);
    for _ in 0..5 {
        gw.state.breaker.on_failure("p2");
    }
    let mut c = known();
    assert_eq!(gw.select_passthrough(&mut c), Action::Connect);
    assert!(c.selected.is_none());
    assert_eq!(c.route_error, Some(RouteError::NoAvailableProvider));
}

#[test]
fn tenant_without_an_auth_service_lets_nobody_in() {
    let mut gw = gateway(policy());
    let mut closed = tenant("t1", "localhost", true);
    closed.auth_url = String::new();
    gw.state.store.tenants_by_domain.insert("localhost".to_string(), closed);
    let mut c = ctx();
    assert_eq!(
        gw.identify(&mut c, "localhost", Some("Bearer k"), None),
        Action::Respond {
            status: 401,
            reason: "no_auth_url",
            kind: "auth_error"
        }
    );
    assert_eq!(
        c.auth_verdict,
        Some(AuthVerdict::Denied {
            status: 401,
            reason: "no_auth_url",
            source: CacheSource::Local,
        })
    );
    assert_eq!(gw.identify(&mut ctx(), "localhost", None, None), refusal(401, "missing_api_key"));
}

#[test]
fn failed_route_is_told_when_the_proxy_gives_up() {
    let gw = gateway(policy());
    let mut c = ctx();
    assert_eq!(gw.fail_to_proxy(&c), None);
    c.route_error = Some(RouteError::ModelNotFound);
    assert_eq!(gw.fail_to_proxy(&c), Some(refusal(404, "model_not_found")));
}

#[test]
fn reply_names_the_trace_and_not_the_server() {
    let gw = gateway(policy());
    assert_eq!(gw.reply_header(&ctx()), ("X-Hydra-Trace-Id", "trace-1"));
    assert!(dropped_from_reply("server"));
    assert!(dropped_from_reply("Server"));
    assert!(dropped_from_reply("VIA"));
    assert!(!dropped_from_reply("content-type"));
    assert!(!dropped_from_reply("server-timing"));
    assert!(!dropped_from_reply(""));
}

#[test]
fn candidates_are_ordered_before_the_limits() {
    let gw = gateway(policy());
    let mut weights = SwrrState::default();
    let mut firsts = Vec::new();
    for _ in 0..4 {
        let mut c = routed(&gw);
        assert!(order_fits(&c.candidates, &weights));
        assert_eq!(gw.order(&mut c, &mut weights), Action::CheckCount);
        firsts.push(c.candidates[0].provider_id.clone());
    }
    assert_eq!(firsts, ["p1", "p2", "p1", "p2"]);
}

#[test]
fn routing_failure_is_answered_by_its_name() {
    let gw = gateway(policy());
    let mut c = known();
    c.model_key = Some("gpt-5".to_string());
    assert_eq!(gw.route(&mut c), refusal(403, "model_not_allowed"));
    assert_eq!(c.route_error, Some(RouteError::ModelNotAllowed));
    let expected = [
        (RouteError::ModelNotAllowed, 403, "model_not_allowed"),
        (RouteError::ModelNotFound, 404, "model_not_found"),
        (RouteError::TenantForbidden, 403, "tenant_forbidden"),
        (RouteError::NoAvailableProvider, 503, "no_available_provider"),
        (RouteError::NoAvailableKey, 503, "no_available_key"),
    ];
    for (e, status, reason) in expected {
        assert_eq!(route_error_status(e), status);
        assert_eq!(route_error_reason(e), reason);
    }
}

#[test]
fn limits_refuse_with_429() {
    let gw = gateway(policy());
    assert_eq!(gw.on_count(true), refusal(429, "rate_limited"));
    assert_eq!(gw.on_count(false), Action::Connect);
}

#[test]
fn limit_roles_see_the_masked_key() {
    let gw = gateway(policy());
    let mut c = routed(&gw);
    c.client_api_key = Some("sk-secretvalue-wxyz".to_string());
    let masked = c.masked_key();
    assert_eq!(masked.as_deref(), Some("sk-s…wxyz"));
    let m = c.count_match(masked.as_deref());
    assert_eq!(
        (m.api_key, m.model, m.tenant, m.provider),
        (Some("sk-s…wxyz"), Some("gpt-4"), Some("t1"), None)
    );
    gw.upstream_peer(&mut c).unwrap();
    assert_eq!(c.token_match(None).provider, Some("p1"));
}

#[test]
fn peer_is_the_current_candidate() {
    let gw = gateway(policy());
    let mut c = routed(&gw);
    let peer = gw.upstream_peer(&mut c).unwrap();
    assert_eq!(peer.address, "one.example.com:443");
    assert!(peer.is_tls());
    c.cursor = 1;
    let peer = gw.upstream_peer(&mut c).unwrap();
    assert_eq!(peer.address, "two.example.com:8080");
    let sel = c.selected.clone().unwrap();
    assert_eq!(sel.provider_id, "p2");
    assert!(["sk-two", "sk-zwei"].contains(&sel.upstream_api_key.as_str()));
    c.cursor = 2;
    assert_eq!(gw.upstream_peer(&mut c).err(), Some("no_candidate"));
}

#[test]
fn peer_names_what_is_missing() {
    let mut gw = gateway(policy());
    gw.state.store.provider_keys.remove("p2");
    let failure = |id: &str| {
        let mut c = ctx();
        c.candidates = vec![Candidate {
            provider_id: id.into(),
            endpoint: "e".into(),
            weight: 1,
        }];
        gw.upstream_peer(&mut c).err()
    };
    assert_eq!(failure("zz"), Some("provider_missing"));
    assert_eq!(failure("b0"), Some("invalid_endpoint"));
    assert_eq!(failure("p2"), Some("no_api_key"));
    assert_eq!(failure("c0"), Some("empty_api_key"));
    assert_eq!(failure("p1"), None);
}

#[test]
fn upstream_gets_the_provider_key_and_path() {
    let gw = gateway(policy());
    let mut c = routed(&gw);
    assert!(gw.upstream_headers(&c, "/v1/x").is_none());
    gw.upstream_peer(&mut c).unwrap();
    let h = gw.upstream_headers(&c, "/pre/v1/chat").unwrap();
    assert_eq!(h.authorization.as_deref(), Some("Bearer sk-one"));
    assert_eq!(h.url, "https://one.example.com/llm/v1/chat");
    assert_eq!(h.host, "one.example.com");
    assert_eq!(h.trace_id, "trace-1");
}

#[test]
fn body_is_kept_up_to_the_soft_cap() {
    let gw = gateway(policy());
    let mut c = ctx();
    assert!(gw.on_request_chunk(&mut c, Some(6), false));
    assert!(gw.on_request_chunk(&mut c, Some(4), false));
    assert!(!gw.on_request_chunk(&mut c, None, false));
    assert_eq!((c.body_buffer.clone(), c.accumulated_bytes), (vec![6, 4], 10));
    assert!(!c.body_too_large);
    assert!(!gw.on_request_chunk(&mut c, Some(1), false));
    assert!(c.body_too_large);
    assert!(!gw.on_request_chunk(&mut c, Some(0), true));
    assert_eq!((c.body_buffer.len(), c.accumulated_bytes), (2, 11));
}

#[test]
fn hard_cap_in_midstream_ends_replay() {
    let mut p = policy();
    p.max_request_body = 100;
    let gw = gateway(p);
    let mut c = ctx();
    assert!(gw.on_request_chunk(&mut c, Some(21), true));
    assert!(!c.body_too_large);
    assert!(!gw.on_request_chunk(&mut c, None, false));
    assert!(c.body_too_large);
}

#[test]
fn connect_failure_walks_down_the_candidates() {
    let mut gw = gateway(policy());
    let mut c = routed(&gw);
    assert_eq!(c.current_provider_id(), Some("p1"));
    assert!(gw.fail_to_connect(&mut c));
    assert_eq!(c.current_provider_id(), Some("p2"));
    assert!(!gw.fail_to_connect(&mut c));
    assert_eq!(c.cursor, 1);
    assert_eq!(gw.state.breaker.fail_count("p1"), 1);
    assert_eq!(gw.state.breaker.fail_count("p2"), 1);
    let mut empty = ctx();
    assert!(!gw.fail_to_connect(&mut empty));
    assert_eq!(empty.current_provider_id(), None);
}

#[test]
fn midstream_failure_is_retried_only_where_switched_on() {
    let mut p = policy();
    let mut gw = gateway(p);
    let mut c = routed(&gw);
    gw.on_request_chunk(&mut c, Some(5), true);
    assert!(!gw.error_while_proxy(&mut c));
    p.failover.retry_after_connect = true;
    let mut gw = gateway(p);
    let mut c = routed(&gw);
    assert!(!gw.error_while_proxy(&mut c), "no body is kept");
    gw.on_request_chunk(&mut c, Some(5), true);
    gw.on_response_chunk(&mut c, b"x");
    assert!(!gw.error_while_proxy(&mut c), "something was answered");
    c.upstream_bytes_seen = 0;
    assert!(gw.error_while_proxy(&mut c));
    assert_eq!(c.current_provider_id(), Some("p2"));
    assert!(!gw.error_while_proxy(&mut c), "no candidate is left");
    assert_eq!(gw.state.breaker.fail_count("p1"), 3);
}

#[test]
fn success_clears_the_providers_failures() {
    let mut gw = gateway(policy());
    let mut c = routed(&gw);
    gw.state.breaker.on_failure("p1");
    gw.on_response_header(&mut c, 404);
    assert_eq!(gw.state.breaker.fail_count("p1"), 1);
    gw.on_response_header(&mut c, 300);
    assert_eq!(gw.state.breaker.fail_count("p1"), 1);
    gw.on_response_header(&mut c, 299);
    assert_eq!(gw.state.breaker.fail_count("p1"), 0);
    assert_eq!(c.status_code, 299);
}

#[test]
fn server_error_moves_on_to_the_next_candidate() {
    let mut gw = gateway(policy());
    let mut c = routed(&gw);
    assert_eq!(gw.on_reply(&mut c, 500), ReplyStep::NextCandidate);
    assert_eq!(gw.on_reply(&mut c, 200), ReplyStep::Forward);
    assert_eq!(gw.state.breaker.fail_count("p1"), 1);
    assert_eq!(gw.state.breaker.fail_count("p2"), 0);
    assert!(!gw.state.breaker.is_dead("p1"));
    let mut c = routed(&gw);
    assert_eq!(gw.on_reply(&mut c, 503), ReplyStep::NextCandidate);
    assert_eq!(gw.on_reply(&mut c, 503), ReplyStep::Forward);
    assert_eq!(c.status_code, 503);
    assert_eq!(gw.on_reply(&mut c, 429), ReplyStep::Forward);
}

#[test]
fn request_ends_with_a_record() {
    let gw = gateway(policy());
    let mut c = routed(&gw);
    c.client_api_key = Some("short".to_string());
    gw.upstream_peer(&mut c).unwrap();
    c.status_code = 200;
    gw.on_response_chunk(
        &mut c,
        b"{\"usage\":{\"prompt_tokens\":13,\"completion_tokens\":7,\"total_tokens\":20}}",
    );
    let timing = Timing {
        latency_ms: 30,
        forward_latency_ms: Some(2),
        ttft_ms: Some(9),
    };
    let r = gw
        .finish(&mut c, timing, Some(500), Some("late".into()), timestamp(1700000000))
        .unwrap();
    assert_eq!(r.tenant_id, "t1");
    assert_eq!(r.provider_id, "p1");
    assert_eq!(r.model_key, "gpt-4");
    assert_eq!(r.client_api_key_masked.as_deref(), Some("****"));
    assert_eq!(r.status_code, 200);
    assert_eq!(
        (r.prompt_tokens, r.completion_tokens, r.total_tokens, r.cached_tokens),
        (Some(13), Some(7), Some(20), None)
    );
    assert_eq!((r.latency_ms, r.forward_latency_ms, r.ttft_ms), (30, Some(2), Some(9)));
    assert_eq!(r.upstream_host.as_deref(), Some("one.example.com"));
    assert_eq!(r.error.as_deref(), Some("late"));
    assert_eq!(r.trace_id, "trace-1");
    assert_eq!(r.created_at, "2023-11-14T22:13:20Z");
    assert_eq!(c.billed_tokens(), Some(20));
    assert_eq!(
        c.usage,
        Some(Usage {
            prompt_tokens: Some(13),
            completion_tokens: Some(7),
            total_tokens: Some(20),
            cached_tokens: None
        })
    );
    assert!(c.scanner.finalize().is_none());
}

#[test]
fn nothing_is_recorded_without_a_provider() {
    let gw = gateway(policy());
    let mut c = ctx();
    let timing = Timing {
        latency_ms: 1,
        forward_latency_ms: None,
        ttft_ms: None,
    };
    assert!(gw.finish(&mut c, timing, Some(404), None, timestamp(0)).is_none());
    assert_eq!(c.billed_tokens(), None);
    c.tenant = Some(tenant("t1", "localhost", true));
    HydraProxy::select(
        &mut c,
        "p1".to_string(),
        parse_endpoint("https://h").unwrap(),
        "k".to_string(),
    );
    let r = gw.finish(&mut c, timing, Some(404), None, timestamp(0)).unwrap();
    assert_eq!((r.status_code, r.model_key.as_str(), r.total_tokens), (404, "", None));
    let r = gw.finish(&mut c, timing, None, None, timestamp(0)).unwrap();
    assert_eq!((r.status_code, r.created_at.as_str()), (0, "1970-01-01T00:00:00Z"));
}

#[test]
fn error_bodies_and_trace_ids() {
    assert_eq!(
        error_body("rate_limited", "proxy_error"),
        "{\"error\":{\"message\":\"rate_limited\",\"type\":\"proxy_error\"}}"
    );
    assert_eq!(new_trace_id(0x18f_abc0, "ThreadId(12)"), "hydra-18fabc0-12");
    assert_eq!(new_trace_id(0, ""), "hydra-0-0");
}
