use hydra::auth::apply_upstream;
use hydra::breaker::{Breaker, BreakerConfig};
use hydra::config::ConfigData;
use hydra::ctx::RequestContext;
use hydra::filter::Action;
use hydra::limit::Windows;
use hydra::load::Tables;
use hydra::model::{
    LimitRole, Provider, ProviderKey, ProviderModel, Tenant, TenantModel, TenantProvider,
    UsageRecord,
};
use hydra::provider_client::ProviderClient;
use hydra::proxy::{AppState, FailoverConfig, HydraProxy, NonRouteStrategy, ProxyConfig};
use hydra::swrr::{order_fits, SwrrState};
use hydra::upstream::{ReplyStep, Timing};

const NOW: &str = "2026-01-01 00:00:00";

fn empty() -> Tables {
    Tables {
        providers: Vec::new(),
        provider_models: Vec::new(),
        provider_keys: Vec::new(),
        tenants: Vec::new(),
        tenant_providers: Vec::new(),
        tenant_models: Vec::new(),
        limit_roles: Vec::new(),
    }
}

fn seed_provider(t: &mut Tables, id: &str, key: &str, name: &str, endpoint: &str) {
    t.providers.push(Provider {
        id: id.into(),
        key: key.into(),
        name: name.into(),
        endpoint: endpoint.into(),
        weight: 1,
        created_at: NOW.into(),
        updated_at: NOW.into(),
    });
}

fn seed_served(t: &mut Tables, id: &str, provider_id: &str) {
    t.provider_models.push(ProviderModel {
        id: id.into(),
        key: "gpt-4".into(),
        name: "gpt-4".into(),
        provider_id: provider_id.into(),
        status: 1,
    });
}

fn seed_tenant(t: &mut Tables, id: &str, domain: &str) {
    t.tenants.push(Tenant {
        id: id.into(),
        name: id.into(),
        domain: domain.into(),
        auth_url: "http://auth.example.com/auth".into(),
        cert_key: None,
        cert_file: None,
        enabled: true,
        created_at: NOW.into(),
        updated_at: NOW.into(),
    });
}

fn seed_grant(t: &mut Tables, id: &str, provider_id: &str) {
    t.tenant_providers.push(TenantProvider {
        id: id.into(),
        tenant_id: "t1".into(),
        provider_id: provider_id.into(),
    });
}

fn seed_model(t: &mut Tables, id: &str, model_key: &str) {
    t.tenant_models.push(TenantModel {
        id: id.into(),
        tenant_id: "t1".into(),
        model_key: model_key.into(),
    });
}

fn seed_key(t: &mut Tables, id: &str, provider_id: &str, api_key: &str) {
    t.provider_keys.push(ProviderKey {
        id: id.into(),
        provider_id: provider_id.into(),
        api_key: api_key.into(),
        created_at: NOW.into(),
    });
}

fn seed_default_role(t: &mut Tables, tenant: &str, limit_count: i64) {
    t.limit_roles.push(LimitRole {
        id: "default".into(),
        name: "default".into(),
        matching_key: None,
        matching_model: None,
        matching_tenant: Some(tenant.into()),
        matching_provider: None,
        limit_count: Some(limit_count),
        limit_token: None,
        window: "m".into(),
        enabled: true,
        created_at: NOW.into(),
    });
}

fn seed_one() -> Tables {
    let mut t = empty();
    seed_provider(&mut t, "p1", "openai", "OpenAI", "http://upstream.example.com");
    seed_served(&mut t, "m1", "p1");
    seed_tenant(&mut t, "t1", "localhost");
    seed_grant(&mut t, "tp1", "p1");
    seed_model(&mut t, "tm1", "gpt-4");
    seed_key(&mut t, "pk1", "p1", "sk-upstream-secret");
    seed_default_role(&mut t, "t1", 1000);
    t
}

fn gateway(t: &Tables) -> HydraProxy {
    HydraProxy::new(AppState {
        store: ConfigData::build(t),
        breaker: Breaker::new(BreakerConfig::new(5)),
        proxy: ProxyConfig {
            max_request_body: 10 * 1024 * 1024,
            max_request_body_hard: 50 * 1024 * 1024,
            non_route_strategy: NonRouteStrategy::Passthrough,
            failover: FailoverConfig { retry_after_connect: false },
        },
    })
}

/// What a provider answers: nothing, or a status and a body in chunks.
type Reply = Option<(u16, Vec<&'static [u8]>)>;

/// What a provider was sent.
struct Sent {
    method: String,
    url: String,
    authorization: String,
    body: Vec<u8>,
}

/// A server around the gateway, with scripted auth service and providers.
struct Shell {
    gw: HydraProxy,
    weights: SwrrState,
    windows: Windows,
    auth_status: Option<u16>,
    replies: Vec<(&'static str, Reply)>,
    sent: Vec<Sent>,
    records: Vec<UsageRecord>,
}

impl Shell {
    fn new(t: &Tables, auth_status: Option<u16>, replies: Vec<(&'static str, Reply)>) -> Shell {
        Shell {
            gw: gateway(t),
            weights: SwrrState::default(),
            windows: Windows::new(),
            auth_status,
            replies,
            sent: Vec::new(),
            records: Vec::new(),
        }
    }

    /// Posts the body, and gives the status and the body of the answer.
    fn post(&mut self, body: &[u8]) -> (u16, Vec<u8>) {
        let mut ctx = RequestContext::new("trace".to_string());
        let path = "/v1/chat/completions";
        let mut action =
            self.gw.identify(&mut ctx, "localhost:8080", Some("Bearer test-client-key"), None);
        let answer = loop {
            action = match action {
                Action::Respond { status, reason, .. } => break (status, reason.into()),
                Action::CallAuth => {
                    let verdict = apply_upstream(self.auth_status);
                    self.gw.on_verdict(&mut ctx, verdict, "POST", path)
                }
                Action::ReadFirstChunk => self.gw.on_first_chunk(&mut ctx, Some(body)),
                Action::Order => {
                    assert!(order_fits(&ctx.candidates, &self.weights));
                    self.gw.order(&mut ctx, &mut self.weights)
                }
                Action::CheckCount => self.gw.check_count(&ctx, &mut self.windows, 1).0,
                Action::Connect => break self.send(&mut ctx, path, body),
            };
        };
        let timing = Timing { latency_ms: 1, forward_latency_ms: None, ttft_ms: None };
        let record = self.gw.finish(&mut ctx, timing, Some(answer.0), None, NOW.to_string());
        self.gw.bill(&ctx, &mut self.windows, 1);
        self.records.extend(record);
        answer
    }

    fn send(&mut self, ctx: &mut RequestContext, path: &str, body: &[u8]) -> (u16, Vec<u8>) {
        loop {
            self.gw.upstream_peer(ctx).expect("peer");
            let sel = ctx.selected.clone().expect("selected");
            let provider = self.gw.state.store.providers.get(&sel.provider_id).expect("provider");
            let request = ProviderClient::new().build_request(
                "POST",
                path,
                None,
                Some("application/json"),
                provider,
                &sel.upstream_api_key,
                body,
                &ctx.trace_id,
            );
            self.sent.push(Sent {
                method: request.method,
                url: request.url,
                authorization: request.authorization,
                body: request.body.to_vec(),
            });
            let script = self.replies.iter().find(|(id, _)| *id == sel.provider_id);
            match script.and_then(|(_, reply)| reply.clone()) {
                None => {
                    if !self.gw.fail_to_connect(ctx) {
                        return (502, Vec::new());
                    }
                }
                Some((status, chunks)) => {
                    if self.gw.on_reply(ctx, status) == ReplyStep::Forward {
                        for chunk in &chunks {
                            self.gw.on_response_chunk(ctx, chunk);
                        }
                        return (status, chunks.concat());
                    }
                }
            }
        }
    }
}

#[test]
fn full_body_forwarded_intact_and_key_swapped() {
    let reply: &[u8] = br#"{"id":"x","object":"chat.completion","choices":[]}"#;
    let mut shell = Shell::new(&seed_one(), Some(200), vec![("p1", Some((200, vec![reply])))]);
    let request_body = r#"{"model":"gpt-4","messages":[{"role":"user","content":"Hello, world!"}]}"#;
    let (status, answer) = shell.post(request_body.as_bytes());
    assert_eq!(status, 200);
    let body = String::from_utf8_lossy(&answer).into_owned();
    assert!(body.contains("chat.completion"), "body: {body}");
    assert_eq!(shell.sent.len(), 1);
    assert_eq!(shell.sent[0].method, "POST");
    let upstream_body = String::from_utf8_lossy(&shell.sent[0].body).into_owned();
    assert_eq!(
        upstream_body, request_body,
        "upstream body must be byte-for-byte identical to client body"
    );
    assert_eq!(shell.sent[0].authorization, "Bearer sk-upstream-secret");
    assert_eq!(shell.sent[0].url, "http://upstream.example.com/v1/chat/completions");
}

#[test]
fn sse_stream_is_forwarded_chunk_by_chunk() {
    let frames: Vec<&'static [u8]> = vec![
        b"data: {\"choices\":[{\"delta\":{\"content\":\"Hi\"}}]}\n\n",
        b"data: {\"choices\":[{\"delta\":{\"content\":\"!\"}}],\"usage\":{\"prompt_tokens\":5,\"completi",
        b"on_tokens\":2,\"total_tokens\":7}}\n\n",
        b"data: [DONE]\n\n",
    ];
    let mut shell = Shell::new(&seed_one(), Some(200), vec![("p1", Some((200, frames)))]);
    let (status, answer) = shell.post(br#"{"model":"gpt-4","stream":true}"#);
    assert_eq!(status, 200);
    let text = String::from_utf8_lossy(&answer).into_owned();
    assert!(text.contains("data: {"), "missing first frame: {text}");
    assert!(text.contains("[DONE]"), "missing terminator: {text}");
    assert_eq!(shell.records[0].total_tokens, Some(7));
}

#[test]
fn failover_advances_on_provider_error_then_breaker_records() {
    let mut t = empty();
    seed_provider(&mut t, "p_dead", "dead", "Dead", "http://dead.example.com");
    seed_provider(&mut t, "p_live", "live", "Live", "http://live.example.com");
    seed_served(&mut t, "m_dead", "p_dead");
    seed_served(&mut t, "m_live", "p_live");
    seed_tenant(&mut t, "t1", "localhost");
    seed_grant(&mut t, "tp_dead", "p_dead");
    seed_grant(&mut t, "tp_live", "p_live");
    seed_model(&mut t, "tm1", "gpt-4");
    seed_key(&mut t, "pk_dead", "p_dead", "sk-dead");
    seed_key(&mut t, "pk_live", "p_live", "sk-live");
    seed_default_role(&mut t, "t1", 1000);
    let exploded: &[u8] = b"upstream exploded";
    let ok: &[u8] = br#"{"id":"ok","object":"chat.completion","choices":[]}"#;
    let mut shell = Shell::new(
        &t,
        Some(200),
        vec![("p_dead", Some((500, vec![exploded]))), ("p_live", Some((200, vec![ok])))],
    );
    let (status, answer) = shell.post(br#"{"model":"gpt-4"}"#);
    assert_eq!(status, 200, "should failover to the live provider");
    assert!(String::from_utf8_lossy(&answer).contains("chat.completion"));
    let breaker = &shell.gw.state.breaker;
    assert_eq!(breaker.fail_count("p_dead"), 1, "dead provider should have 1 failure");
    assert_eq!(breaker.fail_count("p_live"), 0, "live provider should have 0 failures");
    assert!(!breaker.is_dead("p_dead"), "threshold 5 not reached yet");
    assert_eq!(shell.sent.len(), 2);
    assert_eq!(shell.sent[1].authorization, "Bearer sk-live");
    assert_eq!(shell.sent[0].body, shell.sent[1].body);
}

#[test]
fn breaker_success_clears_failures() {
    let ok: &[u8] = br#"{"id":"ok"}"#;
    let mut shell = Shell::new(&seed_one(), Some(200), vec![("p1", Some((200, vec![ok])))]);
    shell.gw.state.breaker.on_failure("p1");
    assert_eq!(shell.gw.state.breaker.fail_count("p1"), 1);
    let (status, _) = shell.post(br#"{"model":"gpt-4"}"#);
    assert_eq!(status, 200);
    assert_eq!(shell.gw.state.breaker.fail_count("p1"), 0, "2xx should reset the breaker streak");
}

#[test]
fn usage_tokens_extracted_from_response() {
    let body: &[u8] = br#"{"id":"x","object":"chat.completion","choices":[{"message":{"content":"hi"}}],"usage":{"prompt_tokens":13,"completion_tokens":7,"total_tokens":20}}"#;
    let mut shell = Shell::new(&seed_one(), Some(200), vec![("p1", Some((200, vec![body])))]);
    let (status, _) = shell.post(br#"{"model":"gpt-4"}"#);
    assert_eq!(status, 200);
    assert_eq!(shell.records.len(), 1, "exactly one usage record expected");
    let r = &shell.records[0];
    assert_eq!(r.prompt_tokens, Some(13));
    assert_eq!(r.completion_tokens, Some(7));
    assert_eq!(r.total_tokens, Some(20));
    assert_eq!(r.provider_id, "p1");
    assert_eq!(r.model_key, "gpt-4");
    assert_eq!(r.status_code, 200);
}

#[test]
fn error_404_when_model_not_found() {
    let mut t = seed_one();
    seed_model(&mut t, "tm_phantom", "phantom-model");
    let mut shell = Shell::new(&t, Some(200), Vec::new());
    assert_eq!(shell.post(br#"{"model":"phantom-model"}"#).0, 404);
    assert!(shell.sent.is_empty() && shell.records.is_empty());
}

#[test]
fn error_401_when_auth_denied() {
    let mut shell = Shell::new(&seed_one(), Some(401), Vec::new());
    assert_eq!(shell.post(br#"{"model":"gpt-4"}"#).0, 401);
    assert!(shell.sent.is_empty());
}

#[test]
fn error_502_when_all_providers_fail() {
    let mut shell = Shell::new(&seed_one(), Some(200), vec![("p1", Some((503, Vec::new())))]);
    assert_eq!(shell.post(br#"{"model":"gpt-4"}"#).0, 503);
    assert_eq!(shell.gw.state.breaker.fail_count("p1"), 1);
}

#[test]
fn provider_that_cannot_be_reached_is_a_bad_gateway() {
    let mut shell = Shell::new(&seed_one(), Some(200), vec![("p1", None)]);
    assert_eq!(shell.post(br#"{"model":"gpt-4"}"#).0, 502);
    assert_eq!(shell.gw.state.breaker.fail_count("p1"), 1);
}

#[test]
fn silent_auth_service_is_answered_with_503() {
    let mut shell = Shell::new(&seed_one(), None, Vec::new());
    assert_eq!(shell.post(br#"{"model":"gpt-4"}"#).0, 503);
}

#[test]
fn requests_above_the_limit_are_answered_with_429() {
    let mut t = seed_one();
    t.limit_roles[0].limit_count = Some(2);
    let ok: &[u8] = br#"{"id":"ok"}"#;
    let mut shell = Shell::new(&t, Some(200), vec![("p1", Some((200, vec![ok])))]);
    let body = br#"{"model":"gpt-4"}"#;
    assert_eq!(shell.post(body).0, 200);
    assert_eq!(shell.post(body).0, 200);
    assert_eq!(shell.post(body).0, 429);
    assert_eq!(shell.sent.len(), 2);
}

#[test]
fn dead_provider_is_not_asked_any_more() {
    let mut shell = Shell::new(&seed_one(), Some(200), vec![("p1", None)]);
    for _ in 0..5 {
        assert_eq!(shell.post(br#"{"model":"gpt-4"}"#).0, 502);
    }
    assert!(shell.gw.state.breaker.is_dead("p1"));
    assert_eq!(shell.post(br#"{"model":"gpt-4"}"#).0, 503);
    assert_eq!(shell.sent.len(), 5);
}

#[test]
fn tokens_above_the_limit_are_answered_with_429() {
    let mut t = seed_one();
    t.limit_roles[0].limit_token = Some(20);
    let body: &[u8] = br#"{"usage":{"prompt_tokens":8,"completion_tokens":4,"total_tokens":12}}"#;
    let mut shell = Shell::new(&t, Some(200), vec![("p1", Some((200, vec![body])))]);
    assert_eq!(shell.post(br#"{"model":"gpt-4"}"#).0, 200);
    assert_eq!(shell.post(br#"{"model":"gpt-4"}"#).0, 200);
    assert_eq!(shell.post(br#"{"model":"gpt-4"}"#).0, 429);
    assert_eq!(shell.sent.len(), 2);
}
