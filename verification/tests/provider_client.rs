use hydra::model::Provider;
use hydra::provider_client::ProviderClient;

fn provider(id: &str, key: &str, name: &str, endpoint: &str) -> Provider {
    Provider {
        id: id.into(),
        key: key.into(),
        name: name.into(),
        endpoint: endpoint.into(),
        weight: 1,
        created_at: "t".into(),
        updated_at: "t".into(),
    }
}

#[test]
fn build_rewrites_path_and_swaps_key() {
    let pc = ProviderClient::new();
    let provider = provider("p1", "openai", "OpenAI", "https://api.openai.com");
    let req = pc.build_request(
        "POST",
        "/v1/chat/completions",
        None,
        None,
        &provider,
        "sk-upstream-secret",
        b"{\"model\":\"gpt-4\"}",
        "trace-1",
    );
    assert_eq!(req.method, "POST");
    assert_eq!(req.url, "https://api.openai.com/v1/chat/completions");
    assert_eq!(req.authorization, "Bearer sk-upstream-secret");
    assert_eq!(req.host.as_deref(), Some("api.openai.com"));
    assert_eq!(req.trace_id, "trace-1");
    assert_eq!(req.body, b"{\"model\":\"gpt-4\"}");
}

#[test]
fn build_applies_endpoint_path_prefix() {
    let pc = ProviderClient::new();
    let provider = provider("gw", "gw", "GW", "https://gw.example.com/llm/");
    let req = pc.build_request(
        "POST",
        "/v1/chat/completions",
        None,
        None,
        &provider,
        "k",
        b"{}",
        "trace",
    );
    assert_eq!(req.url, "https://gw.example.com/llm/v1/chat/completions");
}

#[test]
fn client_hints_are_handed_on() {
    let pc = ProviderClient::default();
    let provider = provider("p", "p", "P", "http://a.io:81");
    let req = pc.build_request(
        "PUT",
        "/x/v1/e",
        Some("text/event-stream"),
        Some("application/json"),
        &provider,
        "k",
        b"\x00\xff",
        "t",
    );
    assert_eq!(req.url, "http://a.io:81/v1/e");
    assert_eq!(req.accept.as_deref(), Some("text/event-stream"));
    assert_eq!(req.content_type.as_deref(), Some("application/json"));
    assert_eq!(req.host.as_deref(), Some("a.io"));
    assert_eq!(req.body, [0, 255]);
}

#[test]
fn unreadable_endpoint_is_taken_as_it_stands() {
    let pc = ProviderClient::new();
    let provider = provider("p", "p", "P", "ftp://x//");
    let req = pc.build_request("GET", "//v1/models", None, None, &provider, "k", b"", "t");
    assert_eq!(req.url, "ftp://x/v1/models");
    assert_eq!(req.host, None);
}

#[test]
fn client_is_tuned_for_long_calls() {
    let pc = ProviderClient::new();
    assert_eq!(pc.max_idle_per_host, 32);
    assert_eq!(pc.idle_timeout_secs, 90);
    assert_eq!(pc.timeout_secs, 300);
}
