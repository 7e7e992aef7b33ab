use hydra::breaker::Breaker;
use hydra::config::ConfigData;
use hydra::limit::{match_roles, MatchCtx};
use hydra::load::Tables;
use hydra::model::{
    LimitRole, Provider, ProviderKey, ProviderModel, RouteError, Tenant, TenantModel,
    TenantProvider,
};
use hydra::router;

fn provider(id: &str, weight: i32) -> Provider {
    Provider {
        id: id.to_string(),
        key: id.to_string(),
        name: id.to_string(),
        endpoint: format!("https://{id}.example.com"),
        weight,
        created_at: "t".to_string(),
        updated_at: "t".to_string(),
    }
}

fn served(key: &str, provider_id: &str, status: i32) -> ProviderModel {
    ProviderModel {
        id: format!("{key}-{provider_id}"),
        key: key.to_string(),
        name: key.to_string(),
        provider_id: provider_id.to_string(),
        status,
    }
}

fn api_key(provider_id: &str, api_key: &str) -> ProviderKey {
    ProviderKey {
        id: api_key.to_string(),
        provider_id: provider_id.to_string(),
        api_key: api_key.to_string(),
        created_at: "t".to_string(),
    }
}

fn tenant(id: &str, domain: &str, cert_file: Option<&str>) -> Tenant {
    Tenant {
        id: id.to_string(),
        name: id.to_string(),
        domain: domain.to_string(),
        auth_url: "http://auth".to_string(),
        cert_key: None,
        cert_file: cert_file.map(str::to_string),
        enabled: true,
        created_at: "t".to_string(),
        updated_at: "t".to_string(),
    }
}

fn role(id: &str, model: Option<&str>, tenant: Option<&str>, provider: Option<&str>) -> LimitRole {
    LimitRole {
        id: id.to_string(),
        name: id.to_string(),
        matching_key: None,
        matching_model: model.map(str::to_string),
        matching_tenant: tenant.map(str::to_string),
        matching_provider: provider.map(str::to_string),
        limit_count: Some(10),
        limit_token: None,
        window: "m".to_string(),
        enabled: true,
        created_at: "t".to_string(),
    }
}

fn tables() -> Tables {
    let mut off = role("off", None, None, None);
    off.enabled = false;
    Tables {
        providers: vec![provider("p1", 3), provider("p2", 5)],
        provider_models: vec![
            served("gpt-4", "p1", 1),
            served("gpt-4", "p2", 1),
            served("gpt-4", "gone", 1),
            served("o1", "p1", 0),
            served("o1", "p2", -1),
        ],
        provider_keys: vec![api_key("p1", "a"), api_key("p2", "b"), api_key("p1", "c")],
        tenants: vec![tenant("t1", "LLM.Example.com", Some("/c.pem")), tenant("t2", "localhost", None)],
        tenant_providers: vec![
            TenantProvider {
                id: "1".to_string(),
                tenant_id: "t1".to_string(),
                provider_id: "p2".to_string(),
            },
            TenantProvider {
                id: "2".to_string(),
                tenant_id: "t1".to_string(),
                provider_id: "p1".to_string(),
            },
        ],
        tenant_models: vec![
            TenantModel {
                id: "1".to_string(),
                tenant_id: "t1".to_string(),
                model_key: "gpt-4".to_string(),
            },
            TenantModel {
                id: "2".to_string(),
                tenant_id: "t1".to_string(),
                model_key: "o1".to_string(),
            },
        ],
        limit_roles: vec![role("a", None, None, None), off, role("b", Some("o1"), None, None)],
    }
}

#[test]
fn tables_are_indexed() {
    let cfg = ConfigData::build(&tables());
    let t = cfg.tenants_by_domain.get("llm.example.com").expect("tenant");
    assert_eq!(t.id, "t1");
    assert!(cfg.tenants_by_domain.get("LLM.Example.com").is_none());
    assert_eq!(cfg.tenants_by_domain.get("localhost").map(|t| t.id.as_str()), Some("t2"));
    assert_eq!(cfg.providers.get("p2").map(|p| p.weight), Some(5));
    assert!(cfg.providers.get("gone").is_none());
    assert_eq!(cfg.provider_keys.get("p1"), Some(&vec!["a".to_string(), "c".to_string()]));
    assert_eq!(cfg.provider_keys.get("p2"), Some(&vec!["b".to_string()]));
    assert_eq!(cfg.tenant_providers.get("t1"), Some(&vec!["p2".to_string(), "p1".to_string()]));
    assert!(cfg.tenant_providers.get("t2").is_none());
    let models = cfg.tenant_models.get("t1").expect("models");
    assert!(models.contains("gpt-4") && models.contains("o1") && models.len() == 2);
    let roles: Vec<&str> = cfg.limit_roles.iter().map(|r| r.id.as_str()).collect();
    assert_eq!(roles, ["a", "b"]);
    assert_eq!(
        cfg.certs.get("llm.example.com").and_then(|c| c.cert_file.as_deref()),
        Some("/c.pem")
    );
    assert!(cfg.certs.get("localhost").is_none());
}

#[test]
fn only_online_models_of_known_providers_are_served() {
    let cfg = ConfigData::build(&tables());
    let list = cfg.models_by_key.get("gpt-4").expect("served");
    let pairs: Vec<(&str, i32)> = list.iter().map(|m| (m.provider_id.as_str(), m.weight)).collect();
    assert_eq!(pairs, [("p1", 3), ("p2", 5)]);
    assert!(cfg.models_by_key.get("o1").is_none());
}

#[test]
fn built_configuration_routes() {
    let cfg = ConfigData::build(&tables());
    let t = cfg.tenants_by_domain.get("llm.example.com").expect("tenant");
    let found = router::resolve(&cfg, &Breaker::default(), t, "gpt-4").expect("candidates");
    let ids: Vec<&str> = found.iter().map(|c| c.provider_id.as_str()).collect();
    assert_eq!(ids, ["p1", "p2"]);
    assert_eq!(
        router::resolve(&cfg, &Breaker::default(), t, "o1"),
        Err(RouteError::ModelNotFound)
    );
}

#[test]
fn later_row_of_the_same_key_wins() {
    let mut t = tables();
    t.providers.push(provider("p1", 9));
    let cfg = ConfigData::build(&t);
    assert_eq!(cfg.providers.get("p1").map(|p| p.weight), Some(9));
}

#[test]
fn roles_match_on_every_dimension() {
    let roles = vec![
        role("all", None, None, None),
        role("model", Some("o1"), None, None),
        role("both", Some("gpt-4"), Some("t1"), None),
        role("provider", None, None, Some("p1")),
    ];
    let before = MatchCtx { api_key: Some("sk-1****"), model: Some("gpt-4"), tenant: Some("t1"), provider: None };
    let ids: Vec<&str> = match_roles(&roles, &before).iter().map(|r| r.id.as_str()).collect();
    assert_eq!(ids, ["all", "both"]);
    let after = MatchCtx { provider: Some("p1"), ..before };
    let ids: Vec<&str> = match_roles(&roles, &after).iter().map(|r| r.id.as_str()).collect();
    assert_eq!(ids, ["all", "both", "provider"]);
}

#[test]
fn masked_key_is_matched() {
    let mut r = role("key", None, None, None);
    r.matching_key = Some("sk-1".to_string());
    let roles = vec![r];
    let ctx = MatchCtx { api_key: Some("sk-1"), model: None, tenant: None, provider: None };
    assert_eq!(match_roles(&roles, &ctx).len(), 1);
    let other = MatchCtx { api_key: Some("sk-2"), ..ctx };
    assert!(match_roles(&roles, &other).is_empty());
    let unknown = MatchCtx { api_key: None, ..ctx };
    assert!(match_roles(&roles, &unknown).is_empty());
}
