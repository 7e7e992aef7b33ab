use hydra::breaker::{Breaker, BreakerConfig};
use hydra::config::{ConfigData, ModelProvider};
use hydra::model::{Provider, RouteError, Tenant};
use hydra::router::resolve;
use hydra::swrr::{order, order_fits, SwrrState};
use vstd::hash_set::StringHashSet;

fn tenant(enabled: bool) -> Tenant {
    Tenant {
        id: "t1".into(),
        name: "T".into(),
        domain: "localhost".into(),
        auth_url: "https://auth".into(),
        cert_key: None,
        cert_file: None,
        enabled,
        created_at: "c".into(),
        updated_at: "u".into(),
    }
}

fn provider(id: &str, weight: i32) -> Provider {
    Provider {
        id: id.into(),
        key: id.into(),
        name: id.into(),
        endpoint: format!("https://{id}.example.com"),
        weight,
        created_at: "c".into(),
        updated_at: "u".into(),
    }
}

fn config(providers: &[(&str, i32)], granted: &[&str], keyed: &[&str]) -> ConfigData {
    let mut cfg = ConfigData::default();
    let mut models = Vec::new();
    for (id, weight) in providers {
        cfg.providers.insert(id.to_string(), provider(id, *weight));
        models.push(ModelProvider {
            provider_id: id.to_string(),
            weight: *weight,
        });
    }
    cfg.models_by_key.insert("gpt-4".to_string(), models);
    cfg.models_by_key.insert("unserved".to_string(), Vec::new());
    let mut allowed = StringHashSet::new();
    for m in ["gpt-4", "unserved", "phantom"] {
        allowed.insert(m.to_string());
    }
    cfg.tenant_models.insert("t1".to_string(), allowed);
    cfg.tenant_providers.insert(
        "t1".to_string(),
        granted.iter().map(|s| s.to_string()).collect(),
    );
    for id in keyed {
        cfg.provider_keys
            .insert(id.to_string(), vec![format!("sk-{id}")]);
    }
    cfg
}

fn ids(cfg: &ConfigData, breaker: &Breaker) -> Vec<String> {
    resolve(cfg, breaker, &tenant(true), "gpt-4")
        .unwrap()
        .into_iter()
        .map(|c| c.provider_id)
        .collect()
}

#[test]
fn candidates_are_model_providers_that_the_tenant_may_use() {
    let cfg = config(&[("a", 3), ("b", 1), ("c", 1)], &["c", "a"], &["a", "b", "c"]);
    let b = Breaker::default();
    assert_eq!(ids(&cfg, &b), ["a", "c"]);
    let c = resolve(&cfg, &b, &tenant(true), "gpt-4").unwrap();
    assert_eq!(c[0].endpoint, "https://a.example.com");
    assert_eq!(c[0].weight, 3);
}

#[test]
fn model_must_be_allowed_and_served() {
    let cfg = config(&[("a", 1)], &["a"], &["a"]);
    let b = Breaker::default();
    let t = tenant(true);
    assert_eq!(resolve(&cfg, &b, &t, "gpt-5"), Err(RouteError::ModelNotAllowed));
    assert_eq!(resolve(&cfg, &b, &t, "phantom"), Err(RouteError::ModelNotFound));
    assert_eq!(resolve(&cfg, &b, &t, "unserved"), Err(RouteError::ModelNotFound));
}

#[test]
fn tenant_must_be_enabled_and_have_providers() {
    let b = Breaker::default();
    let cfg = config(&[("a", 1)], &["a"], &["a"]);
    assert_eq!(
        resolve(&cfg, &b, &tenant(false), "gpt-4"),
        Err(RouteError::TenantForbidden)
    );
    let none = config(&[("a", 1)], &[], &["a"]);
    assert_eq!(
        resolve(&none, &b, &tenant(true), "gpt-4"),
        Err(RouteError::TenantForbidden)
    );
}

#[test]
fn dead_and_soft_disabled_are_left_out() {
    let cfg = config(&[("a", 0), ("b", 1), ("c", 2)], &["a", "b", "c"], &["a", "b", "c"]);
    let mut b = Breaker::new(BreakerConfig::new(1));
    assert_eq!(ids(&cfg, &b), ["b", "c"]);
    b.on_failure("b");
    assert_eq!(ids(&cfg, &b), ["c"]);
    b.on_failure("c");
    assert_eq!(
        resolve(&cfg, &b, &tenant(true), "gpt-4"),
        Err(RouteError::NoAvailableProvider)
    );
    b.on_success("c");
    assert_eq!(ids(&cfg, &b), ["c"]);
}

#[test]
fn no_common_provider_is_no_available_provider() {
    let cfg = config(&[("a", 1)], &["z"], &["a"]);
    assert_eq!(
        resolve(&cfg, &Breaker::default(), &tenant(true), "gpt-4"),
        Err(RouteError::NoAvailableProvider)
    );
}

#[test]
fn keyless_are_left_out_last() {
    let b = Breaker::default();
    let some = config(&[("a", 1), ("b", 1)], &["a", "b"], &["b"]);
    assert_eq!(ids(&some, &b), ["b"]);
    let mut none = config(&[("a", 1), ("b", 1)], &["a", "b"], &[]);
    none.provider_keys.insert("a".to_string(), Vec::new());
    assert_eq!(
        resolve(&none, &b, &tenant(true), "gpt-4"),
        Err(RouteError::NoAvailableKey)
    );
}

#[test]
fn resolved_candidates_take_part_in_rounds() {
    let cfg = config(&[("a", 5), ("b", 1), ("c", 1)], &["a", "b", "c"], &["a", "b", "c"]);
    let b = Breaker::default();
    let mut state = SwrrState::default();
    let mut picks = String::new();
    for _ in 0..7 {
        let mut c = resolve(&cfg, &b, &tenant(true), "gpt-4").unwrap();
        assert!(order_fits(&c, &state));
        order(&mut c, &mut state);
        picks.push_str(&c[0].provider_id);
    }
    assert_eq!(picks, "aabacaa");
    for id in ["a", "b", "c"] {
        assert_eq!(state.current_weights.get(id).copied(), Some(0));
    }
}
