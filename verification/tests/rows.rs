use hydra::model::{LimitRole, Provider, ProviderKey, ProviderModel, Tenant, TenantModel, TenantProvider};
use hydra::rows::{
    pool_size, LimitRoleRow, ProviderKeyRow, ProviderModelRow, ProviderRow, TenantModelRow,
    TenantProviderRow, TenantRow,
};

fn provider_row(weight: i64) -> ProviderRow {
    ProviderRow {
        id: "p".into(),
        key: "k".into(),
        name: "n".into(),
        endpoint: "https://e".into(),
        weight,
        created_at: "c".into(),
        updated_at: "u".into(),
    }
}

#[test]
fn provider_row_becomes_provider() {
    let p = Provider::from(provider_row(3));
    assert_eq!(
        p,
        Provider {
            id: "p".into(),
            key: "k".into(),
            name: "n".into(),
            endpoint: "https://e".into(),
            weight: 3,
            created_at: "c".into(),
            updated_at: "u".into(),
        }
    );
}

#[test]
fn wide_weight_is_cut_to_its_low_bits() {
    assert_eq!(Provider::from(provider_row(-1)).weight, -1);
    assert_eq!(Provider::from(provider_row((1 << 32) + 5)).weight, 5);
    assert_eq!(Provider::from(provider_row(1 << 31)).weight, i32::MIN);
}

#[test]
fn flags_are_set_where_not_zero() {
    let row = |enabled: i64| TenantRow {
        id: "t".into(),
        name: "n".into(),
        domain: "d".into(),
        auth_url: "a".into(),
        cert_key: Some("k".into()),
        cert_file: None,
        enabled,
        created_at: "c".into(),
        updated_at: "u".into(),
    };
    assert!(!Tenant::from(row(0)).enabled);
    assert!(Tenant::from(row(1)).enabled);
    assert!(Tenant::from(row(-7)).enabled);
    let t = Tenant::from(row(1));
    assert_eq!(t.cert_key.as_deref(), Some("k"));
    assert_eq!(t.cert_file, None);
    assert_eq!(t.auth_url, "a");
}

#[test]
fn other_rows_keep_their_fields() {
    let m = ProviderModel::from(ProviderModelRow {
        id: "i".into(),
        key: "k".into(),
        name: "n".into(),
        provider_id: "p".into(),
        status: -1,
    });
    assert_eq!((m.key.as_str(), m.provider_id.as_str(), m.status), ("k", "p", -1));
    let k = ProviderKey::from(ProviderKeyRow {
        id: "i".into(),
        provider_id: "p".into(),
        api_key: "sk".into(),
        created_at: "c".into(),
    });
    assert_eq!((k.api_key.as_str(), k.created_at.as_str()), ("sk", "c"));
    let tp = TenantProvider::from(TenantProviderRow {
        id: "i".into(),
        tenant_id: "t".into(),
        provider_id: "p".into(),
    });
    assert_eq!((tp.tenant_id.as_str(), tp.provider_id.as_str()), ("t", "p"));
    let tm = TenantModel::from(TenantModelRow {
        id: "i".into(),
        tenant_id: "t".into(),
        model_key: "m".into(),
    });
    assert_eq!((tm.tenant_id.as_str(), tm.model_key.as_str()), ("t", "m"));
    let l = LimitRole::from(LimitRoleRow {
        id: "i".into(),
        name: "n".into(),
        matching_key: None,
        matching_model: Some("m".into()),
        matching_tenant: Some("t".into()),
        matching_provider: None,
        limit_count: Some(10),
        limit_token: None,
        window: "h".into(),
        enabled: 1,
        created_at: "c".into(),
    });
    assert_eq!(l.matching_model.as_deref(), Some("m"));
    assert_eq!((l.limit_count, l.limit_token, l.enabled), (Some(10), None, true));
    assert_eq!(l.window, "h");
}

#[test]
fn in_memory_pool_has_one_connection() {
    assert_eq!(pool_size("sqlite::memory:"), 1);
    assert_eq!(pool_size("sqlite:hydra.db?mode=rwc"), 8);
    assert_eq!(pool_size(""), 8);
    assert_eq!(pool_size("sqlité:\u{2026}:memory:?x"), 1);
}
