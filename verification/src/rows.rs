//! Database rows and the entities they stand for.
//!
//! SQLite hands integers out as `i64`. A weight or a status is cut to its low 32
//! bits; a flag is set where the integer is not zero.

use vstd::prelude::*;
use vstd::std_specs::convert::{FromSpec, FromSpecImpl};

use crate::model::{
    LimitRole, Provider, ProviderKey, ProviderModel, Tenant, TenantModel, TenantProvider,
};
use crate::text;

verus! {

/// A provider as the database stores it.
#[derive(Clone, Debug)]
pub struct ProviderRow {
    pub id: String,
    pub key: String,
    pub name: String,
    pub endpoint: String,
    pub weight: i64,
    pub created_at: String,
    pub updated_at: String,
}

impl FromSpecImpl<ProviderRow> for Provider {
    open spec fn obeys_from_spec() -> bool {
        true
    }

    open spec fn from_spec(r: ProviderRow) -> Provider {
        Provider {
            id: r.id,
            key: r.key,
            name: r.name,
            endpoint: r.endpoint,
            weight: r.weight as i32,
            created_at: r.created_at,
            updated_at: r.updated_at,
        }
    }
}

impl From<ProviderRow> for Provider {
    fn from(r: ProviderRow) -> (e: Self) {
        Provider {
            id: r.id,
            key: r.key,
            name: r.name,
            endpoint: r.endpoint,
            weight: #[verifier::truncate] (r.weight as i32),
            created_at: r.created_at,
            updated_at: r.updated_at,
        }
    }
}

/// A provider's model as the database stores it.
#[derive(Clone, Debug)]
pub struct ProviderModelRow {
    pub id: String,
    pub key: String,
    pub name: String,
    pub provider_id: String,
    pub status: i64,
}

impl FromSpecImpl<ProviderModelRow> for ProviderModel {
    open spec fn obeys_from_spec() -> bool {
        true
    }

    open spec fn from_spec(r: ProviderModelRow) -> ProviderModel {
        ProviderModel {
            id: r.id,
            key: r.key,
            name: r.name,
            provider_id: r.provider_id,
            status: r.status as i32,
        }
    }
}

impl From<ProviderModelRow> for ProviderModel {
    fn from(r: ProviderModelRow) -> (e: Self) {
        ProviderModel {
            id: r.id,
            key: r.key,
            name: r.name,
            provider_id: r.provider_id,
            status: #[verifier::truncate] (r.status as i32),
        }
    }
}

/// A provider's api-key as the database stores it.
#[derive(Clone, Debug)]
pub struct ProviderKeyRow {
    pub id: String,
    pub provider_id: String,
    pub api_key: String,
    pub created_at: String,
}

impl FromSpecImpl<ProviderKeyRow> for ProviderKey {
    open spec fn obeys_from_spec() -> bool {
        true
    }

    open spec fn from_spec(r: ProviderKeyRow) -> ProviderKey {
        ProviderKey {
            id: r.id,
            provider_id: r.provider_id,
            api_key: r.api_key,
            created_at: r.created_at,
        }
    }
}

impl From<ProviderKeyRow> for ProviderKey {
    fn from(r: ProviderKeyRow) -> (e: Self) {
        ProviderKey {
            id: r.id,
            provider_id: r.provider_id,
            api_key: r.api_key,
            created_at: r.created_at,
        }
    }
}

/// A tenant as the database stores it.
#[derive(Clone, Debug)]
pub struct TenantRow {
    pub id: String,
    pub name: String,
    pub domain: String,
    pub auth_url: String,
    pub cert_key: Option<String>,
    pub cert_file: Option<String>,
    pub enabled: i64,
    pub created_at: String,
    pub updated_at: String,
}

impl FromSpecImpl<TenantRow> for Tenant {
    open spec fn obeys_from_spec() -> bool {
        true
    }

    open spec fn from_spec(r: TenantRow) -> Tenant {
        Tenant {
            id: r.id,
            name: r.name,
            domain: r.domain,
            auth_url: r.auth_url,
            cert_key: r.cert_key,
            cert_file: r.cert_file,
            enabled: r.enabled != 0,
            created_at: r.created_at,
            updated_at: r.updated_at,
        }
    }
}

impl From<TenantRow> for Tenant {
    fn from(r: TenantRow) -> (e: Self) {
        Tenant {
            id: r.id,
            name: r.name,
            domain: r.domain,
            auth_url: r.auth_url,
            cert_key: r.cert_key,
            cert_file: r.cert_file,
            enabled: r.enabled != 0,
            created_at: r.created_at,
            updated_at: r.updated_at,
        }
    }
}

/// A grant of a provider as the database stores it.
#[derive(Clone, Debug)]
pub struct TenantProviderRow {
    pub id: String,
    pub tenant_id: String,
    pub provider_id: String,
}

impl FromSpecImpl<TenantProviderRow> for TenantProvider {
    open spec fn obeys_from_spec() -> bool {
        true
    }

    open spec fn from_spec(r: TenantProviderRow) -> TenantProvider {
        TenantProvider {
            id: r.id,
            tenant_id: r.tenant_id,
            provider_id: r.provider_id,
        }
    }
}

impl From<TenantProviderRow> for TenantProvider {
    fn from(r: TenantProviderRow) -> (e: Self) {
        TenantProvider {
            id: r.id,
            tenant_id: r.tenant_id,
            provider_id: r.provider_id,
        }
    }
}

/// A grant of a model as the database stores it.
#[derive(Clone, Debug)]
pub struct TenantModelRow {
    pub id: String,
    pub tenant_id: String,
    pub model_key: String,
}

impl FromSpecImpl<TenantModelRow> for TenantModel {
    open spec fn obeys_from_spec() -> bool {
        true
    }

    open spec fn from_spec(r: TenantModelRow) -> TenantModel {
        TenantModel {
            id: r.id,
            tenant_id: r.tenant_id,
            model_key: r.model_key,
        }
    }
}

impl From<TenantModelRow> for TenantModel {
    fn from(r: TenantModelRow) -> (e: Self) {
        TenantModel {
            id: r.id,
            tenant_id: r.tenant_id,
            model_key: r.model_key,
        }
    }
}

/// A limit role as the database stores it.
#[derive(Clone, Debug)]
pub struct LimitRoleRow {
    pub id: String,
    pub name: String,
    pub matching_key: Option<String>,
    pub matching_model: Option<String>,
    pub matching_tenant: Option<String>,
    pub matching_provider: Option<String>,
    pub limit_count: Option<i64>,
    pub limit_token: Option<i64>,
    pub window: String,
    pub enabled: i64,
    pub created_at: String,
}

impl FromSpecImpl<LimitRoleRow> for LimitRole {
    open spec fn obeys_from_spec() -> bool {
        true
    }

    open spec fn from_spec(r: LimitRoleRow) -> LimitRole {
        LimitRole {
            id: r.id,
            name: r.name,
            matching_key: r.matching_key,
            matching_model: r.matching_model,
            matching_tenant: r.matching_tenant,
            matching_provider: r.matching_provider,
            limit_count: r.limit_count,
            limit_token: r.limit_token,
            window: r.window,
            enabled: r.enabled != 0,
            created_at: r.created_at,
        }
    }
}

impl From<LimitRoleRow> for LimitRole {
    fn from(r: LimitRoleRow) -> (e: Self) {
        LimitRole {
            id: r.id,
            name: r.name,
            matching_key: r.matching_key,
            matching_model: r.matching_model,
            matching_tenant: r.matching_tenant,
            matching_provider: r.matching_provider,
            limit_count: r.limit_count,
            limit_token: r.limit_token,
            window: r.window,
            enabled: r.enabled != 0,
            created_at: r.created_at,
        }
    }
}

/// How many connections a pool for `url` may open. Every connection to an
/// in-memory database is a database of its own, so there is only one.
pub fn pool_size(url: &str) -> (r: u32)
    ensures
        r == if crate::scan::occurs(url@, ":memory:"@) {
            1u32
        } else {
            8u32
        },
{
    proof {
        reveal_strlit(":memory:");
    }
    match text::split_at_first(url, ":memory:") {
        Some(_) => 1,
        None => 8,
    }
}

// ---------------------------------------------------------------------------
// Laws
// ---------------------------------------------------------------------------

/// A row stands for the entity with its fields. A weight or a status that is an `i32`
/// is kept as it is, and a flag is set exactly where the integer is not zero.
pub proof fn law_rows_keep_their_fields(
    p: ProviderRow,
    m: ProviderModelRow,
    k: ProviderKeyRow,
    t: TenantRow,
)
    ensures
        ({
            let e = <Provider as FromSpec<ProviderRow>>::from_spec(p);
            &&& e.id == p.id && e.key == p.key && e.name == p.name && e.endpoint == p.endpoint
            &&& e.created_at == p.created_at && e.updated_at == p.updated_at
            &&& i32::MIN <= p.weight <= i32::MAX ==> e.weight == p.weight
            &&& (p.weight - e.weight) % 0x1_0000_0000 == 0
        }),
        ({
            let e = <ProviderModel as FromSpec<ProviderModelRow>>::from_spec(m);
            &&& e.id == m.id && e.key == m.key && e.name == m.name
            &&& e.provider_id == m.provider_id
            &&& i32::MIN <= m.status <= i32::MAX ==> e.status == m.status
            &&& (m.status - e.status) % 0x1_0000_0000 == 0
        }),
        ({
            let e = <ProviderKey as FromSpec<ProviderKeyRow>>::from_spec(k);
            &&& e.id == k.id && e.provider_id == k.provider_id && e.api_key == k.api_key
            &&& e.created_at == k.created_at
        }),
        ({
            let e = <Tenant as FromSpec<TenantRow>>::from_spec(t);
            &&& e.id == t.id && e.name == t.name && e.domain == t.domain
            &&& e.auth_url == t.auth_url && e.cert_key == t.cert_key && e.cert_file == t.cert_file
            &&& e.enabled <==> t.enabled != 0
            &&& e.created_at == t.created_at && e.updated_at == t.updated_at
        }),
{
    lemma_low_bits(p.weight);
    lemma_low_bits(m.status);
}

/// What is cut off is a multiple of what 32 bits can tell apart.
proof fn lemma_low_bits(n: i64)
    ensures
        (n - (#[verifier::truncate] (n as i32))) % 0x1_0000_0000 == 0,
{
    assert((n - (n as i32)) % 0x1_0000_0000 == 0) by (bit_vector);
}

/// Every conversion of a row does what its specification says.
pub proof fn law_rows_are_read_as_specified()
    ensures
        <Provider as FromSpec<ProviderRow>>::obeys_from_spec(),
        <ProviderModel as FromSpec<ProviderModelRow>>::obeys_from_spec(),
        <ProviderKey as FromSpec<ProviderKeyRow>>::obeys_from_spec(),
        <Tenant as FromSpec<TenantRow>>::obeys_from_spec(),
        <TenantProvider as FromSpec<TenantProviderRow>>::obeys_from_spec(),
        <TenantModel as FromSpec<TenantModelRow>>::obeys_from_spec(),
        <LimitRole as FromSpec<LimitRoleRow>>::obeys_from_spec(),
{
}

/// So does a row of a grant or of a limit role.
pub proof fn law_grants_and_roles_keep_their_fields(
    p: TenantProviderRow,
    m: TenantModelRow,
    r: LimitRoleRow,
)
    ensures
        ({
            let e = <TenantProvider as FromSpec<TenantProviderRow>>::from_spec(p);
            e.id == p.id && e.tenant_id == p.tenant_id && e.provider_id == p.provider_id
        }),
        ({
            let e = <TenantModel as FromSpec<TenantModelRow>>::from_spec(m);
            e.id == m.id && e.tenant_id == m.tenant_id && e.model_key == m.model_key
        }),
        ({
            let e = <LimitRole as FromSpec<LimitRoleRow>>::from_spec(r);
            &&& e.id == r.id && e.name == r.name
            &&& e.matching_key == r.matching_key && e.matching_model == r.matching_model
            &&& e.matching_tenant == r.matching_tenant
            &&& e.matching_provider == r.matching_provider
            &&& e.limit_count == r.limit_count && e.limit_token == r.limit_token
            &&& e.window == r.window && e.created_at == r.created_at
            &&& e.enabled <==> r.enabled != 0
        }),
{
}

} // verus!
