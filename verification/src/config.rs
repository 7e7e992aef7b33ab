//! The configuration that requests are routed by, indexed for reading.

use vstd::hash_map::StringHashMap;
use vstd::hash_set::StringHashSet;
use vstd::prelude::*;

use crate::model::{LimitRole, Provider, Tenant};

verus! {

/// A snapshot of the configuration.
pub struct ConfigData {
    /// Domain, in lower case, to tenant.
    pub tenants_by_domain: StringHashMap<Tenant>,
    /// Model key to the online providers that serve it.
    pub models_by_key: StringHashMap<Vec<ModelProvider>>,
    /// Tenant id to the ids of the providers it may use, in any order. An id
    /// that is listed twice counts once.
    pub tenant_providers: StringHashMap<Vec<String>>,
    /// Tenant id to the keys of the models it may use.
    pub tenant_models: StringHashMap<StringHashSet>,
    /// Provider id to provider.
    pub providers: StringHashMap<Provider>,
    /// Provider id to its api-keys.
    pub provider_keys: StringHashMap<Vec<String>>,
    /// The enabled limit roles, by priority.
    pub limit_roles: Vec<LimitRole>,
    /// Domain to certificate.
    pub certs: StringHashMap<CertMeta>,
}

impl Default for ConfigData {
    /// Nothing configured.
    fn default() -> (r: Self)
        ensures
            r.tenants_by_domain@ == Map::<Seq<char>, Tenant>::empty(),
            r.models_by_key@ == Map::<Seq<char>, Vec<ModelProvider>>::empty(),
            r.tenant_providers@ == Map::<Seq<char>, Vec<String>>::empty(),
            r.tenant_models@ == Map::<Seq<char>, StringHashSet>::empty(),
            r.providers@ == Map::<Seq<char>, Provider>::empty(),
            r.provider_keys@ == Map::<Seq<char>, Vec<String>>::empty(),
            r.limit_roles@ == Seq::<LimitRole>::empty(),
            r.certs@ == Map::<Seq<char>, CertMeta>::empty(),
    {
        ConfigData {
            tenants_by_domain: StringHashMap::new(),
            models_by_key: StringHashMap::new(),
            tenant_providers: StringHashMap::new(),
            tenant_models: StringHashMap::new(),
            providers: StringHashMap::new(),
            provider_keys: StringHashMap::new(),
            limit_roles: Vec::new(),
            certs: StringHashMap::new(),
        }
    }
}

/// A provider that serves a model, and its weight.
#[derive(Debug, PartialEq, Eq)]
pub struct ModelProvider {
    pub provider_id: String,
    pub weight: i32,
}

impl Clone for ModelProvider {
    fn clone(&self) -> (r: Self)
        ensures
            r == *self,
    {
        ModelProvider {
            provider_id: self.provider_id.clone(),
            weight: self.weight,
        }
    }
}

/// Where a domain's certificate lies.
#[derive(Debug, PartialEq, Eq)]
pub struct CertMeta {
    pub domain: String,
    pub cert_file: Option<String>,
    pub cert_key: Option<String>,
}

impl Clone for CertMeta {
    fn clone(&self) -> (r: Self)
        ensures
            r == *self,
    {
        CertMeta {
            domain: self.domain.clone(),
            cert_file: self.cert_file.clone(),
            cert_key: self.cert_key.clone(),
        }
    }
}

/// How many requests may run and wait at once. `None` means no limit.
#[derive(Clone, Debug, PartialEq, Eq)]
pub struct ConcurrencyPolicy {
    pub max_concurrency: Option<u32>,
    pub max_queue_depth: Option<u32>,
    pub queue_wait_timeout_ms: Option<u64>,
}

} // verus!
