//! Domain entities: plain data, one type per stored or reported thing.
//!
//! Timestamps are ISO-8601 text. `enabled` is a `bool`, `status` an `i32`; how a database
//! writes them is the business of [`crate::rows`].

use vstd::prelude::*;

verus! {

/// An upstream LLM provider. A weight of `0` means soft-disabled.
#[derive(Debug, PartialEq, Eq)]
pub struct Provider {
    pub id: String,
    /// Stable provider keyword, globally unique.
    pub key: String,
    pub name: String,
    /// Backend base URL, e.g. `https://api.openai.com`.
    pub endpoint: String,
    /// Weight in the round-robin. `0` = soft-disabled.
    pub weight: i32,
    pub created_at: String,
    pub updated_at: String,
}

impl Clone for Provider {
    fn clone(&self) -> (r: Self)
        ensures
            r == *self,
    {
        Provider {
            id: self.id.clone(),
            key: self.key.clone(),
            name: self.name.clone(),
            endpoint: self.endpoint.clone(),
            weight: self.weight,
            created_at: self.created_at.clone(),
            updated_at: self.updated_at.clone(),
        }
    }
}

/// A model served by a provider. `status`: `1` online, `0` manually offline,
/// `-1` found offline by a probe.
#[derive(Clone, Debug, PartialEq, Eq)]
pub struct ProviderModel {
    pub id: String,
    /// Model keyword, matched against the request's `model`.
    pub key: String,
    pub name: String,
    pub provider_id: String,
    pub status: i32,
}

/// An api-key of a provider, in plaintext (in memory only).
#[derive(Clone, Debug, PartialEq, Eq)]
pub struct ProviderKey {
    pub id: String,
    pub provider_id: String,
    pub api_key: String,
    pub created_at: String,
}

/// A tenant, bound to a domain.
#[derive(Debug, PartialEq, Eq)]
pub struct Tenant {
    pub id: String,
    pub name: String,
    /// Domain in lower case. `localhost` is allowed.
    pub domain: String,
    /// External auth endpoint. Required.
    pub auth_url: String,
    pub cert_key: Option<String>,
    pub cert_file: Option<String>,
    pub enabled: bool,
    pub created_at: String,
    pub updated_at: String,
}

impl Clone for Tenant {
    fn clone(&self) -> (r: Self)
        ensures
            r == *self,
    {
        Tenant {
            id: self.id.clone(),
            name: self.name.clone(),
            domain: self.domain.clone(),
            auth_url: self.auth_url.clone(),
            cert_key: self.cert_key.clone(),
            cert_file: self.cert_file.clone(),
            enabled: self.enabled,
            created_at: self.created_at.clone(),
            updated_at: self.updated_at.clone(),
        }
    }
}

/// Grants a tenant access to a provider.
#[derive(Clone, Debug, PartialEq, Eq)]
pub struct TenantProvider {
    pub id: String,
    pub tenant_id: String,
    pub provider_id: String,
}

/// Grants a tenant the use of a model.
#[derive(Clone, Debug, PartialEq, Eq)]
pub struct TenantModel {
    pub id: String,
    pub tenant_id: String,
    pub model_key: String,
}

/// A rate-limit role. A `matching_*` of `None` matches all on that dimension.
/// `window` is `"m"`, `"h"` or `"d"`.
#[derive(Debug, PartialEq, Eq)]
pub struct LimitRole {
    pub id: String,
    pub name: String,
    pub matching_key: Option<String>,
    pub matching_model: Option<String>,
    pub matching_tenant: Option<String>,
    pub matching_provider: Option<String>,
    pub limit_count: Option<i64>,
    pub limit_token: Option<i64>,
    pub window: String,
    pub enabled: bool,
    pub created_at: String,
}

impl Clone for LimitRole {
    fn clone(&self) -> (r: Self)
        ensures
            r == *self,
    {
        LimitRole {
            id: self.id.clone(),
            name: self.name.clone(),
            matching_key: self.matching_key.clone(),
            matching_model: self.matching_model.clone(),
            matching_tenant: self.matching_tenant.clone(),
            matching_provider: self.matching_provider.clone(),
            limit_count: self.limit_count,
            limit_token: self.limit_token,
            window: self.window.clone(),
            enabled: self.enabled,
            created_at: self.created_at.clone(),
        }
    }
}

/// One weighted choice of provider for a request.
#[derive(Debug, PartialEq, Eq)]
pub struct Candidate {
    pub provider_id: String,
    /// The provider's base URL.
    pub endpoint: String,
    pub weight: i32,
}

impl Clone for Candidate {
    fn clone(&self) -> (r: Self)
        ensures
            r == *self,
    {
        Candidate {
            provider_id: self.provider_id.clone(),
            endpoint: self.endpoint.clone(),
            weight: self.weight,
        }
    }
}

/// Why routing failed.
#[derive(Clone, Copy, Debug, PartialEq, Eq, Structural)]
pub enum RouteError {
    /// The model is not among the tenant's models.
    ModelNotAllowed,
    /// No online provider serves the model.
    ModelNotFound,
    /// The tenant is disabled or has no providers.
    TenantForbidden,
    /// No provider serves both the model and the tenant, or all that do are dead
    /// or soft-disabled.
    NoAvailableProvider,
    /// All surviving candidates lack an api-key.
    NoAvailableKey,
}

/// Provider family: decides how a usage object is read.
#[derive(Clone, Copy, Debug, PartialEq, Eq, Structural)]
pub enum ProviderKind {
    OpenAi,
    Anthropic,
    /// Any other provider.
    Generic,
}

/// Token usage of one response. A field is `None` where the provider did not
/// report it.
#[derive(Clone, Copy, Debug, PartialEq, Eq, Structural)]
pub struct Usage {
    pub prompt_tokens: Option<u64>,
    pub completion_tokens: Option<u64>,
    pub total_tokens: Option<u64>,
    /// Prompt-cache hits.
    pub cached_tokens: Option<u64>,
}

impl Default for Usage {
    fn default() -> (r: Self)
        ensures
            r.prompt_tokens is None,
            r.completion_tokens is None,
            r.total_tokens is None,
            r.cached_tokens is None,
    {
        Usage {
            prompt_tokens: None,
            completion_tokens: None,
            total_tokens: None,
            cached_tokens: None,
        }
    }
}

/// A usage record as it is persisted. The api-key is always the masked form.
#[derive(Clone, Debug, PartialEq, Eq)]
pub struct UsageRecord {
    pub tenant_id: String,
    pub provider_id: String,
    pub model_key: String,
    pub client_api_key_masked: Option<String>,
    pub status_code: u16,
    pub prompt_tokens: Option<u64>,
    pub completion_tokens: Option<u64>,
    pub total_tokens: Option<u64>,
    /// Prompt-cache hits.
    pub cached_tokens: Option<u64>,
    /// Request start to response complete.
    pub latency_ms: u64,
    /// Request start to just before the upstream send. `None` where no upstream
    /// attempt was made.
    pub forward_latency_ms: Option<u64>,
    /// Request start to first response chunk. `None` where no chunk came.
    pub ttft_ms: Option<u64>,
    pub upstream_host: Option<String>,
    pub error: Option<String>,
    pub trace_id: String,
    pub created_at: String,
}

} // verus!
