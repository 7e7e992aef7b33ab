//! The gateway: its policy and its state.
//!
//! A server shell reads from the client, the auth service and the provider, and
//! asks the gateway what to do next. [`crate::filter`] holds the decisions up to
//! the point where a request is sent, [`crate::upstream`] those from there on.

use vstd::prelude::*;
use vstd::string::StringExecFns;

use crate::breaker::Breaker;
use crate::calendar;
use crate::config::ConfigData;
use crate::model::RouteError;
use crate::text;

verus! {

/// What happens to a request that names no model.
#[derive(Clone, Copy, Debug, PartialEq, Eq, Structural)]
pub enum NonRouteStrategy {
    /// It goes to a provider of the tenant.
    Passthrough,
    /// It is refused.
    Reject,
}

/// When another provider is tried.
#[derive(Clone, Copy, Debug, PartialEq, Eq, Structural)]
pub struct FailoverConfig {
    /// Also after a connection was made, as long as nothing was answered. The
    /// request may then be billed twice.
    pub retry_after_connect: bool,
}

/// The gateway's policy.
#[derive(Clone, Copy, Debug, PartialEq, Eq, Structural)]
pub struct ProxyConfig {
    /// Bytes of a body that are kept for another attempt.
    pub max_request_body: u64,
    /// Bytes of a body above which a request is refused.
    pub max_request_body_hard: u64,
    pub non_route_strategy: NonRouteStrategy,
    pub failover: FailoverConfig,
}

/// What all requests share.
pub struct AppState {
    pub store: ConfigData,
    pub breaker: Breaker,
    pub proxy: ProxyConfig,
}

/// The gateway.
pub struct HydraProxy {
    pub state: AppState,
}

impl HydraProxy {
    /// A gateway with the given state.
    pub fn new(state: AppState) -> (r: Self)
        ensures
            r.state == state,
    {
        HydraProxy { state }
    }
}

/// The body of an error response.
pub fn error_body(reason: &str, kind: &str) -> (r: String)
    ensures
        r@ == "{\"error\":{\"message\":\""@ + reason@ + "\",\"type\":\""@ + kind@ + "\"}}"@,
{
    let mut out = "{\"error\":{\"message\":\"".to_string();
    out.append(reason);
    out.append("\",\"type\":\"");
    out.append(kind);
    out.append("\"}}");
    out
}

/// The HTTP status of a routing failure.
pub open spec fn status_of(e: RouteError) -> u16 {
    match e {
        RouteError::ModelNotAllowed => 403,
        RouteError::ModelNotFound => 404,
        RouteError::TenantForbidden => 403,
        RouteError::NoAvailableProvider | RouteError::NoAvailableKey => 503,
    }
}

/// The name of a routing failure.
pub open spec fn reason_of(e: RouteError) -> Seq<char> {
    match e {
        RouteError::ModelNotAllowed => "model_not_allowed"@,
        RouteError::ModelNotFound => "model_not_found"@,
        RouteError::TenantForbidden => "tenant_forbidden"@,
        RouteError::NoAvailableProvider => "no_available_provider"@,
        RouteError::NoAvailableKey => "no_available_key"@,
    }
}

/// The HTTP status of a routing failure.
pub fn route_error_status(e: RouteError) -> (r: u16)
    ensures
        r == status_of(e),
{
    match e {
        RouteError::ModelNotAllowed => 403,
        RouteError::ModelNotFound => 404,
        RouteError::TenantForbidden => 403,
        RouteError::NoAvailableProvider | RouteError::NoAvailableKey => 503,
    }
}

/// The name of a routing failure.
pub fn route_error_reason(e: RouteError) -> (r: &'static str)
    ensures
        r@ == reason_of(e),
{
    match e {
        RouteError::ModelNotAllowed => "model_not_allowed",
        RouteError::ModelNotFound => "model_not_found",
        RouteError::TenantForbidden => "tenant_forbidden",
        RouteError::NoAvailableProvider => "no_available_provider",
        RouteError::NoAvailableKey => "no_available_key",
    }
}

/// A trace id: the nanoseconds of the clock in hexadecimal, and the length of
/// the thread's name in bytes.
pub fn new_trace_id(nanos: u128, thread: &str) -> (r: String)
    ensures
        r@ == "hydra-"@ + text::digits(nanos as nat, 16) + "-"@ + text::digits(
            vstd::utf8::encode_utf8(thread@).len(),
            10,
        ),
{
    let mut out = "hydra-".to_string();
    text::push_number(&mut out, nanos, 16);
    out.append("-");
    text::push_number(&mut out, thread.as_bytes().len() as u128, 10);
    out
}

/// The time in records: the ISO-8601 text of the UTC instant `secs` seconds after
/// the Unix epoch.
pub fn timestamp(secs: u64) -> (r: String)
    ensures
        r@ == calendar::iso_text(secs as nat),
{
    calendar::iso8601(secs)
}

// ---------------------------------------------------------------------------
// Laws
// ---------------------------------------------------------------------------

/// What is forbidden is answered with 403, what is not there with 404, and what cannot
/// be served now with 503. Each failure has a name of its own.
pub proof fn law_failures_are_told_apart(a: RouteError, b: RouteError)
    ensures
        status_of(a) == 403 <==> a is ModelNotAllowed || a is TenantForbidden,
        status_of(a) == 404 <==> a is ModelNotFound,
        status_of(a) == 503 <==> a is NoAvailableProvider || a is NoAvailableKey,
        reason_of(RouteError::ModelNotAllowed) == "model_not_allowed"@,
        reason_of(RouteError::ModelNotFound) == "model_not_found"@,
        reason_of(RouteError::TenantForbidden) == "tenant_forbidden"@,
        reason_of(RouteError::NoAvailableProvider) == "no_available_provider"@,
        reason_of(RouteError::NoAvailableKey) == "no_available_key"@,
        a != b ==> reason_of(a) != reason_of(b),
{
    reveal_strlit("model_not_allowed");
    reveal_strlit("model_not_found");
    reveal_strlit("tenant_forbidden");
    reveal_strlit("no_available_provider");
    reveal_strlit("no_available_key");
    assert("model_not_allowed"@.len() == 17);
    assert("model_not_found"@.len() == 15);
    assert("tenant_forbidden"@.len() == 16);
    assert("no_available_provider"@.len() == 21);
    assert("no_available_key"@.len() == 16);
    assert("tenant_forbidden"@[0] != "no_available_key"@[0]);
}

} // verus!
