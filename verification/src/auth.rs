//! Verdicts of the external auth service, and the digest that api-keys are
//! cached under.

use vstd::prelude::*;

use crate::text;

verus! {

/// Where an auth decision came from.
#[derive(Clone, Copy, Debug, PartialEq, Eq, Structural)]
pub enum CacheSource {
    /// From the cache, within its time to live.
    Hit,
    /// From the tenant's `auth_url`, just now.
    Miss,
    /// Decided here, without either.
    Local,
}

/// What the auth cache says.
#[derive(Clone, Copy, Debug, PartialEq, Eq, Structural)]
pub enum Verdict {
    /// An entry within its time to live: allowed or denied.
    Hit(bool),
    /// No usable entry.
    Miss,
}

/// The final verdict on a request, with the HTTP status of a denial.
#[derive(Debug, PartialEq, Eq)]
pub enum AuthVerdict {
    Allowed { source: CacheSource },
    Denied { status: u16, reason: &'static str, source: CacheSource },
}

impl Clone for AuthVerdict {
    fn clone(&self) -> (r: Self)
        ensures
            r == *self,
    {
        match self {
            AuthVerdict::Allowed { source } => AuthVerdict::Allowed { source: *source },
            AuthVerdict::Denied { status, reason, source } => AuthVerdict::Denied {
                status: *status,
                reason: *reason,
                source: *source,
            },
        }
    }
}

impl AuthVerdict {
    /// Where the verdict came from.
    pub open spec fn came_from(&self) -> CacheSource {
        match *self {
            AuthVerdict::Allowed { source } => source,
            AuthVerdict::Denied { source, .. } => source,
        }
    }

    /// The metric label for where the verdict came from.
    pub fn source_label(&self) -> (r: &'static str)
        ensures
            r@ == match self.came_from() {
                CacheSource::Hit => "hit"@,
                CacheSource::Miss => "miss"@,
                CacheSource::Local => "local"@,
            },
    {
        let source = match self {
            AuthVerdict::Allowed { source } => *source,
            AuthVerdict::Denied { source, .. } => *source,
        };
        match source {
            CacheSource::Hit => "hit",
            CacheSource::Miss => "miss",
            CacheSource::Local => "local",
        }
    }

    /// The metric label for the verdict.
    pub fn label(&self) -> (r: &'static str)
        ensures
            r@ == if self is Allowed {
                "allowed"@
            } else {
                "denied"@
            },
    {
        match self {
            AuthVerdict::Allowed { .. } => "allowed",
            AuthVerdict::Denied { .. } => "denied",
        }
    }

    /// The request was denied because the auth service could not be reached.
    pub open spec fn unreachable(&self) -> bool {
        match *self {
            AuthVerdict::Denied { reason, .. } => reason@ == "auth_upstream_unavailable"@,
            AuthVerdict::Allowed { .. } => false,
        }
    }

    /// Whether the request was denied because the auth service could not be
    /// reached.
    pub fn is_upstream_failure(&self) -> (r: bool)
        ensures
            r == self.unreachable(),
    {
        match self {
            AuthVerdict::Denied { reason, .. } => text::same(*reason, "auth_upstream_unavailable"),
            AuthVerdict::Allowed { .. } => false,
        }
    }
}

/// A remembered decision, and the time from which it no longer counts.
#[derive(Clone, Copy, Debug, PartialEq, Eq, Structural)]
pub struct CacheEntry {
    pub allowed: bool,
    pub until: u64,
}

/// What the cache says at `now`: the remembered decision, as long as it counts.
pub open spec fn recalled(entry: Option<CacheEntry>, now: u64) -> Verdict {
    match entry {
        Some(e) => if now < e.until {
            Verdict::Hit(e.allowed)
        } else {
            Verdict::Miss
        },
        None => Verdict::Miss,
    }
}

/// What the cache says at `now`, in milliseconds: the remembered decision, as
/// long as it counts.
pub fn cache_decision(entry: Option<CacheEntry>, now: u64) -> (r: Verdict)
    ensures
        r == recalled(entry, now),
{
    match entry {
        Some(e) => if now < e.until {
            Verdict::Hit(e.allowed)
        } else {
            Verdict::Miss
        },
        None => Verdict::Miss,
    }
}

/// How long an allowance is remembered, in milliseconds: five minutes.
pub const ALLOW_TTL: u64 = 300_000;

/// How long a denial is remembered, in milliseconds: half a minute.
pub const DENY_TTL: u64 = 30_000;

/// How long a verdict is remembered.
pub open spec fn time_to_live(allowed: bool) -> u64 {
    if allowed {
        ALLOW_TTL
    } else {
        DENY_TTL
    }
}

/// `now` and `span` later, or the end of time where that comes first.
pub open spec fn later_by(now: u64, span: u64) -> u64 {
    if now + span <= u64::MAX {
        (now + span) as u64
    } else {
        u64::MAX
    }
}

/// What is remembered of a verdict that came at `now`. Of a service that could not be
/// reached nothing is.
pub open spec fn memory_of(v: AuthVerdict, now: u64) -> Option<CacheEntry> {
    if v.unreachable() {
        None
    } else {
        Some(
            CacheEntry { allowed: v is Allowed, until: later_by(now, time_to_live(v is Allowed)) },
        )
    }
}

/// What is remembered of a verdict that came at `now`, in milliseconds: an
/// allowance for five minutes, a denial for half a minute, and nothing of a service
/// that could not be reached.
pub fn remembered(v: &AuthVerdict, now: u64) -> (r: Option<CacheEntry>)
    ensures
        r == memory_of(*v, now),
{
    if v.is_upstream_failure() {
        return None;
    }
    let allowed = match v {
        AuthVerdict::Allowed { .. } => true,
        AuthVerdict::Denied { .. } => false,
    };
    let ttl: u64 = if allowed {
        ALLOW_TTL
    } else {
        DENY_TTL
    };
    let until: u64 = if now <= u64::MAX - ttl {
        now + ttl
    } else {
        u64::MAX
    };
    Some(CacheEntry { allowed, until })
}

/// The verdict of a remembered or fresh decision.
pub fn decide(allowed: bool, source: CacheSource) -> (r: AuthVerdict)
    ensures
        r.came_from() == source,
        match r {
            AuthVerdict::Allowed { .. } => allowed,
            AuthVerdict::Denied { status, reason, .. } => !allowed && status == 401 && reason@
                == "auth_denied"@,
        },
{
    if allowed {
        AuthVerdict::Allowed { source }
    } else {
        AuthVerdict::Denied { status: 401, reason: "auth_denied", source }
    }
}

/// The verdict on the status that the auth service answered, or on its silence.
/// Success allows. Silence and a server error deny for want of an answer.
pub fn apply_upstream(status: Option<u16>) -> (r: AuthVerdict)
    ensures
        r.came_from() == CacheSource::Miss,
        match r {
            AuthVerdict::Allowed { .. } => status matches Some(s) && 200 <= s < 300,
            AuthVerdict::Denied { status: c, reason, .. } => if status is None || status->0 >= 500 {
                c == 503 && reason@ == "auth_upstream_unavailable"@
            } else {
                !(200 <= status->0 < 300) && c == 401 && reason@ == "auth_denied"@
            },
        },
{
    match status {
        Some(s) => if s >= 500 {
            AuthVerdict::Denied {
                status: 503,
                reason: "auth_upstream_unavailable",
                source: CacheSource::Miss,
            }
        } else {
            decide(s >= 200 && s < 300, CacheSource::Miss)
        },
        None => AuthVerdict::Denied {
            status: 503,
            reason: "auth_upstream_unavailable",
            source: CacheSource::Miss,
        },
    }
}

/// The SHA-256 digest of `input`: what `Sha256` computes.
pub uninterp spec fn sha256(input: Seq<u8>) -> Seq<u8>;

/// Calls `sha2::Digest::digest` for `Sha256`. The result is what [`sha256`]
/// names.
#[verifier::external_body]
fn digest(input: &[u8]) -> (r: [u8; 32])
    ensures
        r@ == sha256(input@),
{
    <sha2::Sha256 as sha2::Digest>::digest(input).into()
}

/// The SHA-256 digest of `input`, as 32 raw bytes. Api-keys are cached under
/// it, so that no plaintext key stays in the cache.
pub fn sha256_hex(input: &[u8]) -> (r: [u8; 32])
    ensures
        r@ == sha256(input@),
{
    digest(input)
}

// ---------------------------------------------------------------------------
// Laws
// ---------------------------------------------------------------------------

/// A verdict is served from the cache until its time is over, and then the service
/// is asked again: an allowance for five minutes, a denial for half a minute. A
/// service that could not be reached is asked again at once.
pub proof fn law_verdict_is_served_until_its_time(v: AuthVerdict, now: u64, later: u64)
    requires
        now <= later,
        now + ALLOW_TTL <= u64::MAX,
    ensures
        recalled(memory_of(v, now), later) == if !v.unreachable() && later - now < time_to_live(
            v is Allowed,
        ) {
            Verdict::Hit(v is Allowed)
        } else {
            Verdict::Miss
        },
{
}

/// An allowance counts for less than five minutes and a denial for less than half a
/// minute, each as what it was. An unreachable service leaves nothing behind.
pub proof fn law_how_long_verdicts_count(v: AuthVerdict, now: u64, later: u64)
    requires
        now <= later,
        now + 300_000 <= u64::MAX,
    ensures
        match v {
            AuthVerdict::Allowed { .. } => recalled(memory_of(v, now), later) == if later - now
                < 5 * 60 * 1000 {
                Verdict::Hit(true)
            } else {
                Verdict::Miss
            },
            AuthVerdict::Denied { reason, .. } => recalled(memory_of(v, now), later) == if reason@
                != "auth_upstream_unavailable"@ && later - now < 30 * 1000 {
                Verdict::Hit(false)
            } else {
                Verdict::Miss
            },
        },
{
}

/// What was never remembered is not recalled.
pub proof fn law_nothing_is_recalled_of_nothing(now: u64)
    ensures
        recalled(None, now) == Verdict::Miss,
{
}

/// A verdict knows where it came from.
pub proof fn law_verdict_keeps_its_source(status: u16, reason: &'static str, source: CacheSource)
    ensures
        (AuthVerdict::Allowed { source }).came_from() == source,
        (AuthVerdict::Denied { status, reason, source }).came_from() == source,
        !(AuthVerdict::Allowed { source }).unreachable(),
        (AuthVerdict::Denied { status, reason, source }).unreachable() <==> reason@
            == "auth_upstream_unavailable"@,
{
}

} // verus!
