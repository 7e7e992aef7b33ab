//! Circuit breaker: consecutive failures make a provider dead, one success
//! brings it back.
//!
//! The breaker changes on failures and successes alone. There is no clock in it
//! and no probe: whoever probes a dead provider reports the success.

use vstd::hash_map::StringHashMap;
use vstd::hash_set::StringHashSet;
use vstd::prelude::*;

verus! {

/// What routing asks of a circuit breaker.
pub trait BreakerView: Send + Sync {
    /// The provider is left out of routing.
    spec fn dead(&self, id: Seq<char>) -> bool;

    /// Whether the provider is left out of routing.
    fn is_dead(&self, provider_id: &str) -> (r: bool)
        ensures
            r == self.dead(provider_id@),
    ;
}

/// When a breaker trips.
#[derive(Clone, Debug, PartialEq, Eq)]
pub struct BreakerConfig {
    /// As many consecutive failures make a provider dead.
    pub threshold: u32,
}

impl BreakerConfig {
    /// A breaker that trips at `threshold` consecutive failures.
    pub fn new(threshold: u32) -> (r: Self)
        ensures
            r.threshold == threshold,
    {
        BreakerConfig { threshold }
    }
}

impl Default for BreakerConfig {
    /// Five consecutive failures.
    fn default() -> (r: Self)
        ensures
            r.threshold == 5,
    {
        BreakerConfig { threshold: 5 }
    }
}

/// What a breaker knows.
pub struct BreakerState {
    /// Consecutive failures by provider id. A provider without any is missing.
    pub fails: Map<Seq<char>, u32>,
    /// The dead providers.
    pub dead: Set<Seq<char>>,
    pub threshold: u32,
}

/// Consecutive failures of a provider.
pub open spec fn fails_of(b: BreakerState, id: Seq<char>) -> int {
    if b.fails.contains_key(id) {
        b.fails[id] as int
    } else {
        0
    }
}

/// What is known after a failure of `id`.
pub open spec fn failed(b: BreakerState, id: Seq<char>) -> BreakerState {
    let n = fails_of(b, id) + 1;
    BreakerState {
        fails: b.fails.insert(id, n as u32),
        dead: if n >= b.threshold {
            b.dead.insert(id)
        } else {
            b.dead
        },
        ..b
    }
}

/// What is known after a success of `id`.
pub open spec fn succeeded(b: BreakerState, id: Seq<char>) -> BreakerState {
    BreakerState { fails: b.fails.remove(id), dead: b.dead.remove(id), ..b }
}

/// Consecutive-failure counts and the set of dead providers.
pub struct Breaker {
    fails: StringHashMap<u32>,
    dead: StringHashSet,
    cfg: BreakerConfig,
}

impl View for Breaker {
    type V = BreakerState;

    closed spec fn view(&self) -> BreakerState {
        BreakerState { fails: self.fails@, dead: self.dead@, threshold: self.cfg.threshold }
    }
}

impl Default for Breaker {
    fn default() -> (r: Self)
        ensures
            r@.fails == Map::<Seq<char>, u32>::empty(),
            r@.dead == Set::<Seq<char>>::empty(),
            r@.threshold == 5,
    {
        Breaker::new(BreakerConfig::default())
    }
}

impl Breaker {
    /// A breaker that has seen nothing yet.
    pub fn new(cfg: BreakerConfig) -> (r: Self)
        ensures
            r@.fails == Map::<Seq<char>, u32>::empty(),
            r@.dead == Set::<Seq<char>>::empty(),
            r@.threshold == cfg.threshold,
    {
        Breaker { fails: StringHashMap::new(), dead: StringHashSet::new(), cfg }
    }

    /// Records a failure. At the threshold the provider is dead.
    pub fn on_failure(&mut self, provider_id: &str)
        requires
            fails_of(old(self)@, provider_id@) < u32::MAX,
        ensures
            final(self)@ == failed(old(self)@, provider_id@),
    {
        let count: u32 = self.fail_count(provider_id) + 1;
        self.fails.insert(provider_id.to_string(), count);
        if count >= self.cfg.threshold {
            self.dead.insert(provider_id.to_string());
        }
    }

    /// Records a success: the count starts anew, and the provider is alive.
    pub fn on_success(&mut self, provider_id: &str)
        ensures
            final(self)@ == succeeded(old(self)@, provider_id@),
    {
        self.fails.remove(provider_id);
        self.dead.remove(provider_id);
    }

    /// Whether the provider is dead. One that was never heard of is not.
    pub fn is_dead(&self, provider_id: &str) -> (r: bool)
        ensures
            r == self@.dead.contains(provider_id@),
    {
        self.dead.contains(provider_id)
    }

    /// How many failures in a row the provider has had.
    pub fn fail_count(&self, provider_id: &str) -> (r: u32)
        ensures
            r == fails_of(self@, provider_id@),
    {
        match self.fails.get(provider_id) {
            Some(n) => *n,
            None => 0,
        }
    }
}

impl BreakerView for Breaker {
    open spec fn dead(&self, id: Seq<char>) -> bool {
        self@.dead.contains(id)
    }

    fn is_dead(&self, provider_id: &str) -> (r: bool) {
        self.dead.contains(provider_id)
    }
}

// ---------------------------------------------------------------------------
// Laws
// ---------------------------------------------------------------------------

/// A report on a provider: it failed, or it did not.
pub struct Report {
    pub id: Seq<char>,
    pub failed: bool,
}

/// What is known once the reports have followed `b`, in order.
pub open spec fn reported(b: BreakerState, reports: Seq<Report>) -> BreakerState
    decreases reports.len(),
{
    if reports.len() == 0 {
        b
    } else {
        let before = reported(b, reports.drop_last());
        let last = reports.last();
        if last.failed {
            failed(before, last.id)
        } else {
            succeeded(before, last.id)
        }
    }
}

/// The failures of `id` since its last success.
pub open spec fn streak(reports: Seq<Report>, id: Seq<char>) -> int
    decreases reports.len(),
{
    if reports.len() == 0 {
        0
    } else if reports.last().id != id {
        streak(reports.drop_last(), id)
    } else if reports.last().failed {
        streak(reports.drop_last(), id) + 1
    } else {
        0
    }
}

/// A provider is dead exactly when its failures since its last success have
/// reached the threshold. Reports on other providers have no part in it.
pub proof fn law_dead_at_threshold(b: BreakerState, reports: Seq<Report>, id: Seq<char>)
    requires
        b.fails == Map::<Seq<char>, u32>::empty(),
        b.dead == Set::<Seq<char>>::empty(),
        reports.len() <= u32::MAX,
    ensures
        fails_of(reported(b, reports), id) == streak(reports, id),
        reported(b, reports).dead.contains(id) <==> streak(reports, id) >= 1 && streak(reports, id)
            >= b.threshold,
{
    lemma_reported(b, reports, id);
}

proof fn lemma_reported(b: BreakerState, reports: Seq<Report>, id: Seq<char>)
    requires
        b.fails == Map::<Seq<char>, u32>::empty(),
        b.dead == Set::<Seq<char>>::empty(),
        reports.len() <= u32::MAX,
    ensures
        reported(b, reports).threshold == b.threshold,
        0 <= streak(reports, id) <= reports.len(),
        fails_of(reported(b, reports), id) == streak(reports, id),
        reported(b, reports).dead.contains(id) <==> streak(reports, id) >= 1 && streak(reports, id)
            >= b.threshold,
    decreases reports.len(),
{
    if reports.len() > 0 {
        lemma_reported(b, reports.drop_last(), id);
    }
}

/// A dead provider stays dead until it succeeds.
pub proof fn law_dead_until_success(b: BreakerState, reports: Seq<Report>, id: Seq<char>)
    requires
        b.dead.contains(id),
        forall|i: int|
            0 <= i < reports.len() ==> (#[trigger] reports[i]).failed || reports[i].id != id,
    ensures
        reported(b, reports).dead.contains(id),
    decreases reports.len(),
{
    if reports.len() > 0 {
        let d = reports.drop_last();
        assert forall|i: int| 0 <= i < d.len() implies (#[trigger] d[i]).failed || d[i].id
            != id by {
            assert(d[i] == reports[i]);
        }
        law_dead_until_success(b, d, id);
        assert(reports[reports.len() - 1] == reports.last());
    }
}

/// So many failures of one provider in a row, and nothing else, make it dead exactly
/// from the threshold on. One success brings it back with no failure on record.
pub proof fn law_failures_in_a_row(b: BreakerState, reports: Seq<Report>, id: Seq<char>)
    requires
        b.fails == Map::<Seq<char>, u32>::empty(),
        b.dead == Set::<Seq<char>>::empty(),
        0 < reports.len() <= u32::MAX,
        forall|i: int| 0 <= i < reports.len() ==> (#[trigger] reports[i]).failed,
        forall|i: int| 0 <= i < reports.len() ==> (#[trigger] reports[i]).id == id,
    ensures
        reported(b, reports).dead.contains(id) <==> reports.len() >= b.threshold,
        fails_of(reported(b, reports), id) == reports.len(),
        !succeeded(reported(b, reports), id).dead.contains(id),
        fails_of(succeeded(reported(b, reports), id), id) == 0,
        forall|other: Seq<char>|
            other != id ==> !(#[trigger] reported(b, reports).dead.contains(other)),
{
    lemma_reported(b, reports, id);
    lemma_streak_of_failures(reports, id);
    assert forall|other: Seq<char>| other != id implies !(#[trigger] reported(
        b,
        reports,
    ).dead.contains(other)) by {
        lemma_reported(b, reports, other);
        lemma_streak_of_others(reports, id, other);
    }
}

proof fn lemma_streak_of_failures(reports: Seq<Report>, id: Seq<char>)
    requires
        forall|i: int| 0 <= i < reports.len() ==> (#[trigger] reports[i]).failed,
        forall|i: int| 0 <= i < reports.len() ==> (#[trigger] reports[i]).id == id,
    ensures
        streak(reports, id) == reports.len(),
    decreases reports.len(),
{
    if reports.len() > 0 {
        let d = reports.drop_last();
        assert(reports[reports.len() - 1] == reports.last());
        assert forall|i: int| 0 <= i < d.len() implies (#[trigger] d[i]).failed && d[i].id == id by {
            assert(d[i] == reports[i]);
        }
        lemma_streak_of_failures(d, id);
    }
}

proof fn lemma_streak_of_others(reports: Seq<Report>, id: Seq<char>, other: Seq<char>)
    requires
        other != id,
        forall|i: int| 0 <= i < reports.len() ==> (#[trigger] reports[i]).id == id,
    ensures
        streak(reports, other) == 0,
    decreases reports.len(),
{
    if reports.len() > 0 {
        let d = reports.drop_last();
        assert(reports[reports.len() - 1] == reports.last());
        assert forall|i: int| 0 <= i < d.len() implies (#[trigger] d[i]).id == id by {
            assert(d[i] == reports[i]);
        }
        lemma_streak_of_others(d, id, other);
    }
}

/// A report on one provider changes nothing of another.
pub proof fn law_reports_do_not_mix(b: BreakerState, id: Seq<char>, other: Seq<char>)
    requires
        other != id,
    ensures
        failed(b, id).dead.contains(other) == b.dead.contains(other),
        fails_of(failed(b, id), other) == fails_of(b, other),
        succeeded(b, id).dead.contains(other) == b.dead.contains(other),
        fails_of(succeeded(b, id), other) == fails_of(b, other),
        failed(b, id).threshold == b.threshold,
        succeeded(b, id).threshold == b.threshold,
{
}

} // verus!
