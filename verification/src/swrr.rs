//! Smooth weighted round-robin: one round over the candidates of a request.
//!
//! A round raises every candidate's running weight by its own weight, picks the
//! candidate whose running weight is then the greatest (the first of several),
//! lowers the picked one by the sum of all weights, and moves it to the front.
//! The others keep their order, so a request that fails over walks down the list.

use vstd::hash_map::StringHashMap;
use vstd::prelude::*;

use crate::model::Candidate;
use crate::text;

verus! {

/// Running weights by provider id. A provider that is missing stands at zero.
pub struct SwrrState {
    pub current_weights: StringHashMap<i32>,
}

impl View for SwrrState {
    type V = Map<Seq<char>, i32>;

    open spec fn view(&self) -> Map<Seq<char>, i32> {
        self.current_weights@
    }
}

impl Default for SwrrState {
    /// No provider has a running weight yet.
    fn default() -> (r: Self)
        ensures
            r@ == Map::<Seq<char>, i32>::empty(),
    {
        SwrrState { current_weights: StringHashMap::new() }
    }
}

/// The running weight of a provider.
pub open spec fn weight_of(w: Map<Seq<char>, i32>, id: Seq<char>) -> int {
    if w.contains_key(id) {
        w[id] as int
    } else {
        0
    }
}

/// The sum of the candidates' weights.
pub open spec fn total(c: Seq<Candidate>) -> int
    decreases c.len(),
{
    if c.len() == 0 {
        0
    } else {
        total(c.drop_last()) + c.last().weight
    }
}

/// The sum of the weights of those candidates that are `id`.
pub open spec fn gained(c: Seq<Candidate>, id: Seq<char>) -> int
    decreases c.len(),
{
    if c.len() == 0 {
        0
    } else {
        gained(c.drop_last(), id) + if c.last().provider_id@ == id {
            c.last().weight as int
        } else {
            0
        }
    }
}

/// One of the candidates is `id`.
pub open spec fn named(c: Seq<Candidate>, id: Seq<char>) -> bool {
    exists|i: int| 0 <= i < c.len() && (#[trigger] c[i]).provider_id@ == id
}

/// The running weight of `id` once all candidates are raised.
pub open spec fn raised(c: Seq<Candidate>, w: Map<Seq<char>, i32>, id: Seq<char>) -> int {
    weight_of(w, id) + gained(c, id)
}

/// Candidate `p` has the greatest raised weight, and is the first that has it.
pub open spec fn wins(c: Seq<Candidate>, w: Map<Seq<char>, i32>, p: int) -> bool {
    0 <= p < c.len() && forall|j: int|
        0 <= j < c.len() ==> {
            let mine = raised(c, w, c[p].provider_id@);
            let theirs = raised(c, w, (#[trigger] c[j]).provider_id@);
            theirs <= mine && (j < p ==> theirs < mine)
        }
}

/// The candidate that a round picks.
pub open spec fn winner(c: Seq<Candidate>, w: Map<Seq<char>, i32>) -> int {
    choose|p: int| wins(c, w, p)
}

/// The running weight of `id` after a round.
pub open spec fn settled(c: Seq<Candidate>, w: Map<Seq<char>, i32>, id: Seq<char>) -> int {
    raised(c, w, id) - if c[winner(c, w)].provider_id@ == id {
        total(c)
    } else {
        0
    }
}

/// `s` with element `p` moved to the front.
pub open spec fn fronted<T>(s: Seq<T>, p: int) -> Seq<T> {
    seq![s[p]] + s.take(p) + s.skip(p + 1)
}

/// `n` is an `i32`.
pub open spec fn in_range(n: int) -> bool {
    i32::MIN <= n <= i32::MAX
}

/// No sum of the round leaves the range of the running weights.
pub open spec fn fits(c: Seq<Candidate>, w: Map<Seq<char>, i32>) -> bool {
    &&& forall|k: int| 0 <= k <= c.len() ==> in_range(total(#[trigger] c.take(k)))
    &&& total(c) > 0 ==> {
        &&& forall|k: int, id: Seq<char>|
            0 <= k <= c.len() ==> in_range(weight_of(w, id) + #[trigger] gained(c.take(k), id))
        &&& in_range(settled(c, w, c[winner(c, w)].provider_id@))
    }
}

/// A round over `c` leaves the candidates as `c2`, and of the running weights
/// `w` leaves `w2`. Where the weights sum up to nothing, nothing changes.
pub open spec fn ordered(
    c: Seq<Candidate>,
    w: Map<Seq<char>, i32>,
    c2: Seq<Candidate>,
    w2: Map<Seq<char>, i32>,
) -> bool {
    if total(c) <= 0 {
        c2 == c && w2 == w
    } else {
        &&& wins(c, w, winner(c, w))
        &&& c2 == fronted(c, winner(c, w))
        &&& round(c, w, w2)
        &&& forall|id: Seq<char>| #[trigger]
            w2.contains_key(id) <==> w.contains_key(id) || named(c, id)
    }
}

/// The running weights `w2` are what a round over `c` leaves of `w`.
pub open spec fn round(
    c: Seq<Candidate>,
    w: Map<Seq<char>, i32>,
    w2: Map<Seq<char>, i32>,
) -> bool {
    forall|id: Seq<char>| #[trigger] weight_of(w2, id) == settled(c, w, id)
}

/// One round. The picked candidate comes first, the others keep their order.
pub fn order(candidates: &mut [Candidate], state: &mut SwrrState)
    requires
        fits(old(candidates)@, old(state)@),
    ensures
        ordered(old(candidates)@, old(state)@, final(candidates)@, final(state)@),
{
    let ghost c = candidates@;
    let ghost w = state@;
    let mut sum: i32 = 0;
    let mut i: usize = 0;
    assert(c.take(0) =~= Seq::empty());
    assert(c.take(c.len() as int) =~= c);
    while i < candidates.len()
        invariant
            i <= c.len(),
            candidates@ == c,
            sum == total(c.take(i as int)),
            forall|k: int| 0 <= k <= c.len() ==> in_range(total(#[trigger] c.take(k))),
        decreases c.len() - i,
    {
        assert(c.take(i + 1).drop_last() =~= c.take(i as int));
        assert(in_range(total(c.take(i + 1))));
        sum = sum + candidates[i].weight;
        i = i + 1;
    }
    if sum <= 0 {
        return;
    }
    i = 0;
    while i < candidates.len()
        invariant
            i <= c.len(),
            candidates@ == c,
            forall|k: int, id: Seq<char>|
                0 <= k <= c.len() ==> in_range(weight_of(w, id) + #[trigger] gained(c.take(k), id)),
            forall|id: Seq<char>| #[trigger]
                weight_of(state@, id) == weight_of(w, id) + gained(c.take(i as int), id),
            forall|id: Seq<char>| #[trigger]
                state@.contains_key(id) <==> w.contains_key(id) || named(c.take(i as int), id),
        decreases c.len() - i,
    {
        let ghost before = state@;
        let ghost id = c[i as int].provider_id@;
        proof {
            assert(c.take(i + 1).drop_last() =~= c.take(i as int));
            assert(in_range(weight_of(w, id) + gained(c.take(i + 1), id)));
        }
        let raised = current_weight(state, candidates[i].provider_id.as_str())
            + candidates[i].weight;
        state.current_weights.insert(candidates[i].provider_id.clone(), raised);
        proof {
            assert forall|x: Seq<char>| #[trigger]
                weight_of(state@, x) == weight_of(w, x) + gained(c.take(i + 1), x) by {
                assert(weight_of(before, x) == weight_of(w, x) + gained(c.take(i as int), x));
            }
            assert forall|x: Seq<char>| #[trigger]
                state@.contains_key(x) <==> w.contains_key(x) || named(c.take(i + 1), x) by {
                assert(before.contains_key(x) <==> w.contains_key(x) || named(
                    c.take(i as int),
                    x,
                ));
                lemma_named_step(c, i as int, x);
            }
        }
        i = i + 1;
    }
    proof {
        assert(c.len() > 0) by {
            if c.len() == 0 {
                assert(c =~= Seq::empty());
            }
        }
    }
    let mut picked: usize = 0;
    i = 1;
    while i < candidates.len()
        invariant
            1 <= i <= c.len(),
            picked < i,
            candidates@ == c,
            forall|id: Seq<char>| #[trigger] weight_of(state@, id) == raised(c, w, id),
            forall|j: int|
                0 <= j < i ==> {
                    let mine = raised(c, w, c[picked as int].provider_id@);
                    let theirs = raised(c, w, (#[trigger] c[j]).provider_id@);
                    theirs <= mine && (j < picked ==> theirs < mine)
                },
        decreases c.len() - i,
    {
        if current_weight(state, candidates[i].provider_id.as_str()) > current_weight(
            state,
            candidates[picked].provider_id.as_str(),
        ) {
            picked = i;
        }
        i = i + 1;
    }
    proof {
        assert(wins(c, w, picked as int));
        lemma_winner(c, w, picked as int);
        assert(in_range(settled(c, w, c[picked as int].provider_id@)));
    }
    let ghost before = state@;
    let left = current_weight(state, candidates[picked].provider_id.as_str()) - sum;
    state.current_weights.insert(candidates[picked].provider_id.clone(), left);
    proof {
        assert forall|id: Seq<char>| #[trigger] weight_of(state@, id) == settled(c, w, id) by {
            assert(weight_of(before, id) == raised(c, w, id));
        }
        assert forall|id: Seq<char>| #[trigger]
            state@.contains_key(id) <==> w.contains_key(id) || named(c, id) by {
            assert(before.contains_key(id) <==> w.contains_key(id) || named(c, id));
        }
    }
    to_front(candidates, picked);
}

/// Whether a round over these candidates stays within the range of the running
/// weights, as [`order`] asks.
pub fn order_fits(candidates: &[Candidate], state: &SwrrState) -> (r: bool)
    ensures
        r == fits(candidates@, state@),
{
    let ghost c = candidates@;
    let ghost w = state@;
    let mut sum: i64 = 0;
    let mut i: usize = 0;
    assert(c.take(0) =~= Seq::empty());
    assert(c.take(c.len() as int) =~= c);
    while i < candidates.len()
        invariant
            i <= c.len(),
            candidates@ == c,
            sum == total(c.take(i as int)),
            forall|k: int| 0 <= k <= i ==> in_range(total(#[trigger] c.take(k))),
        decreases c.len() - i,
    {
        assert(c.take(i + 1).drop_last() =~= c.take(i as int));
        assert(in_range(total(c.take(i as int))));
        sum = sum + candidates[i].weight as i64;
        if sum < i32::MIN as i64 || sum > i32::MAX as i64 {
            assert(!in_range(total(c.take(i + 1))));
            return false;
        }
        i = i + 1;
    }
    if sum <= 0 {
        return true;
    }
    proof {
        assert forall|id: Seq<char>| in_range(weight_of(w, id) + #[trigger] gained(c.take(0), id)) by {
            assert(in_range(weight_of(w, id)));
        }
    }
    let mut best: usize = 0;
    i = 0;
    while i < candidates.len()
        invariant
            i <= c.len(),
            candidates@ == c,
            state@ == w,
            best == 0 || best < i,
            sum > 0,
            total(c) == sum,
            forall|k: int| 0 <= k <= c.len() ==> in_range(total(#[trigger] c.take(k))),
            forall|k: int, id: Seq<char>|
                0 <= k <= i ==> in_range(weight_of(w, id) + #[trigger] gained(c.take(k), id)),
            forall|j: int|
                0 <= j < i ==> {
                    let mine = raised(c, w, c[best as int].provider_id@);
                    let theirs = raised(c, w, (#[trigger] c[j]).provider_id@);
                    theirs <= mine && (j < best ==> theirs < mine)
                },
        decreases c.len() - i,
    {
        let ghost id = c[i as int].provider_id@;
        let so_far: i128 = raised_over(candidates, i + 1, state, candidates[i].provider_id.as_str());
        if so_far < i32::MIN as i128 || so_far > i32::MAX as i128 {
            assert(!in_range(weight_of(w, id) + gained(c.take(i + 1), id)));
            return false;
        }
        proof {
            assert forall|x: Seq<char>|
                in_range(weight_of(w, x) + #[trigger] gained(c.take(i + 1), x)) by {
                assert(c.take(i + 1).drop_last() =~= c.take(i as int));
                assert(in_range(weight_of(w, x) + gained(c.take(i as int), x)));
            }
            assert(c.take(c.len() as int) =~= c);
        }
        let n: usize = candidates.len();
        let mine: i128 = raised_over(candidates, n, state, candidates[i].provider_id.as_str());
        let theirs: i128 = raised_over(candidates, n, state, candidates[best].provider_id.as_str());
        if mine > theirs {
            best = i;
        }
        i = i + 1;
    }
    proof {
        assert(c.len() > 0) by {
            if c.len() == 0 {
                assert(c =~= Seq::empty());
            }
        }
        assert(wins(c, w, best as int));
        lemma_winner(c, w, best as int);
        assert(in_range(weight_of(w, c[best as int].provider_id@) + gained(
            c.take(c.len() as int),
            c[best as int].provider_id@,
        )));
    }
    let left: i128 = raised_over(
        candidates,
        candidates.len(),
        state,
        candidates[best].provider_id.as_str(),
    ) - sum as i128;
    left >= i32::MIN as i128 && left <= i32::MAX as i128
}

/// A provider's running weight once the first `n` candidates are raised.
fn raised_over(candidates: &[Candidate], n: usize, state: &SwrrState, provider_id: &str) -> (r:
    i128)
    requires
        n <= candidates@.len(),
    ensures
        r == weight_of(state@, provider_id@) + gained(candidates@.take(n as int), provider_id@),
        -0x8000_0000 * (n + 1) <= r <= 0x8000_0000 * (n + 1),
{
    let ghost c = candidates@;
    let mut sum: i128 = current_weight(state, provider_id) as i128;
    let mut i: usize = 0;
    assert(c.take(0) =~= Seq::empty());
    while i < n
        invariant
            i <= n <= c.len(),
            candidates@ == c,
            sum == weight_of(state@, provider_id@) + gained(c.take(i as int), provider_id@),
            -0x8000_0000 * (i + 1) <= sum <= 0x8000_0000 * (i + 1),
        decreases n - i,
    {
        assert(c.take(i + 1).drop_last() =~= c.take(i as int));
        if text::same(candidates[i].provider_id.as_str(), provider_id) {
            sum = sum + candidates[i].weight as i128;
        }
        i = i + 1;
    }
    sum
}

/// A provider's running weight, zero where it has none yet.
fn current_weight(state: &SwrrState, provider_id: &str) -> (r: i32)
    ensures
        r == weight_of(state@, provider_id@),
{
    match state.current_weights.get(provider_id) {
        Some(w) => *w,
        None => 0,
    }
}

/// Moves element `p` to the front.
fn to_front<T>(s: &mut [T], p: usize)
    requires
        p < old(s)@.len(),
    ensures
        final(s)@ == fronted(old(s)@, p as int),
{
    let ghost o = s@;
    let mut j: usize = p;
    assert(s@ =~= o.take(p as int) + seq![o[p as int]] + o.subrange(p as int, p as int) + o.skip(
        p + 1,
    ));
    while j > 0
        invariant
            j <= p < o.len(),
            s@ == o.take(j as int) + seq![o[p as int]] + o.subrange(j as int, p as int) + o.skip(
                p + 1,
            ),
        decreases j,
    {
        let (a, b) = s.split_at_mut(j);
        core::mem::swap(&mut a[j - 1], &mut b[0]);
        j = j - 1;
        assert(s@ =~= o.take(j as int) + seq![o[p as int]] + o.subrange(j as int, p as int)
            + o.skip(p + 1));
    }
    assert(s@ =~= fronted(o, p as int));
}

proof fn lemma_named_step(c: Seq<Candidate>, i: int, id: Seq<char>)
    requires
        0 <= i < c.len(),
    ensures
        named(c.take(i + 1), id) <==> named(c.take(i), id) || c[i].provider_id@ == id,
{
    let a = c.take(i);
    let b = c.take(i + 1);
    if named(a, id) {
        let k = choose|k: int| 0 <= k < a.len() && (#[trigger] a[k]).provider_id@ == id;
        assert(b[k] == a[k]);
    }
    if c[i].provider_id@ == id {
        assert(b[i] == c[i]);
    }
    if named(b, id) {
        let k = choose|k: int| 0 <= k < b.len() && (#[trigger] b[k]).provider_id@ == id;
        if k < i {
            assert(a[k] == b[k]);
        }
    }
}

/// There is only one winner.
proof fn lemma_winner(c: Seq<Candidate>, w: Map<Seq<char>, i32>, p: int)
    requires
        wins(c, w, p),
    ensures
        winner(c, w) == p,
{
    let q = winner(c, w);
    assert(wins(c, w, q));
    assert(raised(c, w, c[q].provider_id@) <= raised(c, w, c[p].provider_id@));
    assert(raised(c, w, c[p].provider_id@) <= raised(c, w, c[q].provider_id@));
}

// ---------------------------------------------------------------------------
// Laws
// ---------------------------------------------------------------------------

/// The candidates are different providers, and each weighs something.
pub open spec fn regular(c: Seq<Candidate>) -> bool {
    &&& c.len() > 0
    &&& forall|i: int| 0 <= i < c.len() ==> (#[trigger] c[i]).weight > 0
    &&& forall|i: int, j: int|
        0 <= i < j < c.len() ==> (#[trigger] c[i]).provider_id@ != (#[trigger] c[j]).provider_id@
}

/// The sum of `f` over the candidates' providers.
pub open spec fn sum_by(c: Seq<Candidate>, f: spec_fn(Seq<char>) -> int) -> int
    decreases c.len(),
{
    if c.len() == 0 {
        0
    } else {
        sum_by(c.drop_last(), f) + f(c.last().provider_id@)
    }
}

/// The candidates' running weights cancel out, and none owes a whole round.
pub open spec fn balanced(c: Seq<Candidate>, w: Map<Seq<char>, i32>) -> bool {
    &&& sum_by(c, |id: Seq<char>| weight_of(w, id)) == 0
    &&& forall|i: int|
        0 <= i < c.len() ==> weight_of(w, (#[trigger] c[i]).provider_id@) > -total(c)
}

/// The rounds over `lists` lead from each of `states` to the next.
pub open spec fn run(lists: Seq<Seq<Candidate>>, states: Seq<Map<Seq<char>, i32>>) -> bool {
    states.len() == lists.len() + 1 && forall|k: int|
        0 <= k < lists.len() ==> round(#[trigger] lists[k], states[k], states[k + 1])
}

/// How often `id` is picked in the first `n` rounds.
pub open spec fn picks(
    lists: Seq<Seq<Candidate>>,
    states: Seq<Map<Seq<char>, i32>>,
    n: int,
    id: Seq<char>,
) -> int
    decreases n,
{
    if n <= 0 {
        0
    } else {
        let c = lists[n - 1];
        picks(lists, states, n - 1, id) + if c[winner(c, states[n - 1])].provider_id@ == id {
            1int
        } else {
            0
        }
    }
}

/// A round only reorders: no candidate is lost, none comes twice.
pub proof fn law_order_keeps_candidates(c: Seq<Candidate>, p: int)
    requires
        0 <= p < c.len(),
    ensures
        fronted(c, p).to_multiset() == c.to_multiset(),
        fronted(c, p).len() == c.len(),
{
    broadcast use vstd::seq_lib::group_to_multiset_ensures;

    let rest = c.take(p) + c.skip(p + 1);
    assert(c.remove(p) =~= rest);
    assert(fronted(c, p) =~= rest.insert(0, c[p]));
    assert(rest.insert(0, c[p]).to_multiset() =~= rest.to_multiset().insert(c[p]));
    assert(c.remove(p).to_multiset() =~= c.to_multiset().remove(c[p]));
    assert(c.to_multiset().count(c[p]) > 0);
    assert(fronted(c, p).to_multiset() =~= c.to_multiset());
}

proof fn lemma_gained_none(c: Seq<Candidate>, id: Seq<char>)
    requires
        !named(c, id),
    ensures
        gained(c, id) == 0,
    decreases c.len(),
{
    if c.len() > 0 {
        assert(c[c.len() - 1] == c.last());
        assert forall|i: int| 0 <= i < c.len() - 1 implies (
        #[trigger] c.drop_last()[i]).provider_id@ != id by {
            assert(c[i] == c.drop_last()[i]);
        }
        lemma_gained_none(c.drop_last(), id);
    }
}

/// Among different providers, each gains its own weight.
proof fn lemma_gained_own(c: Seq<Candidate>, k: int, i: int)
    requires
        regular(c),
        0 <= k <= c.len(),
        0 <= i < c.len(),
    ensures
        gained(c.take(k), c[i].provider_id@) == if i < k {
            c[i].weight as int
        } else {
            0
        },
    decreases k,
{
    if k > 0 {
        assert(c.take(k).drop_last() =~= c.take(k - 1));
        lemma_gained_own(c, k - 1, i);
        assert(c.take(k).last() == c[k - 1]);
        if i != k - 1 {
            assert(c[i].provider_id@ != c[k - 1].provider_id@);
        }
    }
}

proof fn lemma_raised(c: Seq<Candidate>, w: Map<Seq<char>, i32>, i: int)
    requires
        regular(c),
        0 <= i < c.len(),
    ensures
        raised(c, w, c[i].provider_id@) == weight_of(w, c[i].provider_id@) + c[i].weight,
{
    assert(c.take(c.len() as int) =~= c);
    lemma_gained_own(c, c.len() as int, i);
}

proof fn lemma_total_bounds(c: Seq<Candidate>, k: int)
    requires
        0 <= k <= c.len(),
        forall|i: int| 0 <= i < c.len() ==> (#[trigger] c[i]).weight > 0,
    ensures
        k <= total(c.take(k)) <= total(c) - (c.len() - k),
        forall|i: int| 0 <= i < k ==> (#[trigger] c[i]).weight <= total(c.take(k)),
    decreases c.len(),
{
    if c.len() == 0 {
        assert(c.take(k) =~= c);
    } else {
        let d = c.drop_last();
        assert(c[c.len() - 1] == c.last());
        assert forall|i: int| 0 <= i < d.len() implies (#[trigger] d[i]).weight > 0 by {
            assert(d[i] == c[i]);
        }
        if k == c.len() {
            lemma_total_bounds(d, d.len() as int);
            assert(c.take(k) =~= c);
            assert(d.take(d.len() as int) =~= d);
            assert forall|i: int| 0 <= i < k implies (#[trigger] c[i]).weight <= total(c) by {
                if i < d.len() {
                    assert(d[i] == c[i]);
                }
            }
        } else {
            lemma_total_bounds(d, k);
            assert(d.take(k) =~= c.take(k));
            assert forall|i: int| 0 <= i < k implies (#[trigger] c[i]).weight <= total(
                c.take(k),
            ) by {
                assert(d[i] == c[i]);
            }
        }
    }
}

proof fn lemma_sum_add(
    c: Seq<Candidate>,
    f: spec_fn(Seq<char>) -> int,
    h: spec_fn(Seq<char>) -> int,
)
    requires
        forall|i: int|
            0 <= i < c.len() ==> h((#[trigger] c[i]).provider_id@) == f(c[i].provider_id@)
                + c[i].weight,
    ensures
        sum_by(c, h) == sum_by(c, f) + total(c),
    decreases c.len(),
{
    if c.len() > 0 {
        let d = c.drop_last();
        assert(c[c.len() - 1] == c.last());
        assert forall|i: int| 0 <= i < d.len() implies h((#[trigger] d[i]).provider_id@) == f(
            d[i].provider_id@,
        ) + d[i].weight by {
            assert(d[i] == c[i]);
        }
        lemma_sum_add(d, f, h);
    }
}

proof fn lemma_sum_less(
    c: Seq<Candidate>,
    f: spec_fn(Seq<char>) -> int,
    h: spec_fn(Seq<char>) -> int,
    p: int,
    t: int,
)
    requires
        forall|i: int|
            0 <= i < c.len() ==> h((#[trigger] c[i]).provider_id@) == f(c[i].provider_id@) - if i
                == p {
                t
            } else {
                0
            },
    ensures
        sum_by(c, h) == sum_by(c, f) - if 0 <= p < c.len() {
            t
        } else {
            0
        },
    decreases c.len(),
{
    if c.len() > 0 {
        let d = c.drop_last();
        assert(c[c.len() - 1] == c.last());
        assert forall|i: int| 0 <= i < d.len() implies h((#[trigger] d[i]).provider_id@) == f(
            d[i].provider_id@,
        ) - if i == p {
            t
        } else {
            0
        } by {
            assert(d[i] == c[i]);
        }
        lemma_sum_less(d, f, h, p, t);
    }
}

proof fn lemma_sum_nonpositive(c: Seq<Candidate>, f: spec_fn(Seq<char>) -> int)
    requires
        forall|i: int| 0 <= i < c.len() ==> f((#[trigger] c[i]).provider_id@) <= 0,
    ensures
        sum_by(c, f) <= 0,
        forall|i: int| 0 <= i < c.len() ==> sum_by(c, f) <= f((#[trigger] c[i]).provider_id@),
    decreases c.len(),
{
    if c.len() > 0 {
        let d = c.drop_last();
        assert(c[c.len() - 1] == c.last());
        assert forall|i: int| 0 <= i < d.len() implies f((#[trigger] d[i]).provider_id@) <= 0 by {
            assert(d[i] == c[i]);
        }
        lemma_sum_nonpositive(d, f);
        assert forall|i: int| 0 <= i < c.len() implies sum_by(c, f) <= f(
            (#[trigger] c[i]).provider_id@,
        ) by {
            if i < d.len() {
                assert(d[i] == c[i]);
            }
        }
    }
}

/// A running weight is not above what all the others can owe.
proof fn lemma_sum_above(c: Seq<Candidate>, f: spec_fn(Seq<char>) -> int, t: int, i: int)
    requires
        t >= 0,
        forall|j: int| 0 <= j < c.len() ==> f((#[trigger] c[j]).provider_id@) >= -t,
        i < c.len(),
    ensures
        0 <= i ==> sum_by(c, f) >= f(c[i].provider_id@) - (c.len() - 1) * t,
        i < 0 ==> sum_by(c, f) >= -(c.len() * t),
    decreases c.len(),
{
    if c.len() > 0 {
        let d = c.drop_last();
        let n = c.len();
        assert(c[n - 1] == c.last());
        assert forall|j: int| 0 <= j < d.len() implies f((#[trigger] d[j]).provider_id@) >= -t by {
            assert(d[j] == c[j]);
        }
        assert((n - 1) * t == n * t - t) by (nonlinear_arith);
        assert((n - 2) * t == n * t - t - t) by (nonlinear_arith);
        if i == n - 1 {
            lemma_sum_above(d, f, t, -1);
        } else {
            lemma_sum_above(d, f, t, i);
            if 0 <= i {
                assert(d[i] == c[i]);
            }
        }
    }
}

proof fn lemma_winner_exists(c: Seq<Candidate>, w: Map<Seq<char>, i32>, n: int) -> (p: int)
    requires
        0 < n <= c.len(),
    ensures
        0 <= p < n,
        forall|j: int|
            0 <= j < n ==> {
                let mine = raised(c, w, c[p].provider_id@);
                let theirs = raised(c, w, (#[trigger] c[j]).provider_id@);
                theirs <= mine && (j < p ==> theirs < mine)
            },
    decreases n,
{
    if n == 1 {
        0
    } else {
        let q = lemma_winner_exists(c, w, n - 1);
        if raised(c, w, c[n - 1].provider_id@) > raised(c, w, c[q].provider_id@) {
            n - 1
        } else {
            q
        }
    }
}

/// In a balanced state the raised weight of the winner is above zero.
proof fn lemma_winner_positive(c: Seq<Candidate>, w: Map<Seq<char>, i32>)
    requires
        regular(c),
        balanced(c, w),
    ensures
        wins(c, w, winner(c, w)),
        raised(c, w, c[winner(c, w)].provider_id@) > 0,
{
    let f = |id: Seq<char>| weight_of(w, id);
    let g = |id: Seq<char>| raised(c, w, id);
    let q = lemma_winner_exists(c, w, c.len() as int);
    assert(wins(c, w, q));
    lemma_winner(c, w, q);
    assert forall|i: int| 0 <= i < c.len() implies g((#[trigger] c[i]).provider_id@) == f(
        c[i].provider_id@,
    ) + c[i].weight by {
        lemma_raised(c, w, i);
    }
    lemma_sum_add(c, f, g);
    lemma_total_bounds(c, c.len() as int);
    assert(c.take(c.len() as int) =~= c);
    if g(c[q].provider_id@) <= 0 {
        lemma_sum_nonpositive(c, g);
    }
}

/// A round keeps the running weights balanced. So, over the same providers,
/// they stay so for ever; a state without running weights is where they begin.
pub proof fn law_round_keeps_balance(
    c: Seq<Candidate>,
    w: Map<Seq<char>, i32>,
    w2: Map<Seq<char>, i32>,
)
    requires
        regular(c),
        balanced(c, w),
        round(c, w, w2),
    ensures
        balanced(c, w2),
{
    let f = |id: Seq<char>| weight_of(w, id);
    let g = |id: Seq<char>| raised(c, w, id);
    let h = |id: Seq<char>| weight_of(w2, id);
    let t = total(c);
    let q = winner(c, w);
    lemma_winner_positive(c, w);
    assert forall|i: int| 0 <= i < c.len() implies g((#[trigger] c[i]).provider_id@) == f(
        c[i].provider_id@,
    ) + c[i].weight by {
        lemma_raised(c, w, i);
    }
    lemma_sum_add(c, f, g);
    assert forall|i: int| 0 <= i < c.len() implies h((#[trigger] c[i]).provider_id@) == g(
        c[i].provider_id@,
    ) - if i == q {
        t
    } else {
        0
    } by {
        if i != q {
            assert(c[i].provider_id@ != c[q].provider_id@);
        }
    }
    lemma_sum_less(c, g, h, q, t);
}

/// No running weight yet: nothing is owed.
pub proof fn law_fresh_is_balanced(c: Seq<Candidate>)
    requires
        regular(c),
    ensures
        balanced(c, Map::empty()),
{
    let w = Map::<Seq<char>, i32>::empty();
    let f = |id: Seq<char>| weight_of(w, id);
    lemma_sum_less(c, |id: Seq<char>| 0int, f, -1, 0);
    lemma_zero_sum(c);
    lemma_total_bounds(c, c.len() as int);
    assert(c.take(c.len() as int) =~= c);
}

proof fn lemma_zero_sum(c: Seq<Candidate>)
    ensures
        sum_by(c, |id: Seq<char>| 0int) == 0,
    decreases c.len(),
{
    if c.len() > 0 {
        lemma_zero_sum(c.drop_last());
    }
}

/// Rounds over the same providers never leave the range of the running weights,
/// where the number of providers times the sum of their weights is within it.
pub proof fn law_balanced_fits(c: Seq<Candidate>, w: Map<Seq<char>, i32>)
    requires
        regular(c),
        balanced(c, w),
        c.len() * total(c) <= i32::MAX,
    ensures
        fits(c, w),
{
    let f = |id: Seq<char>| weight_of(w, id);
    let t = total(c);
    let n = c.len();
    lemma_total_bounds(c, n as int);
    assert(c.take(n as int) =~= c);
    assert(n * t == (n - 1) * t + t) by (nonlinear_arith);
    assert(n * t >= t) by (nonlinear_arith)
        requires
            n >= 1,
            t >= 0,
    ;
    assert forall|k: int| 0 <= k <= c.len() implies in_range(total(#[trigger] c.take(k))) by {
        lemma_total_bounds(c, k);
    }
    assert forall|i: int| 0 <= i < n implies weight_of(w, (#[trigger] c[i]).provider_id@) <= (n - 1)
        * t by {
        lemma_sum_above(c, f, t, i);
    }
    assert forall|k: int, id: Seq<char>| 0 <= k <= c.len() implies in_range(
        weight_of(w, id) + #[trigger] gained(c.take(k), id),
    ) by {
        if named(c, id) {
            let i = choose|i: int| 0 <= i < c.len() && (#[trigger] c[i]).provider_id@ == id;
            lemma_gained_own(c, k, i);
        } else {
            assert forall|i: int| 0 <= i < k implies (
            #[trigger] c.take(k)[i]).provider_id@ != id by {
                assert(c.take(k)[i] == c[i]);
            }
            lemma_gained_none(c.take(k), id);
        }
    }
    lemma_winner_positive(c, w);
    lemma_raised(c, w, winner(c, w));
}

proof fn lemma_sum_permuted(a: Seq<Candidate>, b: Seq<Candidate>, f: spec_fn(Seq<char>) -> int)
    requires
        a.to_multiset() == b.to_multiset(),
    ensures
        sum_by(a, f) == sum_by(b, f),
        total(a) == total(b),
{
    let g = |x: Candidate, v: int| v + f(x.provider_id@);
    vstd::seq_lib::lemma_fold_right_permutation(a, b, g, 0);
    lemma_sum_fold(a, f, g, 0);
    lemma_sum_fold(b, f, g, 0);
    let h = |x: Candidate, v: int| v + x.weight;
    vstd::seq_lib::lemma_fold_right_permutation(a, b, h, 0);
    lemma_total_fold(a, h, 0);
    lemma_total_fold(b, h, 0);
}

proof fn lemma_sum_fold(
    c: Seq<Candidate>,
    f: spec_fn(Seq<char>) -> int,
    g: spec_fn(Candidate, int) -> int,
    v: int,
)
    requires
        g == (|x: Candidate, v: int| v + f(x.provider_id@)),
    ensures
        c.fold_right(g, v) == v + sum_by(c, f),
    decreases c.len(),
{
    if c.len() > 0 {
        lemma_sum_fold(c.drop_last(), f, g, g(c.last(), v));
    }
}

proof fn lemma_total_fold(c: Seq<Candidate>, h: spec_fn(Candidate, int) -> int, v: int)
    requires
        h == (|x: Candidate, v: int| v + x.weight),
    ensures
        c.fold_right(h, v) == v + total(c),
    decreases c.len(),
{
    if c.len() > 0 {
        lemma_total_fold(c.drop_last(), h, h(c.last(), v));
    }
}

/// What holds of a list of candidates holds of its reorderings.
proof fn lemma_permuted(a: Seq<Candidate>, b: Seq<Candidate>, w: Map<Seq<char>, i32>)
    requires
        a.to_multiset() == b.to_multiset(),
        regular(a),
    ensures
        regular(b),
        total(a) == total(b),
        balanced(a, w) ==> balanced(b, w),
        forall|i: int| 0 <= i < b.len() ==> a.contains(#[trigger] b[i]),
        forall|i: int| 0 <= i < a.len() ==> b.contains(#[trigger] a[i]),
{
    broadcast use vstd::seq_lib::group_to_multiset_ensures;

    lemma_sum_permuted(a, b, |id: Seq<char>| weight_of(w, id));
    assert(a.to_multiset().len() == b.to_multiset().len());
    assert forall|i: int| 0 <= i < b.len() implies a.contains(#[trigger] b[i]) by {
        assert(b.to_multiset().count(b[i]) > 0);
    }
    assert forall|i: int| 0 <= i < a.len() implies b.contains(#[trigger] a[i]) by {
        assert(a.to_multiset().count(a[i]) > 0);
    }
    assert(a.no_duplicates());
    a.lemma_multiset_has_no_duplicates();
    b.lemma_multiset_has_no_duplicates_conv();
    assert forall|i: int, j: int| 0 <= i < j < b.len() implies (
    #[trigger] b[i]).provider_id@ != (#[trigger] b[j]).provider_id@ by {
        assert(a.contains(b[i]) && a.contains(b[j]));
        let x = choose|x: int| 0 <= x < a.len() && a[x] == b[i];
        let y = choose|y: int| 0 <= y < a.len() && a[y] == b[j];
        assert(x != y);
        if x < y {
            assert(a[x].provider_id@ != a[y].provider_id@);
        } else {
            assert(a[y].provider_id@ != a[x].provider_id@);
        }
    }
    assert forall|i: int| 0 <= i < b.len() implies (#[trigger] b[i]).weight > 0 by {
        assert(a.contains(b[i]));
    }
    if balanced(a, w) {
        assert forall|i: int| 0 <= i < b.len() implies weight_of(
            w,
            (#[trigger] b[i]).provider_id@,
        ) > -total(b) by {
            assert(a.contains(b[i]));
        }
    }
}

/// After `n` rounds a provider's running weight is what it has gained less what
/// its picks have cost.
proof fn lemma_ledger(
    c: Seq<Candidate>,
    lists: Seq<Seq<Candidate>>,
    states: Seq<Map<Seq<char>, i32>>,
    n: int,
)
    requires
        regular(c),
        run(lists, states),
        forall|k: int| 0 <= k < lists.len() ==> (#[trigger] lists[k]).to_multiset()
            == c.to_multiset(),
        forall|i: int|
            0 <= i < c.len() ==> weight_of(states[0], (#[trigger] c[i]).provider_id@) == 0,
        0 <= n <= lists.len(),
    ensures
        balanced(c, states[n]),
        forall|i: int|
            0 <= i < c.len() ==> weight_of(states[n], (#[trigger] c[i]).provider_id@) == n
                * c[i].weight - total(c) * picks(lists, states, n, c[i].provider_id@),
    decreases n,
{
    let t = total(c);
    if n == 0 {
        let f = |id: Seq<char>| weight_of(states[0], id);
        lemma_sum_less(c, |id: Seq<char>| 0int, f, -1, 0);
        lemma_zero_sum(c);
        lemma_total_bounds(c, c.len() as int);
        assert(c.take(c.len() as int) =~= c);
        assert forall|i: int| 0 <= i < c.len() implies weight_of(
            states[0],
            (#[trigger] c[i]).provider_id@,
        ) == 0 * c[i].weight - t * 0 by {
            assert(0 * c[i].weight - t * 0 == 0) by (nonlinear_arith);
        }
    } else {
        lemma_ledger(c, lists, states, n - 1);
        let l = lists[n - 1];
        let w = states[n - 1];
        let w2 = states[n];
        assert(round(l, w, w2));
        lemma_permuted(c, l, w);
        law_round_keeps_balance(l, w, w2);
        lemma_permuted(l, c, w2);
        assert forall|i: int| 0 <= i < c.len() implies weight_of(
            w2,
            (#[trigger] c[i]).provider_id@,
        ) == n * c[i].weight - t * picks(lists, states, n, c[i].provider_id@) by {
            let id = c[i].provider_id@;
            let x = c[i].weight as int;
            let before = picks(lists, states, n - 1, id);
            assert(l.contains(c[i]));
            let j = choose|j: int| 0 <= j < l.len() && l[j] == c[i];
            lemma_raised(l, w, j);
            assert(n * x == (n - 1) * x + x) by (nonlinear_arith);
            assert(t * (before + 1) == t * before + t) by (nonlinear_arith);
        }
    }
}

/// The share of each provider is its weight: of as many rounds as the weights
/// sum up to, each provider gets as many as it weighs, and then all running
/// weights are back at zero. The candidates may come in any order each time.
pub proof fn law_full_cycle(
    c: Seq<Candidate>,
    lists: Seq<Seq<Candidate>>,
    states: Seq<Map<Seq<char>, i32>>,
)
    requires
        regular(c),
        run(lists, states),
        lists.len() == total(c),
        forall|k: int| 0 <= k < lists.len() ==> (#[trigger] lists[k]).to_multiset()
            == c.to_multiset(),
        forall|i: int|
            0 <= i < c.len() ==> weight_of(states[0], (#[trigger] c[i]).provider_id@) == 0,
    ensures
        forall|i: int|
            0 <= i < c.len() ==> picks(
                lists,
                states,
                lists.len() as int,
                (#[trigger] c[i]).provider_id@,
            ) == c[i].weight,
        forall|i: int|
            0 <= i < c.len() ==> weight_of(states.last(), (#[trigger] c[i]).provider_id@) == 0,
{
    let t = total(c);
    let w = states[lists.len() as int];
    lemma_ledger(c, lists, states, lists.len() as int);
    let f = |id: Seq<char>| -weight_of(w, id);
    assert forall|i: int| 0 <= i < c.len() implies f((#[trigger] c[i]).provider_id@) <= 0 by {
        let x = c[i].weight as int;
        let got = picks(lists, states, lists.len() as int, c[i].provider_id@);
        assert(x - got > -1) by (nonlinear_arith)
            requires
                t * x - t * got > -t,
                t >= 0,
        ;
        assert(t * x - t * got >= 0) by (nonlinear_arith)
            requires
                x - got >= 0,
                t >= 0,
        ;
    }
    lemma_sum_nonpositive(c, f);
    lemma_sum_negated(c, |id: Seq<char>| weight_of(w, id), f);
    lemma_total_bounds(c, c.len() as int);
    assert(c.take(c.len() as int) =~= c);
    assert forall|i: int| 0 <= i < c.len() implies picks(
        lists,
        states,
        lists.len() as int,
        (#[trigger] c[i]).provider_id@,
    ) == c[i].weight && weight_of(states.last(), c[i].provider_id@) == 0 by {
        let x = c[i].weight as int;
        let got = picks(lists, states, lists.len() as int, c[i].provider_id@);
        assert(f(c[i].provider_id@) >= 0);
        assert(x == got) by (nonlinear_arith)
            requires
                t * x - t * got == 0,
                t > 0,
        ;
    }
}

proof fn lemma_sum_negated(
    c: Seq<Candidate>,
    f: spec_fn(Seq<char>) -> int,
    h: spec_fn(Seq<char>) -> int,
)
    requires
        forall|i: int|
            0 <= i < c.len() ==> h((#[trigger] c[i]).provider_id@) == -f(c[i].provider_id@),
    ensures
        sum_by(c, h) == -sum_by(c, f),
    decreases c.len(),
{
    if c.len() > 0 {
        let d = c.drop_last();
        assert(c[c.len() - 1] == c.last());
        assert forall|i: int| 0 <= i < d.len() implies h((#[trigger] d[i]).provider_id@) == -f(
            d[i].provider_id@,
        ) by {
            assert(d[i] == c[i]);
        }
        lemma_sum_negated(d, f, h);
    }
}

/// The picked candidate comes first, and the others follow in the order they had.
pub proof fn law_others_keep_their_order<T>(s: Seq<T>, p: int, i: int)
    requires
        0 <= p < s.len(),
        0 <= i < s.len(),
    ensures
        fronted(s, p)[0] == s[p],
        i < p ==> fronted(s, p)[i + 1] == s[i],
        i > p ==> fronted(s, p)[i] == s[i],
        fronted(s, p).len() == s.len(),
{
}

/// The sum that a round is settled with is that of all weights.
pub proof fn law_weights_add_up(c: Seq<Candidate>)
    ensures
        total(c) == c.fold_left(0, |sum: int, x: Candidate| sum + x.weight),
    decreases c.len(),
{
    if c.len() > 0 {
        law_weights_add_up(c.drop_last());
    }
}

/// One round over different providers, in full. Every running weight grows by the
/// candidate's own weight, one that is missing counting as zero. The greatest wins, the
/// first of several; the winner pays the sum of all weights and comes first.
pub proof fn law_round_in_full(
    c: Seq<Candidate>,
    w: Map<Seq<char>, i32>,
    c2: Seq<Candidate>,
    w2: Map<Seq<char>, i32>,
) -> (p: int)
    requires
        ordered(c, w, c2, w2),
        c.len() > 0,
        forall|i: int| 0 <= i < c.len() ==> (#[trigger] c[i]).weight > 0,
        forall|i: int, j: int|
            0 <= i < j < c.len() ==> (#[trigger] c[i]).provider_id@ != (
            #[trigger] c[j]).provider_id@,
    ensures
        0 <= p < c.len(),
        ({
            let sum = c.fold_left(0, |sum: int, x: Candidate| sum + x.weight);
            let before = |i: int|
                (if w.contains_key(c[i].provider_id@) {
                    w[c[i].provider_id@] as int
                } else {
                    0
                }) + c[i].weight;
            &&& forall|i: int|
                0 <= i < c.len() ==> #[trigger] before(i) <= before(p) && (i < p ==> before(i)
                    < before(p))
            &&& forall|i: int|
                0 <= i < c.len() ==> w2.contains_key((#[trigger] c[i]).provider_id@)
                    && w2[c[i].provider_id@] == before(i) - (if i == p {
                    sum
                } else {
                    0
                })
            &&& c2[0] == c[p]
            &&& c2.len() == c.len()
            &&& forall|i: int| 0 <= i < p ==> c2[i + 1] == #[trigger] c[i]
            &&& forall|i: int| p < i < c.len() ==> c2[i] == #[trigger] c[i]
        }),
{
    let p = winner(c, w);
    law_weights_add_up(c);
    lemma_total_bounds(c, c.len() as int);
    assert(c.take(c.len() as int) =~= c);
    let before = |i: int|
        (if w.contains_key(c[i].provider_id@) {
            w[c[i].provider_id@] as int
        } else {
            0
        }) + c[i].weight;
    assert forall|i: int| 0 <= i < c.len() implies #[trigger] before(i) == raised(
        c,
        w,
        c[i].provider_id@,
    ) by {
        lemma_raised(c, w, i);
    }
    assert forall|i: int| 0 <= i < c.len() implies #[trigger] before(i) <= before(p) && (i < p
        ==> before(i) < before(p)) by {
        assert(raised(c, w, c[i].provider_id@) <= raised(c, w, c[p].provider_id@));
    }
    assert forall|i: int| 0 <= i < c.len() implies w2.contains_key((#[trigger] c[i]).provider_id@)
        && w2[c[i].provider_id@] == before(i) - (if i == p {
        total(c)
    } else {
        0
    }) by {
        assert(named(c, c[i].provider_id@));
        assert(weight_of(w2, c[i].provider_id@) == settled(c, w, c[i].provider_id@));
        assert(before(i) == raised(c, w, c[i].provider_id@));
        if i != p {
            assert(c[i].provider_id@ != c[p].provider_id@);
        }
    }
    p
}

/// A provider that takes no part in a round keeps its running weight, or goes on
/// having none.
pub proof fn law_round_leaves_the_others_alone(
    c: Seq<Candidate>,
    w: Map<Seq<char>, i32>,
    c2: Seq<Candidate>,
    w2: Map<Seq<char>, i32>,
    id: Seq<char>,
)
    requires
        ordered(c, w, c2, w2),
        forall|i: int| 0 <= i < c.len() ==> (#[trigger] c[i]).provider_id@ != id,
    ensures
        w2.contains_key(id) == w.contains_key(id),
        w.contains_key(id) ==> w2[id] == w[id],
{
    if total(c) > 0 {
        assert(!named(c, id));
        lemma_gained_none(c, id);
        assert(weight_of(w2, id) == settled(c, w, id));
        assert(w2.contains_key(id) <==> w.contains_key(id) || named(c, id));
    }
}

/// Where no candidate weighs anything, a round changes nothing.
pub proof fn law_weightless_round_changes_nothing(
    c: Seq<Candidate>,
    w: Map<Seq<char>, i32>,
    c2: Seq<Candidate>,
    w2: Map<Seq<char>, i32>,
)
    requires
        ordered(c, w, c2, w2),
        forall|i: int| 0 <= i < c.len() ==> (#[trigger] c[i]).weight <= 0,
    ensures
        c2 == c,
        w2 == w,
{
    lemma_weightless(c);
}

proof fn lemma_weightless(c: Seq<Candidate>)
    requires
        forall|i: int| 0 <= i < c.len() ==> (#[trigger] c[i]).weight <= 0,
    ensures
        total(c) <= 0,
    decreases c.len(),
{
    if c.len() > 0 {
        let d = c.drop_last();
        assert(c[c.len() - 1] == c.last());
        assert forall|i: int| 0 <= i < d.len() implies (#[trigger] d[i]).weight <= 0 by {
            assert(d[i] == c[i]);
        }
        lemma_weightless(d);
    }
}

} // verus!
