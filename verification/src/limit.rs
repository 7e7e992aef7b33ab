//! Which limit roles apply to a request, and whether their limits are used up.
//!
//! Time comes in as an argument, in milliseconds of any clock that does not run
//! backwards.

use vstd::hash_map::StringHashMap;
use vstd::prelude::*;

use crate::ctx::str_view;
use crate::model::LimitRole;
use crate::text;

verus! {

/// The attributes of a request that limit roles match. `None` means that an
/// attribute is not known yet; a role that asks for it does not apply.
#[derive(Clone, Copy, Debug, PartialEq, Eq)]
pub struct MatchCtx<'a> {
    pub api_key: Option<&'a str>,
    pub model: Option<&'a str>,
    pub tenant: Option<&'a str>,
    pub provider: Option<&'a str>,
}

/// The attributes of a request, as texts.
pub struct Attributes {
    pub api_key: Option<Seq<char>>,
    pub model: Option<Seq<char>>,
    pub tenant: Option<Seq<char>>,
    pub provider: Option<Seq<char>>,
}

impl<'a> View for MatchCtx<'a> {
    type V = Attributes;

    open spec fn view(&self) -> Attributes {
        Attributes {
            api_key: str_view(self.api_key),
            model: str_view(self.model),
            tenant: str_view(self.tenant),
            provider: str_view(self.provider),
        }
    }
}

/// The role says nothing of the attribute, or says what it is.
pub open spec fn agrees(role: Option<String>, attribute: Option<Seq<char>>) -> bool {
    match role {
        None => true,
        Some(want) => attribute == Some(want@),
    }
}

/// The role applies to the request.
pub open spec fn applies(role: LimitRole, ctx: Attributes) -> bool {
    &&& agrees(role.matching_key, ctx.api_key)
    &&& agrees(role.matching_model, ctx.model)
    &&& agrees(role.matching_tenant, ctx.tenant)
    &&& agrees(role.matching_provider, ctx.provider)
}

/// The roles that apply, in order.
pub open spec fn applying(roles: Seq<LimitRole>, ctx: Attributes) -> Seq<LimitRole>
    decreases roles.len(),
{
    if roles.len() == 0 {
        Seq::empty()
    } else {
        let before = applying(roles.drop_last(), ctx);
        if applies(roles.last(), ctx) {
            before.push(roles.last())
        } else {
            before
        }
    }
}

fn agree(role: &Option<String>, attribute: Option<&str>) -> (r: bool)
    ensures
        r == agrees(*role, str_view(attribute)),
{
    match role {
        None => true,
        Some(want) => match attribute {
            Some(have) => text::same(have, want.as_str()),
            None => false,
        },
    }
}

/// Whether the role applies to the request.
fn matches_role(role: &LimitRole, ctx: &MatchCtx) -> (r: bool)
    ensures
        r == applies(*role, ctx@),
{
    agree(&role.matching_key, ctx.api_key) && agree(&role.matching_model, ctx.model) && agree(
        &role.matching_tenant,
        ctx.tenant,
    ) && agree(&role.matching_provider, ctx.provider)
}

/// The roles that apply to a request, in order.
pub fn match_roles<'a>(roles: &'a [LimitRole], ctx: &MatchCtx) -> (r: Vec<&'a LimitRole>)
    ensures
        r@.len() == applying(roles@, ctx@).len(),
        forall|i: int| 0 <= i < r@.len() ==> *(#[trigger] r@[i]) == applying(roles@, ctx@)[i],
{
    let mut out: Vec<&'a LimitRole> = Vec::new();
    let mut i: usize = 0;
    assert(roles@.take(0) =~= Seq::empty());
    while i < roles.len()
        invariant
            i <= roles@.len(),
            out@.len() == applying(roles@.take(i as int), ctx@).len(),
            forall|k: int|
                0 <= k < out@.len() ==> *(#[trigger] out@[k]) == applying(
                    roles@.take(i as int),
                    ctx@,
                )[k],
        decreases roles@.len() - i,
    {
        assert(roles@.take(i + 1).drop_last() =~= roles@.take(i as int));
        let role = &roles[i];
        if matches_role(role, ctx) {
            out.push(role);
        }
        i = i + 1;
    }
    assert(roles@.take(roles@.len() as int) =~= roles@);
    out
}

// ---------------------------------------------------------------------------
// Sliding windows
// ---------------------------------------------------------------------------

/// Something that counted against a limit.
#[derive(Debug, PartialEq, Eq)]
pub struct Event {
    pub at: u64,
    pub amount: u64,
}

impl Clone for Event {
    fn clone(&self) -> (r: Self)
        ensures
            r == *self,
    {
        Event { at: self.at, amount: self.amount }
    }
}

/// The events that are less than `span` old.
pub open spec fn recent(events: Seq<Event>, now: int, span: int) -> Seq<Event>
    decreases events.len(),
{
    if events.len() == 0 {
        Seq::empty()
    } else {
        let before = recent(events.drop_last(), now, span);
        if events.last().at + span > now {
            before.push(events.last())
        } else {
            before
        }
    }
}

/// What the events amount to.
pub open spec fn amount(events: Seq<Event>) -> int
    decreases events.len(),
{
    if events.len() == 0 {
        0
    } else {
        amount(events.drop_last()) + events.last().amount
    }
}

/// The length of a role's window in milliseconds: `m` is a minute, `h` an hour,
/// `d` a day.
pub open spec fn span_of(window: Seq<char>) -> Option<u64> {
    if window == "m"@ {
        Some(60_000)
    } else if window == "h"@ {
        Some(3_600_000)
    } else if window == "d"@ {
        Some(86_400_000)
    } else {
        None
    }
}

/// The length of a role's window in milliseconds.
pub fn window_span(window: &str) -> (r: Option<u64>)
    ensures
        r == span_of(window@),
{
    if text::same(window, "m") {
        Some(60_000)
    } else if text::same(window, "h") {
        Some(3_600_000)
    } else if text::same(window, "d") {
        Some(86_400_000)
    } else {
        None
    }
}

/// The events of the last while.
pub struct SlidingWindow {
    pub span: u64,
    pub events: Vec<Event>,
}

/// What a window holds.
pub struct WindowState {
    pub span: u64,
    pub events: Seq<Event>,
}

impl View for SlidingWindow {
    type V = WindowState;

    open spec fn view(&self) -> WindowState {
        WindowState { span: self.span, events: self.events@ }
    }
}

impl Clone for SlidingWindow {
    fn clone(&self) -> (r: Self)
        ensures
            r@ == self@,
    {
        let events = self.events.clone();
        assert(events@ =~= self.events@);
        SlidingWindow { span: self.span, events }
    }
}

/// The window once `amount` is counted at `now`, and what has left it is forgotten.
pub open spec fn counted_in(w: WindowState, now: u64, amount: u64) -> WindowState {
    WindowState {
        events: recent(w.events, now as int, w.span as int).push(Event { at: now, amount }),
        ..w
    }
}

impl SlidingWindow {
    /// An empty window of the given length.
    pub fn new(span: u64) -> (r: Self)
        ensures
            r.span == span,
            r.events@ == Seq::<Event>::empty(),
    {
        SlidingWindow { span, events: Vec::new() }
    }

    /// Whether what the window holds at `now` has reached `limit`.
    pub fn reached(&self, now: u64, limit: i64) -> (r: bool)
        ensures
            r == (amount(recent(self.events@, now as int, self.span as int)) >= limit),
    {
        let ghost all = self.events@;
        let mut sum: i128 = 0;
        let mut i: usize = 0;
        assert(all.take(0) =~= Seq::empty());
        while i < self.events.len()
            invariant
                i <= self.events@.len(),
                all == self.events@,
                sum == amount(recent(all.take(i as int), now as int, self.span as int)),
                0 <= sum <= i64::MAX + u64::MAX,
            decreases self.events@.len() - i,
        {
            assert(all.take(i + 1).drop_last() =~= all.take(i as int));
            let e = &self.events[i];
            let ghost old_recent = recent(all.take(i as int), now as int, self.span as int);
            if e.at as u128 + self.span as u128 > now as u128 {
                assert(old_recent.push(*e).drop_last() =~= old_recent);
                if sum >= i64::MAX as i128 {
                    proof {
                        lemma_amount_prefix(all, i as int, now as int, self.span as int);
                    }
                    return true;
                }
                sum = sum + e.amount as i128;
            }
            i = i + 1;
        }
        assert(all.take(all.len() as int) =~= all);
        sum >= limit as i128
    }

    /// Counts `amount` at `now`, and forgets what has left the window.
    pub fn add(&mut self, now: u64, amount: u64)
        ensures
            final(self)@ == counted_in(old(self)@, now, amount),
    {
        let ghost all = self.events@;
        let mut kept: Vec<Event> = Vec::new();
        let mut i: usize = 0;
        assert(all.take(0) =~= Seq::empty());
        while i < self.events.len()
            invariant
                i <= self.events@.len(),
                *self == *old(self),
                all == self.events@,
                kept@ == recent(all.take(i as int), now as int, self.span as int),
            decreases self.events@.len() - i,
        {
            assert(all.take(i + 1).drop_last() =~= all.take(i as int));
            let e = &self.events[i];
            if e.at as u128 + self.span as u128 > now as u128 {
                kept.push(e.clone());
            }
            i = i + 1;
        }
        assert(all.take(all.len() as int) =~= all);
        kept.push(Event { at: now, amount });
        self.events = kept;
    }
}

proof fn lemma_amount_prefix(events: Seq<Event>, n: int, now: int, span: int)
    requires
        0 <= n <= events.len(),
    ensures
        amount(recent(events.take(n), now, span)) <= amount(recent(events, now, span)),
    decreases events.len(),
{
    if n == events.len() {
        assert(events.take(n) =~= events);
    } else {
        let less = events.drop_last();
        assert(less.take(n) =~= events.take(n));
        lemma_amount_prefix(less, n, now, span);
        let r = recent(less, now, span);
        assert(r.push(events.last()).drop_last() =~= r);
    }
}

/// The windows of one role: requests and tokens.
pub struct RoleWindows {
    pub requests: SlidingWindow,
    pub tokens: SlidingWindow,
}

/// What the windows of one role hold.
pub struct RoleState {
    pub requests: WindowState,
    pub tokens: WindowState,
}

impl View for RoleWindows {
    type V = RoleState;

    open spec fn view(&self) -> RoleState {
        RoleState { requests: self.requests@, tokens: self.tokens@ }
    }
}

impl Clone for RoleWindows {
    fn clone(&self) -> (r: Self)
        ensures
            r@ == self@,
    {
        RoleWindows { requests: self.requests.clone(), tokens: self.tokens.clone() }
    }
}

/// Windows of the given length that nothing was counted in.
pub open spec fn unused(span: u64) -> RoleState {
    let w = WindowState { span, events: Seq::empty() };
    RoleState { requests: w, tokens: w }
}

/// The limit is there, and the window has reached it.
pub open spec fn used_up(limit: Option<i64>, w: WindowState, now: u64) -> bool {
    limit is Some && amount(recent(w.events, now as int, w.span as int)) >= limit->0
}

/// A limit of the role is used up.
pub open spec fn exhausted_by(role: LimitRole, s: RoleState, now: u64) -> bool {
    used_up(role.limit_count, s.requests, now) || used_up(role.limit_token, s.tokens, now)
}

impl RoleWindows {
    /// Empty windows of the role's length. `None` where it names no length.
    pub fn new(role: &LimitRole) -> (r: Option<Self>)
        ensures
            match (r, span_of(role.window@)) {
                (Some(w), Some(span)) => w@ == unused(span),
                (None, None) => true,
                _ => false,
            },
    {
        match window_span(role.window.as_str()) {
            Some(span) => Some(
                RoleWindows {
                    requests: SlidingWindow::new(span),
                    tokens: SlidingWindow::new(span),
                },
            ),
            None => None,
        }
    }

    /// Whether a limit of the role is used up.
    pub fn exhausted(&self, role: &LimitRole, now: u64) -> (r: bool)
        ensures
            r == exhausted_by(*role, self@, now),
    {
        let requests = match role.limit_count {
            Some(n) => self.requests.reached(now, n),
            None => false,
        };
        let tokens = match role.limit_token {
            Some(n) => self.tokens.reached(now, n),
            None => false,
        };
        requests || tokens
    }
}

// ---------------------------------------------------------------------------
// All roles
// ---------------------------------------------------------------------------

/// The windows of the roles, by role id. A role without windows has not counted
/// anything yet.
pub type Windows = StringHashMap<RoleWindows>;

/// What the windows of the roles hold.
pub open spec fn states(windows: Map<Seq<char>, RoleWindows>) -> Map<Seq<char>, RoleState> {
    windows.map_values(|w: RoleWindows| w@)
}

/// What the role's windows hold. `None` where it has none and names no length: such
/// a role limits nothing.
pub open spec fn state_of(all: Map<Seq<char>, RoleState>, role: LimitRole) -> Option<RoleState> {
    if all.contains_key(role.id@) {
        Some(all[role.id@])
    } else {
        match span_of(role.window@) {
            Some(span) => Some(unused(span)),
            None => None,
        }
    }
}

/// The role applies to the request, and a limit of it is used up.
pub open spec fn refuses(
    all: Map<Seq<char>, RoleState>,
    role: LimitRole,
    ctx: Attributes,
    now: u64,
) -> bool {
    applies(role, ctx) && (state_of(all, role) matches Some(s) && exhausted_by(role, s, now))
}

/// One of the roles refuses the request.
pub open spec fn any_refuses(
    all: Map<Seq<char>, RoleState>,
    roles: Seq<LimitRole>,
    ctx: Attributes,
    now: u64,
) -> bool {
    exists|i: int| 0 <= i < roles.len() && refuses(all, #[trigger] roles[i], ctx, now)
}

/// What counts against limits.
#[derive(Clone, Copy, Debug, PartialEq, Eq, Structural)]
pub enum Tally {
    /// A request.
    Request,
    /// The tokens of a response.
    Tokens(u64),
}

/// A role's windows once `t` is counted at `now`.
pub open spec fn noted(s: RoleState, t: Tally, now: u64) -> RoleState {
    match t {
        Tally::Request => RoleState { requests: counted_in(s.requests, now, 1), ..s },
        Tally::Tokens(n) => RoleState { tokens: counted_in(s.tokens, now, n), ..s },
    }
}

/// The windows once `t` is counted for every role that applies.
pub open spec fn tallied(
    all: Map<Seq<char>, RoleState>,
    roles: Seq<LimitRole>,
    ctx: Attributes,
    t: Tally,
    now: u64,
) -> Map<Seq<char>, RoleState>
    decreases roles.len(),
{
    if roles.len() == 0 {
        all
    } else {
        let before = tallied(all, roles.drop_last(), ctx, t, now);
        let role = roles.last();
        match state_of(before, role) {
            Some(s) => if applies(role, ctx) {
                before.insert(role.id@, noted(s, t, now))
            } else {
                before
            },
            None => before,
        }
    }
}

/// The role's windows, new ones where it has none yet.
fn windows_of(windows: &Windows, role: &LimitRole) -> (r: Option<RoleWindows>)
    ensures
        match (r, state_of(states(windows@), *role)) {
            (Some(w), Some(s)) => w@ == s,
            (None, None) => true,
            _ => false,
        },
{
    match windows.get(role.id.as_str()) {
        Some(w) => Some(w.clone()),
        None => RoleWindows::new(role),
    }
}

/// Whether the role refuses the request.
fn is_refused(windows: &Windows, role: &LimitRole, ctx: &MatchCtx, now: u64) -> (r: bool)
    ensures
        r == refuses(states(windows@), *role, ctx@, now),
{
    if !matches_role(role, ctx) {
        return false;
    }
    match windows.get(role.id.as_str()) {
        Some(w) => w.exhausted(role, now),
        None => match RoleWindows::new(role) {
            Some(w) => w.exhausted(role, now),
            None => false,
        },
    }
}

/// Counts `t` for every role that applies to the request.
pub fn tally(windows: &mut Windows, roles: &[LimitRole], ctx: &MatchCtx, t: Tally, now: u64)
    ensures
        states(final(windows)@) == tallied(states(old(windows)@), roles@, ctx@, t, now),
{
    let mut i: usize = 0;
    assert(roles@.take(0) =~= Seq::empty());
    while i < roles.len()
        invariant
            i <= roles@.len(),
            states(windows@) == tallied(
                states(old(windows)@),
                roles@.take(i as int),
                ctx@,
                t,
                now,
            ),
        decreases roles@.len() - i,
    {
        assert(roles@.take(i + 1).drop_last() =~= roles@.take(i as int));
        let role = &roles[i];
        if matches_role(role, ctx) {
            if let Some(mut w) = windows_of(windows, role) {
                let ghost before = windows@;
                match t {
                    Tally::Request => w.requests.add(now, 1),
                    Tally::Tokens(n) => w.tokens.add(now, n),
                }
                windows.insert(role.id.clone(), w);
                assert(states(windows@) =~= states(before).insert(role.id@, w@));
            }
        }
        i = i + 1;
    }
    assert(roles@.take(roles@.len() as int) =~= roles@);
}

/// Lets a request in or refuses it. Where a limit of a role that applies is used up,
/// the first such role is told and nothing is counted. Otherwise the request counts
/// for every role that applies.
pub fn let_in(windows: &mut Windows, roles: &[LimitRole], ctx: &MatchCtx, now: u64) -> (r: Option<
    usize,
>)
    ensures
        match r {
            Some(i) => {
                &&& i < roles@.len()
                &&& refuses(states(old(windows)@), roles@[i as int], ctx@, now)
                &&& forall|k: int|
                    0 <= k < i ==> !refuses(
                        states(old(windows)@),
                        #[trigger] roles@[k],
                        ctx@,
                        now,
                    )
                &&& final(windows)@ == old(windows)@
            },
            None => {
                &&& !any_refuses(states(old(windows)@), roles@, ctx@, now)
                &&& states(final(windows)@) == tallied(
                    states(old(windows)@),
                    roles@,
                    ctx@,
                    Tally::Request,
                    now,
                )
            },
        },
{
    let mut i: usize = 0;
    while i < roles.len()
        invariant
            i <= roles@.len(),
            windows@ == old(windows)@,
            forall|k: int|
                0 <= k < i ==> !refuses(states(windows@), #[trigger] roles@[k], ctx@, now),
        decreases roles@.len() - i,
    {
        if is_refused(windows, &roles[i], ctx, now) {
            return Some(i);
        }
        i = i + 1;
    }
    tally(windows, roles, ctx, Tally::Request, now);
    None
}

// ---------------------------------------------------------------------------
// Laws
// ---------------------------------------------------------------------------

/// Each of the events is a single request that came while the window was not
/// full.
pub open spec fn passed_one_by_one(events: Seq<Event>, span: int, limit: int) -> bool {
    forall|i: int|
        0 <= i < events.len() ==> (#[trigger] events[i]).amount == 1 && amount(
            recent(events.take(i), events[i].at as int, span),
        ) < limit
}

/// Where requests pass only while the window is not full, no window ever holds
/// more than the limit.
pub proof fn law_limit_is_kept(events: Seq<Event>, span: int, limit: int, now: int)
    requires
        passed_one_by_one(events, span, limit),
        forall|i: int| 0 <= i < events.len() ==> (#[trigger] events[i]).at <= now,
        limit >= 0,
    ensures
        amount(recent(events, now, span)) <= limit,
{
    if events.len() > 0 {
        let last = events[events.len() - 1];
        let less = events.take(events.len() - 1);
        assert(less =~= events.drop_last());
        lemma_window_shrinks(events, last.at as int, now, span);
        let r = recent(less, last.at as int, span);
        assert(r.push(last).drop_last() =~= r);
    }
}

proof fn lemma_window_shrinks(events: Seq<Event>, now: int, later: int, span: int)
    requires
        now <= later,
    ensures
        amount(recent(events, later, span)) <= amount(recent(events, now, span)),
    decreases events.len(),
{
    if events.len() > 0 {
        let less = events.drop_last();
        lemma_window_shrinks(less, now, later, span);
        let a = recent(less, now, span);
        let b = recent(less, later, span);
        assert(a.push(events.last()).drop_last() =~= a);
        assert(b.push(events.last()).drop_last() =~= b);
    }
}

/// Forgetting what has left the window makes no difference to any later window.
pub proof fn law_forgetting_makes_no_difference(
    events: Seq<Event>,
    now: int,
    later: int,
    span: int,
)
    requires
        now <= later,
    ensures
        recent(recent(events, now, span), later, span) == recent(events, later, span),
    decreases events.len(),
{
    if events.len() > 0 {
        let less = events.drop_last();
        law_forgetting_makes_no_difference(less, now, later, span);
        let r = recent(less, now, span);
        assert(r.push(events.last()).drop_last() =~= r);
    }
}

/// No two roles have one id.
pub open spec fn distinct(roles: Seq<LimitRole>) -> bool {
    forall|i: int, j: int|
        0 <= i < j < roles.len() ==> (#[trigger] roles[i]).id@ != (#[trigger] roles[j]).id@
}

/// Whatever is counted for the roles that apply is counted once for each of them,
/// and leaves every other role alone.
pub proof fn law_each_role_counts_once(
    all: Map<Seq<char>, RoleState>,
    roles: Seq<LimitRole>,
    ctx: Attributes,
    t: Tally,
    now: u64,
)
    requires
        distinct(roles),
    ensures
        forall|i: int|
            0 <= i < roles.len() ==> state_of(
                tallied(all, roles, ctx, t, now),
                #[trigger] roles[i],
            ) == match state_of(all, roles[i]) {
                Some(s) => Some(
                    if applies(roles[i], ctx) {
                        noted(s, t, now)
                    } else {
                        s
                    },
                ),
                None => None,
            },
        forall|id: Seq<char>|
            (forall|i: int| 0 <= i < roles.len() ==> (#[trigger] roles[i]).id@ != id) ==> (
            #[trigger] tallied(all, roles, ctx, t, now).contains_key(id)) == all.contains_key(id)
                && tallied(all, roles, ctx, t, now)[id] == all[id],
    decreases roles.len(),
{
    if roles.len() > 0 {
        let less = roles.drop_last();
        let last = roles.last();
        let before = tallied(all, less, ctx, t, now);
        let after = tallied(all, roles, ctx, t, now);
        assert(distinct(less)) by {
            assert forall|i: int, j: int| 0 <= i < j < less.len() implies (
            #[trigger] less[i]).id@ != (#[trigger] less[j]).id@ by {
                assert(less[i] == roles[i] && less[j] == roles[j]);
            }
        }
        law_each_role_counts_once(all, less, ctx, t, now);
        assert forall|i: int| 0 <= i < less.len() implies (#[trigger] less[i]).id@ != last.id@ by {
            assert(less[i] == roles[i]);
            assert(last == roles[roles.len() - 1]);
        }
        assert(before.contains_key(last.id@) == all.contains_key(last.id@));
        assert(state_of(before, last) == state_of(all, last));
        assert forall|i: int| 0 <= i < roles.len() implies state_of(after, #[trigger] roles[i])
            == match state_of(all, roles[i]) {
            Some(s) => Some(
                if applies(roles[i], ctx) {
                    noted(s, t, now)
                } else {
                    s
                },
            ),
            None => None,
        } by {
            if i < less.len() {
                assert(less[i] == roles[i]);
                assert(state_of(after, roles[i]) == state_of(before, less[i]));
            }
        }
        assert forall|id: Seq<char>|
            (forall|i: int|
                0 <= i < roles.len() ==> (#[trigger] roles[i]).id@ != id) implies (
        #[trigger] after.contains_key(id)) == all.contains_key(id) && after[id] == all[id] by {
            assert(roles[roles.len() - 1].id@ != id);
            assert forall|i: int| 0 <= i < less.len() implies (#[trigger] less[i]).id@ != id by {
                assert(less[i] == roles[i]);
            }
            assert(before.contains_key(id) == all.contains_key(id));
        }
    }
}

/// A request that is let in keeps every limit: from then on, until another is let
/// in, the window of each role that applies holds no more requests than the role
/// allows.
pub proof fn law_let_in_keeps_every_limit(
    all: Map<Seq<char>, RoleState>,
    roles: Seq<LimitRole>,
    ctx: Attributes,
    now: u64,
    later: u64,
)
    requires
        distinct(roles),
        !any_refuses(all, roles, ctx, now),
        now <= later,
    ensures
        forall|i: int|
            0 <= i < roles.len() && applies(#[trigger] roles[i], ctx) && roles[i].limit_count is Some
                ==> (state_of(tallied(all, roles, ctx, Tally::Request, now), roles[i]) matches Some(
                s,
            ) ==> amount(recent(s.requests.events, later as int, s.requests.span as int))
                <= roles[i].limit_count->0),
{
    let after = tallied(all, roles, ctx, Tally::Request, now);
    law_each_role_counts_once(all, roles, ctx, Tally::Request, now);
    assert forall|i: int|
        0 <= i < roles.len() && applies(#[trigger] roles[i], ctx) && roles[i].limit_count is Some
            && state_of(after, roles[i]) is Some implies amount(
        recent(
            (state_of(after, roles[i])->0).requests.events,
            later as int,
            (state_of(after, roles[i])->0).requests.span as int,
        ),
    ) <= roles[i].limit_count->0 by {
        let w = (state_of(all, roles[i])->0).requests;
        let span = w.span as int;
        let held = recent(w.events, now as int, span);
        let e = Event { at: now, amount: 1 };
        assert(!refuses(all, roles[i], ctx, now));
        assert(amount(held) < roles[i].limit_count->0);
        law_forgetting_makes_no_difference(w.events, now as int, now as int, span);
        assert(held.push(e).drop_last() =~= held);
        lemma_window_shrinks(held.push(e), now as int, later as int, span);
    }
}

/// A role applies exactly where the request has everything that the role names: an
/// attribute that it does not name may be anything, and one that it does name must be
/// there with that value, whatever else the role names.
pub proof fn law_role_applies_to_what_it_names(role: LimitRole, ctx: Attributes)
    ensures
        applies(role, ctx) <==> {
            &&& role.matching_key matches Some(x) ==> ctx.api_key == Some(x@)
            &&& role.matching_model matches Some(x) ==> ctx.model == Some(x@)
            &&& role.matching_tenant matches Some(x) ==> ctx.tenant == Some(x@)
            &&& role.matching_provider matches Some(x) ==> ctx.provider == Some(x@)
        },
{
}

/// The roles that apply are those of the given ones whose named attributes the
/// request has: none is left out, none is added, and they keep their order.
pub proof fn law_applying_roles_are_picked_in_order(roles: Seq<LimitRole>, ctx: Attributes)
    ensures
        applying(roles, ctx) == roles.filter(
            |r: LimitRole|
                {
                    &&& r.matching_key matches Some(x) ==> ctx.api_key == Some(x@)
                    &&& r.matching_model matches Some(x) ==> ctx.model == Some(x@)
                    &&& r.matching_tenant matches Some(x) ==> ctx.tenant == Some(x@)
                    &&& r.matching_provider matches Some(x) ==> ctx.provider == Some(x@)
                },
        ),
    decreases roles.len(),
{
    reveal(Seq::filter);
    if roles.len() > 0 {
        law_applying_roles_are_picked_in_order(roles.drop_last(), ctx);
    } else {
        assert(applying(roles, ctx) =~= roles);
    }
}

/// An event is in the window as long as less than the window's length has passed
/// since it.
pub proof fn law_window_holds_what_is_young(events: Seq<Event>, now: int, span: int)
    ensures
        recent(events, now, span) == events.filter(|e: Event| now - e.at < span),
    decreases events.len(),
{
    reveal(Seq::filter);
    if events.len() > 0 {
        law_window_holds_what_is_young(events.drop_last(), now, span);
    } else {
        assert(recent(events, now, span) =~= events);
    }
}

/// What events amount to is the sum of their amounts.
pub proof fn law_amounts_add_up(events: Seq<Event>)
    ensures
        amount(events) == events.fold_left(0, |sum: int, e: Event| sum + e.amount),
    decreases events.len(),
{
    if events.len() > 0 {
        law_amounts_add_up(events.drop_last());
    }
}

/// Windows are a minute, an hour or a day long, and nothing else.
pub proof fn law_windows_have_three_lengths(window: Seq<char>)
    ensures
        span_of(window) == Some(60_000u64) <==> window == seq!['m'],
        span_of(window) == Some(3_600_000u64) <==> window == seq!['h'],
        span_of(window) == Some(86_400_000u64) <==> window == seq!['d'],
        span_of(window) is None <==> window != seq!['m'] && window != seq!['h'] && window
            != seq!['d'],
{
    reveal_strlit("m");
    reveal_strlit("h");
    reveal_strlit("d");
    assert("m"@ =~= seq!['m']);
    assert("h"@ =~= seq!['h']);
    assert("d"@ =~= seq!['d']);
    assert(seq!['m'][0] != seq!['h'][0]);
    assert(seq!['m'][0] != seq!['d'][0]);
    assert(seq!['h'][0] != seq!['d'][0]);
}

/// A role with windows refuses a request exactly where the request has all that the
/// role names, and the young requests have reached the request limit or the young
/// tokens the token limit. A limit that is not there is never reached.
pub proof fn law_refused_exactly_at_a_limit(
    all: Map<Seq<char>, RoleState>,
    role: LimitRole,
    ctx: Attributes,
    now: u64,
)
    requires
        all.contains_key(role.id@),
    ensures
        refuses(all, role, ctx, now) <==> {
            let w = all[role.id@].requests;
            let v = all[role.id@].tokens;
            let sum = |s: int, e: Event| s + e.amount;
            &&& role.matching_key matches Some(x) ==> ctx.api_key == Some(x@)
            &&& role.matching_model matches Some(x) ==> ctx.model == Some(x@)
            &&& role.matching_tenant matches Some(x) ==> ctx.tenant == Some(x@)
            &&& role.matching_provider matches Some(x) ==> ctx.provider == Some(x@)
            &&& {
                ||| role.limit_count matches Some(n) && w.events.filter(
                    |e: Event| now - e.at < w.span,
                ).fold_left(0, sum) >= n
                ||| role.limit_token matches Some(n) && v.events.filter(
                    |e: Event| now - e.at < v.span,
                ).fold_left(0, sum) >= n
            }
        },
{
    let w = all[role.id@].requests;
    let v = all[role.id@].tokens;
    law_window_holds_what_is_young(w.events, now as int, w.span as int);
    law_window_holds_what_is_young(v.events, now as int, v.span as int);
    assert((|e: Event| now - e.at < w.span) =~= (|e: Event| now as int - e.at < w.span as int));
    assert((|e: Event| now - e.at < v.span) =~= (|e: Event| now as int - e.at < v.span as int));
    law_amounts_add_up(recent(w.events, now as int, w.span as int));
    law_amounts_add_up(recent(v.events, now as int, v.span as int));
}

/// A role that has counted nothing yet refuses only where it allows nothing at all,
/// and not where its window has no known length.
pub proof fn law_unused_role_lets_in(
    all: Map<Seq<char>, RoleState>,
    role: LimitRole,
    ctx: Attributes,
    now: u64,
)
    requires
        !all.contains_key(role.id@),
    ensures
        refuses(all, role, ctx, now) ==> role.limit_count is Some && role.limit_count->0 <= 0
            || role.limit_token is Some && role.limit_token->0 <= 0,
        role.window@ != seq!['m'] && role.window@ != seq!['h'] && role.window@ != seq!['d']
            ==> !refuses(all, role, ctx, now),
{
    law_windows_have_three_lengths(role.window@);
}

/// A request that is let in is refused by none of the roles, wherever it stands.
pub proof fn law_every_role_is_asked(
    all: Map<Seq<char>, RoleState>,
    roles: Seq<LimitRole>,
    ctx: Attributes,
    now: u64,
)
    ensures
        any_refuses(all, roles, ctx, now) <==> exists|i: int|
            0 <= i < roles.len() && refuses(all, #[trigger] roles[i], ctx, now),
{
}

/// A request or its tokens are written into the windows of each role whose named
/// attributes the request has: a request as one event of one in the request window,
/// tokens as one event of their number in the token window. What has left that window
/// is forgotten; the other window and the windows of all other roles stay as they are.
pub proof fn law_tally_writes_one_event(
    all: Map<Seq<char>, RoleState>,
    roles: Seq<LimitRole>,
    ctx: Attributes,
    tokens: u64,
    now: u64,
    i: int,
)
    requires
        forall|a: int, b: int|
            0 <= a < b < roles.len() ==> (#[trigger] roles[a]).id@ != (#[trigger] roles[b]).id@,
        0 <= i < roles.len(),
        all.contains_key(roles[i].id@),
    ensures
        ({
            let id = roles[i].id@;
            let s = all[id];
            let r = tallied(all, roles, ctx, Tally::Request, now);
            let t = tallied(all, roles, ctx, Tally::Tokens(tokens), now);
            let has_all = {
                &&& roles[i].matching_key matches Some(x) ==> ctx.api_key == Some(x@)
                &&& roles[i].matching_model matches Some(x) ==> ctx.model == Some(x@)
                &&& roles[i].matching_tenant matches Some(x) ==> ctx.tenant == Some(x@)
                &&& roles[i].matching_provider matches Some(x) ==> ctx.provider == Some(x@)
            };
            &&& r.contains_key(id) && t.contains_key(id)
            &&& has_all ==> {
                &&& r[id].requests.span == s.requests.span
                &&& r[id].requests.events == s.requests.events.filter(
                    |e: Event| now - e.at < s.requests.span,
                ).push(Event { at: now, amount: 1 })
                &&& r[id].tokens == s.tokens
                &&& t[id].tokens.span == s.tokens.span
                &&& t[id].tokens.events == s.tokens.events.filter(
                    |e: Event| now - e.at < s.tokens.span,
                ).push(Event { at: now, amount: tokens })
                &&& t[id].requests == s.requests
            }
            &&& !has_all ==> r[id] == s && t[id] == s
        }),
{
    let id = roles[i].id@;
    let w = all[id].requests;
    let v = all[id].tokens;
    law_each_role_counts_once(all, roles, ctx, Tally::Request, now);
    law_each_role_counts_once(all, roles, ctx, Tally::Tokens(tokens), now);
    lemma_windows_stay(all, roles, ctx, Tally::Request, now, id);
    lemma_windows_stay(all, roles, ctx, Tally::Tokens(tokens), now, id);
    let r = tallied(all, roles, ctx, Tally::Request, now);
    let t = tallied(all, roles, ctx, Tally::Tokens(tokens), now);
    assert(state_of(r, roles[i]) is Some && state_of(t, roles[i]) is Some);
    law_window_holds_what_is_young(w.events, now as int, w.span as int);
    law_window_holds_what_is_young(v.events, now as int, v.span as int);
    assert((|e: Event| now - e.at < w.span) =~= (|e: Event| now as int - e.at < w.span as int));
    assert((|e: Event| now - e.at < v.span) =~= (|e: Event| now as int - e.at < v.span as int));
}

proof fn lemma_windows_stay(
    all: Map<Seq<char>, RoleState>,
    roles: Seq<LimitRole>,
    ctx: Attributes,
    t: Tally,
    now: u64,
    id: Seq<char>,
)
    requires
        all.contains_key(id),
    ensures
        tallied(all, roles, ctx, t, now).contains_key(id),
    decreases roles.len(),
{
    if roles.len() > 0 {
        lemma_windows_stay(all, roles.drop_last(), ctx, t, now, id);
    }
}

/// The first request of a role is written into windows of the role's length.
pub proof fn law_first_request_opens_the_windows(
    all: Map<Seq<char>, RoleState>,
    roles: Seq<LimitRole>,
    ctx: Attributes,
    now: u64,
    i: int,
)
    requires
        forall|a: int, b: int|
            0 <= a < b < roles.len() ==> (#[trigger] roles[a]).id@ != (#[trigger] roles[b]).id@,
        0 <= i < roles.len(),
        !all.contains_key(roles[i].id@),
        roles[i].matching_key matches Some(x) ==> ctx.api_key == Some(x@),
        roles[i].matching_model matches Some(x) ==> ctx.model == Some(x@),
        roles[i].matching_tenant matches Some(x) ==> ctx.tenant == Some(x@),
        roles[i].matching_provider matches Some(x) ==> ctx.provider == Some(x@),
        roles[i].window@ == seq!['m'] || roles[i].window@ == seq!['h'] || roles[i].window@
            == seq!['d'],
    ensures
        ({
            let id = roles[i].id@;
            let r = tallied(all, roles, ctx, Tally::Request, now);
            &&& r.contains_key(id)
            &&& r[id].requests.events == seq![Event { at: now, amount: 1 }]
            &&& r[id].tokens.events == Seq::<Event>::empty()
            &&& r[id].requests.span == r[id].tokens.span
            &&& r[id].requests.span == if roles[i].window@ == seq!['m'] {
                60_000u64
            } else if roles[i].window@ == seq!['h'] {
                3_600_000
            } else {
                86_400_000
            }
        }),
{
    let r = tallied(all, roles, ctx, Tally::Request, now);
    let id = roles[i].id@;
    law_each_role_counts_once(all, roles, ctx, Tally::Request, now);
    law_windows_have_three_lengths(roles[i].window@);
    let none = Seq::<Event>::empty();
    assert(none.push(Event { at: now, amount: 1 }) =~= seq![Event { at: now, amount: 1 }]);
    lemma_opened(all, roles, ctx, Tally::Request, now, i);
}

proof fn lemma_opened(
    all: Map<Seq<char>, RoleState>,
    roles: Seq<LimitRole>,
    ctx: Attributes,
    t: Tally,
    now: u64,
    i: int,
)
    requires
        0 <= i < roles.len(),
        applies(roles[i], ctx),
        span_of(roles[i].window@) is Some,
    ensures
        tallied(all, roles, ctx, t, now).contains_key(roles[i].id@),
    decreases roles.len(),
{
    if i < roles.len() - 1 {
        lemma_opened(all, roles.drop_last(), ctx, t, now, i);
    }
}

} // verus!
