//! Heuristics: estimates of the cost that is still to pay from a state.

use vstd::prelude::*;
use crate::state_space::{
    EventKind, GroundAction, GroundActionView, GroundLiteral, ScheduledEffect, StateSpace,
    TemporalState, TemporalStateView, all_hold, ends_in_goal, facts_by, finished, holds,
};
use crate::text::view_all;
use crate::timeline::{fire_kind, fired, later_than, next_time, remaining, lemma_remaining_shrinks};

verus! {

/// The estimate of a state from which the goal cannot be reached.
pub const INFINITE: u64 = u64::MAX;

/// A heuristic estimates the cost from a state to the goal, in ticks.
pub trait TemporalHeuristic {
    /// The estimate of a state.
    spec fn estimate(
        &self,
        state: TemporalStateView,
        actions: Seq<GroundActionView>,
        goal: Option<Seq<GroundLiteral>>,
    ) -> u64;

    /// Computes the estimate of a state.
    fn compute(&self, state: &TemporalState, space: &StateSpace) -> (h: u64)
        ensures
            h == self.estimate(state@, space.actions_view(), space.goal_view()),
    ;

    /// A state that ends in the goal has nothing left to pay.
    proof fn lemma_goal_costs_nothing(
        &self,
        state: TemporalStateView,
        actions: Seq<GroundActionView>,
        goal: Option<Seq<GroundLiteral>>,
    )
        requires
            ends_in_goal(state, goal),
        ensures
            self.estimate(state, actions, goal) == 0,
    ;
}

/// The sum of two costs, where it fits, and the infinite cost where it does
/// not.
pub open spec fn cost_sum(a: u64, b: u64) -> u64 {
    if a + b >= INFINITE {
        INFINITE
    } else {
        (a + b) as u64
    }
}

pub fn add_costs(a: u64, b: u64) -> (r: u64)
    ensures
        r == cost_sum(a, b),
{
    if a > u64::MAX - b {
        u64::MAX
    } else {
        a + b
    }
}

/// Whether an addition of the fact is pending.
pub open spec fn pending_add(queue: Seq<ScheduledEffect>, fact: int) -> bool {
    exists|i: int|
        0 <= i < queue.len() && (#[trigger] queue[i]).kind == EventKind::Add && queue[i].fact
            == fact
}

/// The costs the relaxation starts from: nothing for a fact that is true or
/// about to become true, the infinite cost for any other.
pub open spec fn initial_costs(state: TemporalStateView) -> Seq<u64> {
    Seq::new(
        state.facts.len(),
        |f: int|
            if state.facts[f] || pending_add(state.queue, f) {
                0u64
            } else {
                INFINITE
            },
    )
}

/// The cost of the dearest among the first `n` conditions: the cost of its
/// fact for a positive condition, nothing for a negative one.
pub open spec fn support(costs: Seq<u64>, conditions: Seq<GroundLiteral>, n: int) -> u64
    decreases n,
{
    if n <= 0 || n > conditions.len() {
        0
    } else {
        let before = support(costs, conditions, n - 1);
        let c = conditions[n - 1];
        let own = if c.negated {
            0u64
        } else if c.fact < costs.len() {
            costs[c.fact as int]
        } else {
            INFINITE
        };
        if own > before {
            own
        } else {
            before
        }
    }
}

/// The cost at which an action can start in the relaxation: that of the
/// dearest of its conditions at the start and over all.
pub open spec fn start_cost(costs: Seq<u64>, action: GroundActionView) -> u64 {
    let s = support(costs, action.conditions_start, action.conditions_start.len() as int);
    let o = support(costs, action.conditions_over_all, action.conditions_over_all.len() as int);
    if s > o {
        s
    } else {
        o
    }
}

/// The costs after the first `n` effects were offered at the cost `value`:
/// the fact of a positive effect gets that cost where it is cheaper, and
/// deletions are ignored.
pub open spec fn offered(costs: Seq<u64>, effects: Seq<GroundLiteral>, value: u64, n: int) -> Seq<
    u64,
>
    decreases n,
{
    if n <= 0 || n > effects.len() {
        costs
    } else {
        let before = offered(costs, effects, value, n - 1);
        let e = effects[n - 1];
        if !e.negated && e.fact < before.len() && value < before[e.fact as int] {
            before.update(e.fact as int, value)
        } else {
            before
        }
    }
}

/// The costs after an action was relaxed: where it can start, its effects at
/// the start are offered at that cost and its effects at the end at that
/// cost plus its duration.
pub open spec fn relaxed_by(costs: Seq<u64>, action: GroundActionView) -> Seq<u64> {
    let start = start_cost(costs, action);
    if start == INFINITE {
        costs
    } else {
        offered(
            offered(costs, action.effects_start, start, action.effects_start.len() as int),
            action.effects_end,
            cost_sum(start, action.duration as u64),
            action.effects_end.len() as int,
        )
    }
}

/// The costs after one scan of the first `n` actions.
pub open spec fn scanned(costs: Seq<u64>, actions: Seq<GroundActionView>, n: int) -> Seq<u64>
    decreases n,
{
    if n <= 0 || n > actions.len() {
        costs
    } else {
        relaxed_by(scanned(costs, actions, n - 1), actions[n - 1])
    }
}

/// The sum of the first `n` costs.
pub open spec fn total(costs: Seq<u64>, n: int) -> nat
    decreases n,
{
    if n <= 0 || n > costs.len() {
        0
    } else {
        total(costs, n - 1) + costs[n - 1] as nat
    }
}

/// Whether `after` is `before` with some costs lowered.
pub open spec fn lowered(before: Seq<u64>, after: Seq<u64>) -> bool {
    &&& before.len() == after.len()
    &&& forall|i: int| 0 <= i < before.len() ==> #[trigger] after[i] <= before[i]
}

pub proof fn lemma_offered_lowers(costs: Seq<u64>, effects: Seq<GroundLiteral>, value: u64, n: int)
    ensures
        lowered(costs, offered(costs, effects, value, n)),
    decreases n,
{
    if !(n <= 0 || n > effects.len()) {
        lemma_offered_lowers(costs, effects, value, n - 1);
    }
}

pub proof fn lemma_relaxed_lowers(costs: Seq<u64>, action: GroundActionView)
    ensures
        lowered(costs, relaxed_by(costs, action)),
{
    let start = start_cost(costs, action);
    if start != INFINITE {
        let first = offered(costs, action.effects_start, start, action.effects_start.len() as int);
        lemma_offered_lowers(costs, action.effects_start, start, action.effects_start.len() as int);
        lemma_offered_lowers(
            first,
            action.effects_end,
            cost_sum(start, action.duration as u64),
            action.effects_end.len() as int,
        );
    }
}

pub proof fn lemma_scanned_lowers(costs: Seq<u64>, actions: Seq<GroundActionView>, n: int)
    ensures
        lowered(costs, scanned(costs, actions, n)),
    decreases n,
{
    if !(n <= 0 || n > actions.len()) {
        lemma_scanned_lowers(costs, actions, n - 1);
        lemma_relaxed_lowers(scanned(costs, actions, n - 1), actions[n - 1]);
    }
}

pub proof fn lemma_total_lowered(before: Seq<u64>, after: Seq<u64>, n: int)
    requires
        lowered(before, after),
        0 <= n <= before.len(),
    ensures
        total(after, n) <= total(before, n),
        (exists|i: int| 0 <= i < n && after[i] != before[i]) ==> total(after, n) < total(before, n),
    decreases n,
{
    if n > 0 {
        lemma_total_lowered(before, after, n - 1);
        assert(after[n - 1] <= before[n - 1]);
        if exists|i: int| 0 <= i < n && after[i] != before[i] {
            let w = choose|i: int| 0 <= i < n && after[i] != before[i];
            if w < n - 1 {
                assert(after[w] != before[w]);
            }
        }
    }
}

/// The costs once scanning the actions changes them no more.
pub open spec fn settled(costs: Seq<u64>, actions: Seq<GroundActionView>) -> Seq<u64>
    decreases total(costs, costs.len() as int),
{
    let next = scanned(costs, actions, actions.len() as int);
    if next == costs {
        costs
    } else {
        proof {
            lemma_scanned_lowers(costs, actions, actions.len() as int);
            assert(exists|i: int| 0 <= i < costs.len() && next[i] != costs[i]) by {
                if forall|i: int| 0 <= i < costs.len() ==> next[i] == costs[i] {
                    assert(next =~= costs);
                }
            }
            lemma_total_lowered(costs, next, costs.len() as int);
        }
        settled(next, actions)
    }
}

pub proof fn lemma_settled_lowers(costs: Seq<u64>, actions: Seq<GroundActionView>)
    ensures
        lowered(costs, settled(costs, actions)),
    decreases total(costs, costs.len() as int),
{
    let next = scanned(costs, actions, actions.len() as int);
    if next != costs {
        lemma_scanned_lowers(costs, actions, actions.len() as int);
        assert(exists|i: int| 0 <= i < costs.len() && next[i] != costs[i]) by {
            if forall|i: int| 0 <= i < costs.len() ==> next[i] == costs[i] {
                assert(next =~= costs);
            }
        }
        lemma_total_lowered(costs, next, costs.len() as int);
        lemma_settled_lowers(next, actions);
    }
}

/// The max-cost estimate of the relaxed task: the cost of the dearest goal
/// condition once the costs have settled, and the infinite cost where the
/// goal is about a fact outside the table.
pub open spec fn max_relaxed_estimate(
    state: TemporalStateView,
    actions: Seq<GroundActionView>,
    goal: Option<Seq<GroundLiteral>>,
) -> u64 {
    match goal {
        None => INFINITE,
        Some(g) => support(settled(initial_costs(state), actions), g, g.len() as int),
    }
}

/// The events of one kind at one instant leave the table as long as it was;
/// a fact that is true after deletions was true before, and one that is true
/// after additions was true before or is added by one of them.
pub proof fn lemma_fire_kind_origin(
    facts: Seq<bool>,
    queue: Seq<ScheduledEffect>,
    t: nat,
    kind: EventKind,
    n: int,
    f: int,
)
    requires
        0 <= f < facts.len(),
        fire_kind(facts, queue, t, kind, n)[f],
    ensures
        fire_kind(facts, queue, t, kind, n).len() == facts.len(),
        facts[f] || (kind == EventKind::Add && pending_add(queue, f)),
    decreases n,
{
    lemma_fire_kind_len(facts, queue, t, kind, n);
    if !(n <= 0 || n > queue.len()) {
        let before = fire_kind(facts, queue, t, kind, n - 1);
        lemma_fire_kind_len(facts, queue, t, kind, n - 1);
        let e = queue[n - 1];
        if e.time == t && e.kind == kind && e.fact < before.len() && e.fact == f {
            assert(kind == EventKind::Add);
            assert(queue[n - 1].kind == EventKind::Add && queue[n - 1].fact == f);
        } else {
            lemma_fire_kind_origin(facts, queue, t, kind, n - 1, f);
        }
    }
}

pub proof fn lemma_fire_kind_len(
    facts: Seq<bool>,
    queue: Seq<ScheduledEffect>,
    t: nat,
    kind: EventKind,
    n: int,
)
    ensures
        fire_kind(facts, queue, t, kind, n).len() == facts.len(),
    decreases n,
{
    if !(n <= 0 || n > queue.len()) {
        lemma_fire_kind_len(facts, queue, t, kind, n - 1);
    }
}

/// Every entry that is left of an agenda was in it.
pub proof fn lemma_later_than_was_there(queue: Seq<ScheduledEffect>, t: nat, n: int, k: int)
    requires
        0 <= n <= queue.len(),
        0 <= k < later_than(queue, t, n).len(),
    ensures
        exists|i: int| 0 <= i < n && #[trigger] queue[i] == later_than(queue, t, n)[k],
    decreases n,
{
    if n > 0 {
        let before = later_than(queue, t, n - 1);
        if k < before.len() {
            lemma_later_than_was_there(queue, t, n - 1, k);
            let i = choose|i: int| 0 <= i < n - 1 && #[trigger] queue[i] == before[k];
            assert(queue[i] == later_than(queue, t, n)[k]);
        } else {
            assert(queue[n - 1] == later_than(queue, t, n)[k]);
        }
    }
}

/// A fact that is true once pending events have taken effect was true
/// before or has an addition pending.
pub proof fn lemma_facts_by_origin(facts: Seq<bool>, queue: Seq<ScheduledEffect>, limit: nat, f: int)
    requires
        0 <= f < facts.len(),
        facts_by(facts, queue, limit)[f],
    ensures
        facts[f] || pending_add(queue, f),
    decreases queue.len(),
{
    if queue.len() > 0 && next_time(queue) <= limit {
        let t = next_time(queue);
        let cleared = fire_kind(facts, queue, t, EventKind::Delete, queue.len() as int);
        let next = fired(facts, queue, t);
        let rest = remaining(queue, t);
        lemma_remaining_shrinks(queue);
        lemma_fire_kind_len(facts, queue, t, EventKind::Delete, queue.len() as int);
        lemma_fire_kind_len(cleared, queue, t, EventKind::Add, queue.len() as int);
        lemma_facts_by_length(next, rest, limit);
        lemma_facts_by_origin(next, rest, limit, f);
        if next[f] {
            lemma_fire_kind_origin(cleared, queue, t, EventKind::Add, queue.len() as int, f);
            if cleared[f] {
                lemma_fire_kind_origin(facts, queue, t, EventKind::Delete, queue.len() as int, f);
            }
        } else {
            let k = choose|k: int|
                0 <= k < rest.len() && (#[trigger] rest[k]).kind == EventKind::Add && rest[k].fact == f;
            lemma_later_than_was_there(queue, t, queue.len() as int, k);
            let i = choose|i: int| 0 <= i < queue.len() && #[trigger] queue[i] == rest[k];
            assert(queue[i].kind == EventKind::Add && queue[i].fact == f);
        }
    }
}

/// Pending events leave the table of facts as long as it was.
pub proof fn lemma_facts_by_length(facts: Seq<bool>, queue: Seq<ScheduledEffect>, limit: nat)
    ensures
        facts_by(facts, queue, limit).len() == facts.len(),
    decreases queue.len(),
{
    if queue.len() > 0 && next_time(queue) <= limit {
        let t = next_time(queue);
        let cleared = fire_kind(facts, queue, t, EventKind::Delete, queue.len() as int);
        lemma_remaining_shrinks(queue);
        lemma_fire_kind_len(facts, queue, t, EventKind::Delete, queue.len() as int);
        lemma_fire_kind_len(cleared, queue, t, EventKind::Add, queue.len() as int);
        lemma_facts_by_length(fired(facts, queue, t), remaining(queue, t), limit);
    }
}

pub proof fn lemma_support_of_met(costs: Seq<u64>, facts: Seq<bool>, conditions: Seq<GroundLiteral>, n: int)
    requires
        all_hold(facts, conditions),
        costs.len() == facts.len(),
        forall|f: int| 0 <= f < facts.len() && facts[f] ==> #[trigger] costs[f] == 0,
        0 <= n <= conditions.len(),
    ensures
        support(costs, conditions, n) == 0,
    decreases n,
{
    if n > 0 {
        lemma_support_of_met(costs, facts, conditions, n - 1);
        assert(holds(facts, conditions[n - 1]));
    }
}

fn support_of(costs: &Vec<u64>, conditions: &Vec<GroundLiteral>) -> (r: u64)
    ensures
        r == support(costs@, conditions@, conditions.len() as int),
{
    let mut worst: u64 = 0;
    let mut i: usize = 0;
    while i < conditions.len()
        invariant
            i <= conditions.len(),
            worst == support(costs@, conditions@, i as int),
        decreases conditions.len() - i,
    {
        let c = conditions[i];
        let own = if c.negated {
            0
        } else if c.fact < costs.len() {
            costs[c.fact]
        } else {
            INFINITE
        };
        if own > worst {
            worst = own;
        }
        i = i + 1;
    }
    worst
}

fn offer(costs: &mut Vec<u64>, effects: &Vec<GroundLiteral>, value: u64)
    ensures
        final(costs)@ == offered(old(costs)@, effects@, value, effects.len() as int),
{
    let ghost start = costs@;
    let mut i: usize = 0;
    while i < effects.len()
        invariant
            i <= effects.len(),
            costs@ == offered(start, effects@, value, i as int),
        decreases effects.len() - i,
    {
        let e = effects[i];
        if !e.negated && e.fact < costs.len() && value < costs[e.fact] {
            costs[e.fact] = value;
        }
        i = i + 1;
    }
}

fn relax_action(costs: &mut Vec<u64>, action: &GroundAction)
    ensures
        final(costs)@ == relaxed_by(old(costs)@, action@),
{
    let s = support_of(costs, &action.conditions_start);
    let o = support_of(costs, &action.conditions_over_all);
    let start = if s > o {
        s
    } else {
        o
    };
    if start != INFINITE {
        offer(costs, &action.effects_start, start);
        offer(costs, &action.effects_end, add_costs(start, action.duration));
    }
}

fn scan_actions(costs: &mut Vec<u64>, actions: &Vec<GroundAction>)
    ensures
        final(costs)@ == scanned(old(costs)@, view_all(actions@), actions.len() as int),
{
    let ghost start = costs@;
    let ghost views = view_all(actions@);
    let mut i: usize = 0;
    while i < actions.len()
        invariant
            i <= actions.len(),
            views == view_all(actions@),
            costs@ == scanned(start, views, i as int),
        decreases actions.len() - i,
    {
        assert(views[i as int] == actions@[i as int]@);
        relax_action(costs, &actions[i]);
        i = i + 1;
    }
}

fn copy_costs(costs: &Vec<u64>) -> (out: Vec<u64>)
    ensures
        out@ == costs@,
{
    let mut out: Vec<u64> = Vec::new();
    let mut i: usize = 0;
    while i < costs.len()
        invariant
            i <= costs.len(),
            out@ == costs@.take(i as int),
        decreases costs.len() - i,
    {
        out.push(costs[i]);
        assert(costs@.take(i + 1) =~= costs@.take(i as int).push(costs@[i as int]));
        i = i + 1;
    }
    assert(costs@.take(costs.len() as int) =~= costs@);
    out
}

fn same_costs(a: &Vec<u64>, b: &Vec<u64>) -> (r: bool)
    ensures
        r == (a@ == b@),
{
    if a.len() != b.len() {
        return false;
    }
    let mut i: usize = 0;
    while i < a.len()
        invariant
            i <= a.len(),
            a.len() == b.len(),
            forall|k: int| 0 <= k < i ==> a@[k] == b@[k],
        decreases a.len() - i,
    {
        if a[i] != b[i] {
            return false;
        }
        i = i + 1;
    }
    assert(a@ =~= b@);
    true
}

fn has_pending_add(queue: &Vec<ScheduledEffect>, fact: usize) -> (r: bool)
    ensures
        r == pending_add(queue@, fact as int),
{
    let mut i: usize = 0;
    while i < queue.len()
        invariant
            i <= queue.len(),
            forall|k: int|
                0 <= k < i ==> !((#[trigger] queue@[k]).kind == EventKind::Add && queue@[k].fact
                    == fact),
        decreases queue.len() - i,
    {
        let e = queue[i];
        let adds = match e.kind {
            EventKind::Add => true,
            _ => false,
        };
        if adds && e.fact == fact {
            return true;
        }
        i = i + 1;
    }
    false
}

fn starting_costs(state: &TemporalState) -> (costs: Vec<u64>)
    ensures
        costs@ == initial_costs(state@),
{
    let facts = &state.classical_state.facts;
    let mut costs: Vec<u64> = Vec::new();
    let mut f: usize = 0;
    while f < facts.len()
        invariant
            f <= facts.len(),
            facts@ == state@.facts,
            costs.len() == f,
            forall|k: int| 0 <= k < f ==> costs@[k] == #[trigger] initial_costs(state@)[k],
        decreases facts.len() - f,
    {
        if facts[f] || has_pending_add(&state.scheduled_effects, f) {
            costs.push(0);
        } else {
            costs.push(INFINITE);
        }
        f = f + 1;
    }
    assert(costs@ =~= initial_costs(state@));
    costs
}

/// The heuristic that estimates nothing: with it the search orders states by
/// the cost paid so far.
#[derive(Debug)]
pub struct TemporalFFHeuristic {}

impl TemporalFFHeuristic {
    /// The heuristic whose estimate is zero for every state.
    pub fn new() -> (h: TemporalFFHeuristic)
        ensures
            forall|
                state: TemporalStateView,
                actions: Seq<GroundActionView>,
                goal: Option<Seq<GroundLiteral>>,
            | #[trigger]
                h.estimate(state, actions, goal) == 0,
    {
        TemporalFFHeuristic {  }
    }
}

impl TemporalHeuristic for TemporalFFHeuristic {
    open spec fn estimate(
        &self,
        state: TemporalStateView,
        actions: Seq<GroundActionView>,
        goal: Option<Seq<GroundLiteral>>,
    ) -> u64 {
        0
    }

    fn compute(&self, state: &TemporalState, space: &StateSpace) -> (h: u64) {
        0
    }

    proof fn lemma_goal_costs_nothing(
        &self,
        state: TemporalStateView,
        actions: Seq<GroundActionView>,
        goal: Option<Seq<GroundLiteral>>,
    ) {
    }
}

/// The max-cost heuristic of the relaxed task: deletions are ignored, and a
/// condition over all counts as one at the start.
#[derive(Debug)]
pub struct TemporalAdmissibleHeuristic {}

impl TemporalAdmissibleHeuristic {
    /// The heuristic whose estimate is the max-cost estimate of the relaxed
    /// task.
    pub fn new() -> (h: TemporalAdmissibleHeuristic)
        ensures
            forall|
                state: TemporalStateView,
                actions: Seq<GroundActionView>,
                goal: Option<Seq<GroundLiteral>>,
            | #[trigger]
                h.estimate(state, actions, goal) == max_relaxed_estimate(state, actions, goal),
    {
        TemporalAdmissibleHeuristic {  }
    }

    /// Relaxes the actions until the costs of the facts change no more.
    pub fn build_relaxed_planning_graph(state: &TemporalState, space: &StateSpace) -> (costs: Vec<
        u64,
    >)
        ensures
            costs@ == settled(initial_costs(state@), space.actions_view()),
    {
        let mut costs = starting_costs(state);
        let ghost actions = space.actions_view();
        loop
            invariant
                actions == space.actions_view(),
                settled(costs@, actions) == settled(initial_costs(state@), actions),
            ensures
                costs@ == settled(initial_costs(state@), actions),
            decreases total(costs@, costs@.len() as int),
        {
            let before = copy_costs(&costs);
            scan_actions(&mut costs, &space.actions);
            if same_costs(&before, &costs) {
                break ;
            }
            proof {
                lemma_scanned_lowers(before@, actions, actions.len() as int);
                assert(exists|i: int| 0 <= i < before@.len() && costs@[i] != before@[i]) by {
                    if forall|i: int| 0 <= i < before@.len() ==> costs@[i] == before@[i] {
                        assert(costs@ =~= before@);
                    }
                }
                lemma_total_lowered(before@, costs@, before@.len() as int);
            }
        }
        costs
    }
}

impl TemporalHeuristic for TemporalAdmissibleHeuristic {
    open spec fn estimate(
        &self,
        state: TemporalStateView,
        actions: Seq<GroundActionView>,
        goal: Option<Seq<GroundLiteral>>,
    ) -> u64 {
        max_relaxed_estimate(state, actions, goal)
    }

    fn compute(&self, state: &TemporalState, space: &StateSpace) -> (h: u64) {
        match &space.goal {
            None => INFINITE,
            Some(goal) => {
                let costs = Self::build_relaxed_planning_graph(state, space);
                support_of(&costs, goal)
            },
        }
    }

    proof fn lemma_goal_costs_nothing(
        &self,
        state: TemporalStateView,
        actions: Seq<GroundActionView>,
        goal: Option<Seq<GroundLiteral>>,
    ) {
        let initial = initial_costs(state);
        let costs = settled(initial, actions);
        let end = finished(state).facts;
        lemma_settled_lowers(initial, actions);
        lemma_facts_by_length(state.facts, state.queue, u64::MAX as nat);
        assert forall|f: int| 0 <= f < end.len() && end[f] implies #[trigger] costs[f] == 0 by {
            lemma_facts_by_origin(state.facts, state.queue, u64::MAX as nat, f);
            assert(initial[f] == 0);
            assert(costs[f] <= initial[f]);
        }
        lemma_support_of_met(costs, end, goal->0, goal->0.len() as int);
    }
}

/// Whether none of the effects makes the fact true.
pub open spec fn none_adds(effects: Seq<GroundLiteral>, fact: int) -> bool {
    forall|e: int|
        0 <= e < effects.len() ==> !(!(#[trigger] effects[e]).negated && effects[e].fact == fact)
}

/// Whether no action makes the fact true, neither at its start nor at its
/// end.
pub open spec fn never_added(actions: Seq<GroundActionView>, fact: int) -> bool {
    forall|a: int|
        0 <= a < actions.len() ==> none_adds((#[trigger] actions[a]).effects_start, fact)
            && none_adds(actions[a].effects_end, fact)
}

/// Whether a goal condition can never be met from a state: it asks for a
/// fact that is outside the table, or that is false, has no addition pending
/// and is made true by no action.
pub open spec fn hopeless(
    state: TemporalStateView,
    actions: Seq<GroundActionView>,
    condition: GroundLiteral,
) -> bool {
    &&& !condition.negated
    &&& (condition.fact >= state.facts.len() || !state.facts[condition.fact as int])
    &&& !pending_add(state.queue, condition.fact as int)
    &&& never_added(actions, condition.fact as int)
}

/// Whether the goal is plainly out of reach from a state: there is no goal
/// over the fact table, or one of its conditions can never be met.
pub open spec fn out_of_reach(
    state: TemporalStateView,
    actions: Seq<GroundActionView>,
    goal: Option<Seq<GroundLiteral>>,
) -> bool {
    match goal {
        None => true,
        Some(g) => exists|k: int| 0 <= k < g.len() && hopeless(state, actions, #[trigger] g[k]),
    }
}

/// A state from which the goal is plainly out of reach does not end in the
/// goal.
pub proof fn lemma_out_of_reach_is_no_goal(
    state: TemporalStateView,
    actions: Seq<GroundActionView>,
    goal: Option<Seq<GroundLiteral>>,
)
    requires
        out_of_reach(state, actions, goal),
    ensures
        !ends_in_goal(state, goal),
{
    match goal {
        None => {},
        Some(g) => {
            let k = choose|k: int| 0 <= k < g.len() && hopeless(state, actions, #[trigger] g[k]);
            let end = finished(state).facts;
            lemma_facts_by_length(state.facts, state.queue, u64::MAX as nat);
            if g[k].fact < end.len() && end[g[k].fact as int] {
                lemma_facts_by_origin(state.facts, state.queue, u64::MAX as nat, g[k].fact as int);
            }
            assert(!holds(end, g[k]));
        },
    }
}

fn adds_fact(effects: &Vec<GroundLiteral>, fact: usize) -> (r: bool)
    ensures
        r == !none_adds(effects@, fact as int),
{
    let mut i: usize = 0;
    while i < effects.len()
        invariant
            i <= effects.len(),
            forall|e: int|
                0 <= e < i ==> !(!(#[trigger] effects@[e]).negated && effects@[e].fact == fact),
        decreases effects.len() - i,
    {
        if !effects[i].negated && effects[i].fact == fact {
            return true;
        }
        i = i + 1;
    }
    false
}

fn some_action_adds(actions: &Vec<GroundAction>, fact: usize) -> (r: bool)
    ensures
        r == !never_added(view_all(actions@), fact as int),
{
    let mut i: usize = 0;
    while i < actions.len()
        invariant
            i <= actions.len(),
            forall|a: int|
                0 <= a < i ==> none_adds((#[trigger] view_all(actions@)[a]).effects_start, fact as int)
                    && none_adds(view_all(actions@)[a].effects_end, fact as int),
        decreases actions.len() - i,
    {
        assert(view_all(actions@)[i as int] == actions@[i as int]@);
        if adds_fact(&actions[i].effects_start, fact) || adds_fact(&actions[i].effects_end, fact) {
            return true;
        }
        i = i + 1;
    }
    false
}

/// Whether the goal of a state space is plainly out of reach from a state.
pub fn goal_out_of_reach(state: &TemporalState, space: &StateSpace) -> (r: bool)
    ensures
        r == out_of_reach(state@, space.actions_view(), space.goal_view()),
{
    match &space.goal {
        None => true,
        Some(goal) => {
            let facts = &state.classical_state.facts;
            let mut k: usize = 0;
            while k < goal.len()
                invariant
                    k <= goal.len(),
                    facts@ == state@.facts,
                    space.goal_view() == Some(goal@),
                    forall|j: int|
                        0 <= j < k ==> !hopeless(state@, space.actions_view(), #[trigger] goal@[j]),
                decreases goal.len() - k,
            {
                let c = goal[k];
                if !c.negated && (c.fact >= facts.len() || !facts[c.fact]) && !has_pending_add(
                    &state.scheduled_effects,
                    c.fact,
                ) && !some_action_adds(&space.actions, c.fact) {
                    proof {
                        let g = space.goal_view()->0;
                        assert(0 <= k < g.len() && hopeless(state@, space.actions_view(), g[k as int]));
                    }
                    return true;
                }
                k = k + 1;
            }
            false
        },
    }
}

} // verus!
