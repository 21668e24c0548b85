//! Plans, and what it means to execute one.

use vstd::prelude::*;
use crate::state_space::{
    GroundActionView, GroundLiteral, TemporalStateView, advanced, applicable, applied, ends_in_goal,
    no_event_due, waited, finished, lemma_wait_after_advance, lemma_wait_nothing_due,
};
use crate::timeline::next_time;

verus! {

/// One step of a plan: a ground action and the time at which it starts.
#[derive(Clone, Copy, Debug, PartialEq, Eq, Structural)]
pub struct PlanStep {
    pub action: usize,
    pub start_time: u64,
}

/// A plan: the ground actions in the order in which they start, their start
/// times, and the cost, which is the durations of the actions and the time
/// waited before each of them starts, in ticks.
#[derive(Debug)]
pub struct Plan {
    pub actions: Vec<usize>,
    pub start_times: Vec<u64>,
    pub cost: u64,
}

impl Plan {
    /// A plan lists as many start times as actions.
    pub open spec fn wf(&self) -> bool {
        self.actions.len() == self.start_times.len()
    }

    /// The steps of the plan.
    pub open spec fn steps(&self) -> Seq<PlanStep> {
        Seq::new(
            self.actions.len() as nat,
            |i: int| PlanStep { action: self.actions@[i], start_time: self.start_times@[i] },
        )
    }
}

/// The state after one step, if the step can be taken: time passes until the
/// step's start, and the action must then be applicable.
pub open spec fn step_from(
    state: TemporalStateView,
    actions: Seq<GroundActionView>,
    step: PlanStep,
) -> Option<TemporalStateView> {
    let ready = waited(state, step.start_time as nat);
    if step.action < actions.len() && ready.time == step.start_time && applicable(
        ready,
        actions[step.action as int],
        step.action as int,
    ) {
        Some(applied(ready, actions[step.action as int], step.action, step.start_time as nat))
    } else {
        None
    }
}

/// The state after the first `n` steps, if each of them can be taken.
pub open spec fn executed(
    initial: TemporalStateView,
    actions: Seq<GroundActionView>,
    steps: Seq<PlanStep>,
    n: int,
) -> Option<TemporalStateView>
    decreases n,
{
    if n <= 0 || n > steps.len() {
        Some(initial)
    } else {
        match executed(initial, actions, steps, n - 1) {
            None => None,
            Some(state) => step_from(state, actions, steps[n - 1]),
        }
    }
}

/// Whether a plan solves a task: every step can be taken in turn, and once
/// whatever is pending has taken effect, every goal condition holds and
/// nothing is left pending.
pub open spec fn solves(
    initial: TemporalStateView,
    actions: Seq<GroundActionView>,
    goal: Option<Seq<GroundLiteral>>,
    steps: Seq<PlanStep>,
) -> bool {
    &&& executed(initial, actions, steps, steps.len() as int) is Some
    &&& ends_in_goal(executed(initial, actions, steps, steps.len() as int)->0, goal)
}

/// Whether a state of the search stands for a state of a run: from the
/// search state's clock on, waiting leads both to the same state.
pub open spec fn stands_for(search: TemporalStateView, run: TemporalStateView) -> bool {
    forall|t: nat| t >= search.time ==> #[trigger] waited(run, t) == waited(search, t)
}

/// A search state reached by letting the first instant pass stands for what
/// the state before it stood for.
pub proof fn lemma_stands_after_advance(search: TemporalStateView, run: TemporalStateView)
    requires
        stands_for(search, run),
        search.queue.len() > 0,
    ensures
        stands_for(advanced(search), run),
{
    assert forall|t: nat| t >= advanced(search).time implies #[trigger] waited(run, t) == waited(
        advanced(search),
        t,
    ) by {
        assert(t >= search.time);
        assert(next_time(search.queue) <= t);
        lemma_wait_after_advance(search, t);
        assert(waited(run, t) == waited(search, t));
    }
}

/// Where nothing is due in a search state, the run it stands for is in that
/// very state after waiting until the search state's clock.
pub proof fn lemma_stands_when_ready(search: TemporalStateView, run: TemporalStateView)
    requires
        stands_for(search, run),
        no_event_due(search.queue, search.time),
    ensures
        waited(run, search.time) == search,
{
    assert(waited(run, search.time) == waited(search, search.time));
    lemma_wait_nothing_due(search, search.time);
}

/// A run ends as the search state that stands for it ends.
pub proof fn lemma_finished_alike(search: TemporalStateView, run: TemporalStateView)
    requires
        stands_for(search, run),
        search.time <= u64::MAX,
    ensures
        finished(run) == finished(search),
{
    assert(waited(run, u64::MAX as nat) == waited(search, u64::MAX as nat));
}

/// Taking no more steps than before leaves the state after them as it was.
pub proof fn lemma_executed_prefix(
    initial: TemporalStateView,
    actions: Seq<GroundActionView>,
    steps: Seq<PlanStep>,
    longer: Seq<PlanStep>,
    n: int,
)
    requires
        0 <= n <= steps.len(),
        n <= longer.len(),
        forall|i: int| 0 <= i < n ==> steps[i] == longer[i],
    ensures
        executed(initial, actions, steps, n) == executed(initial, actions, longer, n),
    decreases n,
{
    if n > 0 {
        lemma_executed_prefix(initial, actions, steps, longer, n - 1);
    }
}

} // verus!
