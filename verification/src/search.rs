//! Best-first search over temporal states.

use vstd::prelude::*;
use crate::clock::Stopwatch;
use crate::heuristics::{
    INFINITE, TemporalAdmissibleHeuristic, TemporalFFHeuristic, TemporalHeuristic, add_costs,
    cost_sum, goal_out_of_reach, hopeless, never_added, out_of_reach,
    lemma_out_of_reach_is_no_goal,
};
use crate::plan::{
    Plan, PlanStep, executed, solves, stands_for, step_from, lemma_executed_prefix,
    lemma_finished_alike, lemma_stands_after_advance, lemma_stands_when_ready,
};
use crate::scheduler::{
    ActionPoints, ScheduledAction, SimpleTemporalNetwork, TemporalConstraint, action_constraints,
    schedulable,
};
use crate::state_space::{
    GroundActionView, GroundLiteral, ScheduledEffect, StateSpace, TemporalState, TemporalStateView,
    actions_of, advanced, applicable, applicable_among, applied, ends_in_goal, goal_of,
    initial_state_of, no_event_due, nothing_due, lemma_applicable_is_ready,
};
use crate::temporal_task::{TaskView, TemporalTask, same_mapping};
use crate::text::{view_all, lemma_view_all_empty, lemma_view_all_push};
use crate::timing::{
    path_shape, lemma_earliest_start_is_start_time, lemma_path_shape_at, lemma_path_shape_size,
};

verus! {

/// A node of the search: a state, what was paid to reach it, the estimate of
/// what is still to pay, and how it was reached. A node without an action is
/// the root or was reached by waiting.
#[derive(Debug)]
pub struct SearchNode {
    pub state: TemporalState,
    pub g_value: u64,
    pub h_value: u64,
    pub parent: Option<usize>,
    pub action_idx: Option<usize>,
    /// The temporal network of the actions that led to the node.
    pub network: SimpleTemporalNetwork,
}

pub struct NodeView {
    pub state: TemporalStateView,
    pub g: u64,
    pub h: u64,
    pub parent: Option<usize>,
    pub action: Option<usize>,
    /// The number of timepoints of the node's temporal network.
    pub points: nat,
    /// The constraints of the node's temporal network.
    pub constraints: Seq<TemporalConstraint>,
    /// The timepoints of the actions in the node's temporal network.
    pub booked: Seq<ActionPoints>,
}

impl View for SearchNode {
    type V = NodeView;

    open spec fn view(&self) -> NodeView {
        NodeView {
            state: self.state@,
            g: self.g_value,
            h: self.h_value,
            parent: self.parent,
            action: self.action_idx,
            points: self.network.points(),
            constraints: self.network.constraints@,
            booked: self.network.actions@,
        }
    }
}

/// The value by which the frontier is ordered: paid plus estimated.
pub open spec fn f_of(node: NodeView) -> u64 {
    cost_sum(node.g, node.h)
}

impl SearchNode {
    pub fn f_value(&self) -> (f: u64)
        ensures
            f == f_of(self@),
    {
        add_costs(self.g_value, self.h_value)
    }
}

/// Whether `a` leaves the frontier before `b`: by the smaller value, then by
/// the smaller estimate.
pub open spec fn better(a: NodeView, b: NodeView) -> bool {
    f_of(a) < f_of(b) || (f_of(a) == f_of(b) && a.h < b.h)
}

/// The place in the frontier of the node that leaves it next among the
/// first `n`: the best one, and among equals the one that entered first.
pub open spec fn best_position(nodes: Seq<NodeView>, frontier: Seq<usize>, n: int) -> int
    decreases n,
{
    if n <= 1 || n > frontier.len() {
        0
    } else {
        let b = best_position(nodes, frontier, n - 1);
        if better(nodes[frontier[n - 1] as int], nodes[frontier[b] as int]) {
            n - 1
        } else {
            b
        }
    }
}

pub proof fn lemma_best_position(nodes: Seq<NodeView>, frontier: Seq<usize>, n: int)
    requires
        1 <= n <= frontier.len(),
    ensures
        0 <= best_position(nodes, frontier, n) < n,
        forall|j: int|
            0 <= j < n ==> f_of(nodes[frontier[best_position(nodes, frontier, n)] as int]) <= f_of(
                nodes[#[trigger] frontier[j] as int],
            ),
    decreases n,
{
    if n > 1 {
        lemma_best_position(nodes, frontier, n - 1);
    }
}

/// Finds the node that leaves the frontier next.
pub fn find_best(nodes: &Vec<SearchNode>, frontier: &Vec<usize>) -> (pos: usize)
    requires
        frontier.len() > 0,
        forall|j: int| 0 <= j < frontier.len() ==> (#[trigger] frontier@[j]) < nodes.len(),
    ensures
        pos == best_position(view_all(nodes@), frontier@, frontier.len() as int),
        pos < frontier.len(),
{
    let ghost views = view_all(nodes@);
    let mut best: usize = 0;
    let mut i: usize = 1;
    while i < frontier.len()
        invariant
            1 <= i <= frontier.len(),
            best < i,
            views == view_all(nodes@),
            forall|j: int| 0 <= j < frontier.len() ==> (#[trigger] frontier@[j]) < nodes.len(),
            best == best_position(views, frontier@, i as int),
        decreases frontier.len() - i,
    {
        let candidate = &nodes[frontier[i]];
        let current = &nodes[frontier[best]];
        assert(views[frontier@[i as int] as int] == candidate@);
        assert(views[frontier@[best as int] as int] == current@);
        let fc = candidate.f_value();
        let fb = current.f_value();
        if fc < fb || (fc == fb && candidate.h_value < current.h_value) {
            best = i;
        }
        i = i + 1;
    }
    best
}

/// Whether two pending events are the same as seen from the clocks of their
/// states.
pub open spec fn same_event(a: ScheduledEffect, a_now: nat, b: ScheduledEffect, b_now: nat) -> bool {
    &&& a.fact == b.fact
    &&& a.kind == b.kind
    &&& a.action_id == b.action_id
    &&& a.time - a_now == b.time - b_now
}

/// Whether two lists of pending entries are the same as seen from two
/// clocks.
pub open spec fn same_events(a: Seq<ScheduledEffect>, a_now: nat, b: Seq<ScheduledEffect>, b_now: nat) -> bool {
    &&& a.len() == b.len()
    &&& forall|i: int| 0 <= i < a.len() ==> same_event(#[trigger] a[i], a_now, b[i], b_now)
}

/// Whether two states are the same to the closed set: the same facts, the
/// same fluents, and the same agenda and protections as seen from their
/// clocks. The clocks themselves are no part of it.
pub open spec fn same_identity(a: TemporalStateView, b: TemporalStateView) -> bool {
    &&& a.facts == b.facts
    &&& same_mapping(a.numeric_values, b.numeric_values)
    &&& same_events(a.queue, a.time, b.queue, b.time)
    &&& same_events(a.protections, a.time, b.protections, b.time)
}

fn same_entries(a: &Vec<ScheduledEffect>, a_now: u64, b: &Vec<ScheduledEffect>, b_now: u64) -> (r: bool)
    ensures
        r == same_events(a@, a_now as nat, b@, b_now as nat),
{
    if a.len() != b.len() {
        return false;
    }
    let mut i: usize = 0;
    while i < a.len()
        invariant
            i <= a.len(),
            a.len() == b.len(),
            forall|k: int|
                0 <= k < i ==> same_event(#[trigger] a@[k], a_now as nat, b@[k], b_now as nat),
        decreases a.len() - i,
    {
        let x = a[i];
        let y = b[i];
        let same_time = (x.time as u128) + (b_now as u128) == (y.time as u128) + (a_now as u128);
        if x.fact != y.fact || x.kind != y.kind || x.action_id != y.action_id || !same_time {
            assert(!same_event(a@[i as int], a_now as nat, b@[i as int], b_now as nat));
            return false;
        }
        i = i + 1;
    }
    true
}

/// Whether two states are the same to the closed set.
pub fn same_state(a: &TemporalState, b: &TemporalState) -> (r: bool)
    ensures
        r == same_identity(a@, b@),
{
    if !a.classical_state.equals(&b.classical_state) {
        return false;
    }
    same_entries(&a.scheduled_effects, a.time, &b.scheduled_effects, b.time) && same_entries(
        &a.protections,
        a.time,
        &b.protections,
        b.time,
    )
}

/// The place at or after `from` of the first closed node whose state is the
/// same as the given one, or -1 if there is none.
pub open spec fn closed_position(
    nodes: Seq<NodeView>,
    closed: Seq<usize>,
    state: TemporalStateView,
    from: int,
) -> int
    decreases closed.len() - from,
{
    if from < 0 || from >= closed.len() {
        -1
    } else if same_identity(nodes[closed[from] as int].state, state) {
        from
    } else {
        closed_position(nodes, closed, state, from + 1)
    }
}

/// Looks a state up in the closed set.
pub fn find_closed(nodes: &Vec<SearchNode>, closed: &Vec<usize>, state: &TemporalState) -> (r:
    Option<usize>)
    requires
        forall|j: int| 0 <= j < closed.len() ==> (#[trigger] closed@[j]) < nodes.len(),
    ensures
        match r {
            Some(c) => c < closed.len() && c == closed_position(view_all(nodes@), closed@, state@, 0),
            None => closed_position(view_all(nodes@), closed@, state@, 0) == -1,
        },
{
    let ghost views = view_all(nodes@);
    let mut i: usize = 0;
    while i < closed.len()
        invariant
            i <= closed.len(),
            views == view_all(nodes@),
            forall|j: int| 0 <= j < closed.len() ==> (#[trigger] closed@[j]) < nodes.len(),
            closed_position(views, closed@, state@, 0) == closed_position(
                views,
                closed@,
                state@,
                i as int,
            ),
        decreases closed.len() - i,
    {
        assert(views[closed@[i as int] as int] == nodes@[closed@[i as int] as int]@);
        if same_state(&nodes[closed[i]].state, state) {
            return Some(i);
        }
        i = i + 1;
    }
    None
}

/// The steps by which a node was reached: those of its parent, and its own
/// action at the time of its state, if it was reached by an action.
pub open spec fn plan_steps(nodes: Seq<NodeView>, i: int) -> Seq<PlanStep>
    decreases i,
{
    if i < 0 || i >= nodes.len() {
        Seq::empty()
    } else {
        match nodes[i].parent {
            None => Seq::empty(),
            Some(p) => if p < i {
                match nodes[i].action {
                    Some(a) => plan_steps(nodes, p as int).push(
                        PlanStep { action: a, start_time: nodes[i].state.time as u64 },
                    ),
                    None => plan_steps(nodes, p as int),
                }
            } else {
                Seq::empty()
            },
        }
    }
}

/// The steps of a node do not change when nodes are added.
pub proof fn lemma_plan_steps_extends(nodes: Seq<NodeView>, more: Seq<NodeView>, i: int)
    requires
        0 <= i < nodes.len(),
    ensures
        plan_steps(nodes + more, i) == plan_steps(nodes, i),
    decreases i,
{
    assert((nodes + more)[i] == nodes[i]);
    match nodes[i].parent {
        None => {},
        Some(p) => {
            if p < i {
                lemma_plan_steps_extends(nodes, more, p as int);
            }
        },
    }
}

/// The node that starting an action from a node gives, unless something
/// pending is due and has to take effect first, the cost to pay or the
/// estimate is infinite, or the temporal network with the action in it has
/// no schedule. The action starts at the clock of the node's state and costs
/// its duration.
pub open spec fn action_child<H: TemporalHeuristic>(
    heuristic: H,
    parent: NodeView,
    parent_idx: usize,
    actions: Seq<GroundActionView>,
    goal: Option<Seq<GroundLiteral>>,
    a: usize,
) -> Option<NodeView> {
    let next = applied(parent.state, actions[a as int], a, parent.state.time);
    let h = heuristic.estimate(next, actions, goal);
    let constraints = parent.constraints + action_constraints(
        parent.points,
        parent.state.time as u64,
        actions[a as int].duration as u64,
    );
    if !no_event_due(parent.state.queue, parent.state.time) || parent.g + actions[a as int].duration
        >= INFINITE || h == INFINITE || parent.points + 2 > usize::MAX || !schedulable(
        parent.points + 2,
        constraints,
    ) {
        None
    } else {
        Some(
            NodeView {
                state: next,
                g: (parent.g + actions[a as int].duration) as u64,
                h,
                parent: Some(parent_idx),
                action: Some(a),
                points: parent.points + 2,
                constraints,
                booked: parent.booked.push(
                    ActionPoints {
                        action_idx: a,
                        start_point: parent.points as usize,
                        end_point: (parent.points + 1) as usize,
                    },
                ),
            },
        )
    }
}

/// The nodes that the first `n` candidates give, in their order.
pub open spec fn action_children<H: TemporalHeuristic>(
    heuristic: H,
    parent: NodeView,
    parent_idx: usize,
    actions: Seq<GroundActionView>,
    goal: Option<Seq<GroundLiteral>>,
    candidates: Seq<(usize, u64)>,
    n: int,
) -> Seq<NodeView>
    decreases n,
{
    if n <= 0 || n > candidates.len() {
        Seq::empty()
    } else {
        let before = action_children(heuristic, parent, parent_idx, actions, goal, candidates, n - 1);
        match action_child(heuristic, parent, parent_idx, actions, goal, candidates[n - 1].0) {
            Some(kid) => before.push(kid),
            None => before,
        }
    }
}

/// The time that passes while a state waits for its first pending instant.
pub open spec fn wait_of(state: TemporalStateView) -> nat {
    (advanced(state).time - state.time) as nat
}

/// The node that waiting for the first pending instant gives, where anything
/// is pending and neither the cost to pay nor the estimate is infinite.
/// Waiting costs the time that passes.
pub open spec fn wait_child<H: TemporalHeuristic>(
    heuristic: H,
    parent: NodeView,
    parent_idx: usize,
    actions: Seq<GroundActionView>,
    goal: Option<Seq<GroundLiteral>>,
) -> Option<NodeView> {
    let next = advanced(parent.state);
    let h = heuristic.estimate(next, actions, goal);
    if parent.state.queue.len() == 0 || parent.g + wait_of(parent.state) >= INFINITE || h
        == INFINITE {
        None
    } else {
        Some(
            NodeView {
                state: next,
                g: (parent.g + wait_of(parent.state)) as u64,
                h,
                parent: Some(parent_idx),
                action: None,
                points: parent.points,
                constraints: parent.constraints,
                booked: parent.booked,
            },
        )
    }
}

/// The successors of a node: one for each action that can start, in the
/// order of the actions' numbers, then the one for waiting. While something
/// pending is due, waiting is the only one.
pub open spec fn offspring<H: TemporalHeuristic>(
    heuristic: H,
    parent: NodeView,
    parent_idx: usize,
    actions: Seq<GroundActionView>,
    goal: Option<Seq<GroundLiteral>>,
) -> Seq<NodeView> {
    let candidates = applicable_among(parent.state, actions, actions.len() as int);
    let kids = action_children(
        heuristic,
        parent,
        parent_idx,
        actions,
        goal,
        candidates,
        candidates.len() as int,
    );
    match wait_child(heuristic, parent, parent_idx, actions, goal) {
        Some(kid) => kids.push(kid),
        None => kids,
    }
}

/// Every candidate is an action that can start now, with the clock as its
/// start time.
pub proof fn lemma_candidates(state: TemporalStateView, actions: Seq<GroundActionView>, n: int)
    requires
        0 <= n <= actions.len(),
        n <= usize::MAX,
        state.time <= u64::MAX,
    ensures
        forall|k: int|
            0 <= k < applicable_among(state, actions, n).len() ==> {
                let c = #[trigger] applicable_among(state, actions, n)[k];
                &&& c.0 < n
                &&& c.1 == state.time
                &&& applicable(state, actions[c.0 as int], c.0 as int)
            },
    decreases n,
{
    if n > 0 {
        lemma_candidates(state, actions, n - 1);
        let before = applicable_among(state, actions, n - 1);
        let all = applicable_among(state, actions, n);
        assert forall|k: int| 0 <= k < all.len() implies {
            let c = #[trigger] all[k];
            &&& c.0 < n
            &&& c.1 == state.time
            &&& applicable(state, actions[c.0 as int], c.0 as int)
        } by {
            if k < before.len() {
                assert(all[k] == before[k]);
            }
        }
    }
}

/// Whether a node is a successor of its parent: it was reached by an action
/// that could start in the parent's state, or by waiting while something was
/// pending.
pub open spec fn is_child<H: TemporalHeuristic>(
    heuristic: H,
    parent: NodeView,
    parent_idx: usize,
    actions: Seq<GroundActionView>,
    goal: Option<Seq<GroundLiteral>>,
    kid: NodeView,
) -> bool {
    &&& kid.parent == Some(parent_idx)
    &&& kid.h == heuristic.estimate(kid.state, actions, goal)
    &&& match kid.action {
        Some(a) => {
            &&& a < actions.len()
            &&& no_event_due(parent.state.queue, parent.state.time)
            &&& applicable(parent.state, actions[a as int], a as int)
            &&& kid.state == applied(parent.state, actions[a as int], a, parent.state.time)
            &&& kid.points == parent.points + 2
            &&& kid.points <= usize::MAX
            &&& kid.constraints == parent.constraints + action_constraints(
                parent.points,
                parent.state.time as u64,
                actions[a as int].duration as u64,
            )
            &&& kid.booked == parent.booked.push(
                ActionPoints {
                    action_idx: a,
                    start_point: parent.points as usize,
                    end_point: (parent.points + 1) as usize,
                },
            )
        },
        None => {
            &&& parent.state.queue.len() > 0
            &&& kid.state == advanced(parent.state)
            &&& kid.points == parent.points
            &&& kid.constraints == parent.constraints
            &&& kid.booked == parent.booked
        },
    }
}

pub proof fn lemma_action_children<H: TemporalHeuristic>(
    heuristic: H,
    parent: NodeView,
    parent_idx: usize,
    actions: Seq<GroundActionView>,
    goal: Option<Seq<GroundLiteral>>,
    candidates: Seq<(usize, u64)>,
    n: int,
)
    requires
        0 <= n <= candidates.len(),
        forall|k: int|
            0 <= k < candidates.len() ==> {
                let c = #[trigger] candidates[k];
                c.0 < actions.len() && applicable(parent.state, actions[c.0 as int], c.0 as int)
            },
    ensures
        forall|k: int|
            0 <= k < action_children(
                heuristic,
                parent,
                parent_idx,
                actions,
                goal,
                candidates,
                n,
            ).len() ==> is_child(
                heuristic,
                parent,
                parent_idx,
                actions,
                goal,
                #[trigger] action_children(
                    heuristic,
                    parent,
                    parent_idx,
                    actions,
                    goal,
                    candidates,
                    n,
                )[k],
            ),
    decreases n,
{
    if n > 0 {
        lemma_action_children(heuristic, parent, parent_idx, actions, goal, candidates, n - 1);
        let c = candidates[n - 1];
        assert(c.0 < actions.len() && applicable(parent.state, actions[c.0 as int], c.0 as int));
        let before = action_children(heuristic, parent, parent_idx, actions, goal, candidates, n - 1);
        let all = action_children(heuristic, parent, parent_idx, actions, goal, candidates, n);
        assert forall|k: int| 0 <= k < all.len() implies is_child(
            heuristic,
            parent,
            parent_idx,
            actions,
            goal,
            #[trigger] all[k],
        ) by {
            if k < before.len() {
                assert(all[k] == before[k]);
            }
        }
    }
}

/// Every successor of a node is a child of it.
pub proof fn lemma_offspring<H: TemporalHeuristic>(
    heuristic: H,
    parent: NodeView,
    parent_idx: usize,
    actions: Seq<GroundActionView>,
    goal: Option<Seq<GroundLiteral>>,
)
    requires
        actions.len() <= usize::MAX,
        parent.state.time <= u64::MAX,
    ensures
        forall|k: int|
            0 <= k < offspring(heuristic, parent, parent_idx, actions, goal).len() ==> is_child(
                heuristic,
                parent,
                parent_idx,
                actions,
                goal,
                #[trigger] offspring(heuristic, parent, parent_idx, actions, goal)[k],
            ),
{
    let candidates = applicable_among(parent.state, actions, actions.len() as int);
    lemma_candidates(parent.state, actions, actions.len() as int);
    lemma_action_children(
        heuristic,
        parent,
        parent_idx,
        actions,
        goal,
        candidates,
        candidates.len() as int,
    );
    let kids = action_children(
        heuristic,
        parent,
        parent_idx,
        actions,
        goal,
        candidates,
        candidates.len() as int,
    );
    let all = offspring(heuristic, parent, parent_idx, actions, goal);
    assert forall|k: int| 0 <= k < all.len() implies is_child(
        heuristic,
        parent,
        parent_idx,
        actions,
        goal,
        #[trigger] all[k],
    ) by {
        if k < kids.len() {
            assert(all[k] == kids[k]);
        }
    }
}

/// Builds the successors of a node.
pub fn expand<H: TemporalHeuristic>(
    space: &StateSpace,
    heuristic: &H,
    parent: &SearchNode,
    parent_idx: usize,
) -> (kids: Vec<SearchNode>)
    requires
        parent.network.wf(),
        parent.network.consistent,
    ensures
        view_all(kids@) == offspring(
            *heuristic,
            parent@,
            parent_idx,
            space.actions_view(),
            space.goal_view(),
        ),
        forall|k: int|
            0 <= k < kids.len() ==> (#[trigger] kids@[k]).network.wf() && kids@[k].network.consistent,
{
    let ghost actions = space.actions_view();
    let ghost goal = space.goal_view();
    let candidates = space.get_applicable_actions(&parent.state);
    let ready = nothing_due(&parent.state);
    let mut kids: Vec<SearchNode> = Vec::new();
    proof {
        lemma_view_all_empty::<SearchNode>();
        lemma_candidates(parent@.state, actions, actions.len() as int);
    }
    let mut i: usize = 0;
    while i < candidates.len()
        invariant
            i <= candidates.len(),
            actions == space.actions_view(),
            goal == space.goal_view(),
            candidates@ == applicable_among(parent@.state, actions, actions.len() as int),
            ready == no_event_due(parent@.state.queue, parent@.state.time),
            forall|k: int|
                0 <= k < candidates.len() ==> {
                    let c = #[trigger] candidates@[k];
                    &&& c.0 < actions.len()
                    &&& c.1 == parent@.state.time
                    &&& applicable(parent@.state, actions[c.0 as int], c.0 as int)
                },
            view_all(kids@) == action_children(
                *heuristic,
                parent@,
                parent_idx,
                actions,
                goal,
                candidates@,
                i as int,
            ),
            parent.network.wf(),
            parent.network.consistent,
            forall|k: int|
                0 <= k < kids.len() ==> (#[trigger] kids@[k]).network.wf()
                    && kids@[k].network.consistent,
        decreases candidates.len() - i,
    {
        let (a, start) = candidates[i];
        assert(candidates@[i as int] == (a, start));
        assert(actions[a as int] == space.actions@[a as int]@);
        let duration = space.actions[a].duration;
        if ready && duration < INFINITE - parent.g_value && parent.network.distances.len()
            <= usize::MAX - 2 {
            let mut network = parent.network.copy();
            let _ = network.add_action(a, start, duration);
            if network.is_consistent() {
                let next = space.apply_action(&parent.state, a, start);
                let h = heuristic.compute(&next, space);
                if h != INFINITE {
                    let kid = SearchNode {
                        state: next,
                        g_value: parent.g_value + duration,
                        h_value: h,
                        parent: Some(parent_idx),
                        action_idx: Some(a),
                        network,
                    };
                    let ghost before = kids@;
                    proof {
                        lemma_view_all_push(kids@, kid);
                    }
                    kids.push(kid);
                    proof {
                        assert forall|k: int| 0 <= k < kids.len() implies (#[trigger] kids@[k]).network.wf()
                            && kids@[k].network.consistent by {
                            if k < before.len() {
                                assert(kids@[k] == before[k]);
                            }
                        }
                    }
                }
            }
        }
        i = i + 1;
    }
    if parent.state.scheduled_effects.len() > 0 {
        let next = space.advance_time(&parent.state);
        let passed = next.time - parent.state.time;
        let h = heuristic.compute(&next, space);
        if passed < INFINITE - parent.g_value && h != INFINITE {
            let kid = SearchNode {
                state: next,
                g_value: parent.g_value + passed,
                h_value: h,
                parent: Some(parent_idx),
                action_idx: None,
                network: parent.network.copy(),
            };
            let ghost before = kids@;
            proof {
                lemma_view_all_push(kids@, kid);
            }
            kids.push(kid);
            proof {
                assert forall|k: int| 0 <= k < kids.len() implies (#[trigger] kids@[k]).network.wf()
                    && kids@[k].network.consistent by {
                    if k < before.len() {
                        assert(kids@[k] == before[k]);
                    }
                }
            }
        }
    }
    kids
}

/// What holds of every node of a search: its parent stands before it, its
/// estimate is that of its state, the steps by which it was reached can be
/// taken in turn from the initial state, its state stands for the state that
/// they lead to, and its temporal network is the network of those steps.
pub open spec fn node_ok<H: TemporalHeuristic>(
    heuristic: H,
    initial: TemporalStateView,
    actions: Seq<GroundActionView>,
    goal: Option<Seq<GroundLiteral>>,
    nodes: Seq<NodeView>,
    i: int,
) -> bool {
    let node = nodes[i];
    let steps = plan_steps(nodes, i);
    &&& (node.parent is Some ==> node.parent->0 < i)
    &&& node.state.time <= u64::MAX
    &&& node.h == heuristic.estimate(node.state, actions, goal)
    &&& executed(initial, actions, steps, steps.len() as int) is Some
    &&& stands_for(node.state, executed(initial, actions, steps, steps.len() as int)->0)
    &&& forall|k: int|
        0 <= k < steps.len() ==> (#[trigger] steps[k]).action < actions.len()
            && actions[steps[k].action as int].duration <= u64::MAX
    &&& node.points <= usize::MAX
    &&& node.points == path_shape(steps, actions, steps.len() as int).points
    &&& node.constraints == path_shape(steps, actions, steps.len() as int).constraints
    &&& node.booked == path_shape(steps, actions, steps.len() as int).booked
}

pub proof fn lemma_node_ok_extends<H: TemporalHeuristic>(
    heuristic: H,
    initial: TemporalStateView,
    actions: Seq<GroundActionView>,
    goal: Option<Seq<GroundLiteral>>,
    nodes: Seq<NodeView>,
    more: Seq<NodeView>,
    i: int,
)
    requires
        0 <= i < nodes.len(),
        node_ok(heuristic, initial, actions, goal, nodes, i),
    ensures
        node_ok(heuristic, initial, actions, goal, nodes + more, i),
{
    lemma_plan_steps_extends(nodes, more, i);
    assert((nodes + more)[i] == nodes[i]);
}

/// A child of a node of which all this holds is a node of which it holds.
pub proof fn lemma_child_ok<H: TemporalHeuristic>(
    heuristic: H,
    initial: TemporalStateView,
    actions: Seq<GroundActionView>,
    goal: Option<Seq<GroundLiteral>>,
    nodes: Seq<NodeView>,
    more: Seq<NodeView>,
    n: usize,
    k: int,
)
    requires
        n < nodes.len(),
        0 <= k < more.len(),
        node_ok(heuristic, initial, actions, goal, nodes, n as int),
        is_child(heuristic, nodes[n as int], n, actions, goal, more[k]),
    ensures
        node_ok(heuristic, initial, actions, goal, nodes + more, nodes.len() + k),
{
    let all = nodes + more;
    let at = nodes.len() + k;
    let kid = more[k];
    let parent = nodes[n as int];
    assert(all[at] == kid);
    assert(all[n as int] == parent);
    lemma_plan_steps_extends(nodes, more, n as int);
    let before = plan_steps(nodes, n as int);
    let run = executed(initial, actions, before, before.len() as int)->0;
    match kid.action {
        Some(a) => {
            let step = PlanStep { action: a, start_time: kid.state.time as u64 };
            let steps = before.push(step);
            assert(plan_steps(all, at) == steps);
            lemma_executed_prefix(initial, actions, before, steps, before.len() as int);
            lemma_applicable_is_ready(parent.state, actions[a as int], a as int);
            lemma_stands_when_ready(parent.state, run);
            assert(kid.state.time == parent.state.time);
            assert(step_from(run, actions, step) == Some(kid.state));
            assert(executed(initial, actions, steps, steps.len() as int) == Some(kid.state));
            assert forall|k: int| 0 <= k < steps.len() implies (#[trigger] steps[k]).action
                < actions.len() && actions[steps[k].action as int].duration <= u64::MAX by {
                if k < before.len() {
                    assert(steps[k] == before[k]);
                }
            }
            crate::timing::lemma_path_shape_prefix(before, steps, actions, before.len() as int);
        },
        None => {
            assert(plan_steps(all, at) == before);
            lemma_stands_after_advance(parent.state, run);
        },
    }
}

/// How a search ends.
#[derive(Debug)]
pub enum SearchResult {
    /// A plan was found.
    Solution(Plan),
    /// The frontier ran empty: there is no solution.
    Failure,
    /// The budget was used up.
    Interrupted,
}

/// How a search ends, as contracts speak of it.
pub enum Verdict {
    Solution { steps: Seq<PlanStep>, cost: u64 },
    Failure,
    Interrupted,
}

impl View for SearchResult {
    type V = Verdict;

    open spec fn view(&self) -> Verdict {
        match self {
            SearchResult::Solution(plan) => Verdict::Solution {
                steps: plan.steps(),
                cost: plan.cost,
            },
            SearchResult::Failure => Verdict::Failure,
            SearchResult::Interrupted => Verdict::Interrupted,
        }
    }
}

/// What a search holds between two steps: the nodes made so far, the
/// frontier in the order of entry, and the closed nodes.
pub struct SearchState {
    pub nodes: Seq<NodeView>,
    pub frontier: Seq<usize>,
    pub closed: Seq<usize>,
}

/// What one step of a search leads to.
pub enum Progress {
    Done(Verdict),
    More(SearchState),
}

/// The numbers `from`, `from + 1`, ... of `count` new nodes.
pub open spec fn fresh(from: int, count: int) -> Seq<usize> {
    Seq::new(count as nat, |k: int| (from + k) as usize)
}

/// One step of the search, from a frontier that is not empty.
///
/// The best node leaves the frontier. If its state ends in the goal, the
/// search is done, with the steps that led to the node and what was paid for
/// them. If
/// its state is closed at no greater cost, the node is dropped. Otherwise
/// the state is closed at the node's cost, and the node's successors join
/// the nodes and the frontier.
pub open spec fn step<H: TemporalHeuristic>(
    heuristic: H,
    actions: Seq<GroundActionView>,
    goal: Option<Seq<GroundLiteral>>,
    at: SearchState,
) -> Progress {
    let pos = best_position(at.nodes, at.frontier, at.frontier.len() as int);
    let n = at.frontier[pos];
    let rest = at.frontier.remove(pos);
    let node = at.nodes[n as int];
    if ends_in_goal(node.state, goal) {
        Progress::Done(Verdict::Solution { steps: plan_steps(at.nodes, n as int), cost: node.g })
    } else {
        let c = closed_position(at.nodes, at.closed, node.state, 0);
        if c >= 0 && at.nodes[at.closed[c] as int].g <= node.g {
            Progress::More(SearchState { nodes: at.nodes, frontier: rest, closed: at.closed })
        } else {
            let kids = offspring(heuristic, node, n, actions, goal);
            Progress::More(
                SearchState {
                    nodes: at.nodes + kids,
                    frontier: rest + fresh(at.nodes.len() as int, kids.len() as int),
                    closed: if c >= 0 {
                        at.closed.update(c, n)
                    } else {
                        at.closed.push(n)
                    },
                },
            )
        }
    }
}

/// How the search ends from a search state with a budget of steps: with a
/// failure when the frontier is empty, interrupted when the budget is used
/// up first, and else as it ends after one more step.
pub open spec fn run<H: TemporalHeuristic>(
    heuristic: H,
    actions: Seq<GroundActionView>,
    goal: Option<Seq<GroundLiteral>>,
    at: SearchState,
    budget: nat,
) -> Verdict
    decreases budget,
{
    if at.frontier.len() == 0 {
        Verdict::Failure
    } else if budget == 0 {
        Verdict::Interrupted
    } else {
        match step(heuristic, actions, goal, at) {
            Progress::Done(v) => v,
            Progress::More(next) => run(heuristic, actions, goal, next, (budget - 1) as nat),
        }
    }
}

/// The search state a search starts from: the root alone, at no cost, with
/// the temporal network of the origin alone. The root does not enter the
/// frontier where its estimate is infinite, nor where the goal is plainly
/// out of reach: the search then fails at once.
pub open spec fn first_state<H: TemporalHeuristic>(
    heuristic: H,
    initial: TemporalStateView,
    actions: Seq<GroundActionView>,
    goal: Option<Seq<GroundLiteral>>,
) -> SearchState {
    let h = heuristic.estimate(initial, actions, goal);
    SearchState {
        nodes: seq![
            NodeView {
                state: initial,
                g: 0,
                h,
                parent: None,
                action: None,
                points: 1,
                constraints: Seq::empty(),
                booked: Seq::empty(),
            },
        ],
        frontier: if h == INFINITE || out_of_reach(initial, actions, goal) {
            Seq::empty()
        } else {
            seq![0usize]
        },
        closed: Seq::empty(),
    }
}

/// How the search for a plan ends: it depends on the initial state, the
/// actions, the goal, the heuristic and the budget, and on nothing else.
pub open spec fn search_verdict<H: TemporalHeuristic>(
    heuristic: H,
    initial: TemporalStateView,
    actions: Seq<GroundActionView>,
    goal: Option<Seq<GroundLiteral>>,
    budget: nat,
) -> Verdict {
    run(heuristic, actions, goal, first_state(heuristic, initial, actions, goal), budget)
}

/// Reads the plan that led to a node off the nodes.
pub fn extract_plan(nodes: &Vec<SearchNode>, goal_node: usize) -> (plan: Plan)
    requires
        goal_node < nodes.len(),
        forall|i: int|
            0 <= i < nodes.len() ==> ((#[trigger] nodes@[i]).parent is Some ==> nodes@[i].parent->0
                < i),
    ensures
        plan.wf(),
        plan.steps() == plan_steps(view_all(nodes@), goal_node as int),
        plan.cost == nodes@[goal_node as int].g_value,
{
    let ghost views = view_all(nodes@);
    let mut backwards: Vec<PlanStep> = Vec::new();
    let mut current = goal_node;
    loop
        invariant
            current < nodes.len(),
            goal_node < nodes.len(),
            views == view_all(nodes@),
            forall|i: int|
                0 <= i < nodes.len() ==> ((#[trigger] nodes@[i]).parent is Some ==> nodes@[i].parent->0
                    < i),
            plan_steps(views, goal_node as int) == plan_steps(views, current as int)
                + backwards@.reverse(),
        ensures
            plan_steps(views, goal_node as int) == backwards@.reverse(),
        decreases current,
    {
        let node = &nodes[current];
        assert(views[current as int] == node@);
        match node.parent {
            None => {
                proof {
                    assert(Seq::<PlanStep>::empty() + backwards@.reverse() =~= backwards@.reverse());
                }
                break ;
            },
            Some(p) => {
                let ghost before = backwards@;
                match node.action_idx {
                    Some(a) => {
                        let step = PlanStep { action: a, start_time: node.state.time };
                        backwards.push(step);
                        proof {
                            assert(plan_steps(views, p as int).push(step) + before.reverse()
                                =~= plan_steps(views, p as int) + backwards@.reverse());
                        }
                    },
                    None => {},
                }
                current = p;
            },
        }
    }
    let mut actions: Vec<usize> = Vec::new();
    let mut start_times: Vec<u64> = Vec::new();
    let mut i: usize = backwards.len();
    while i > 0
        invariant
            i <= backwards.len(),
            actions.len() == backwards.len() - i,
            start_times.len() == backwards.len() - i,
            forall|k: int|
                0 <= k < actions.len() ==> actions@[k] == (#[trigger] backwards@.reverse()[k]).action
                    && start_times@[k] == backwards@.reverse()[k].start_time,
        decreases i,
    {
        i = i - 1;
        actions.push(backwards[i].action);
        start_times.push(backwards[i].start_time);
    }
    let plan = Plan { actions, start_times, cost: nodes[goal_node].g_value };
    assert(plan.steps() =~= backwards@.reverse());
    plan
}

/// Gives the steps of a plan the start times of a schedule, one for each
/// step in turn. A time before the origin counts as the origin.
pub fn timed_plan(walked: Plan, schedule: &Vec<ScheduledAction>) -> (plan: Plan)
    requires
        walked.wf(),
        schedule.len() == walked.actions.len(),
    ensures
        plan.wf(),
        plan.actions@ == walked.actions@,
        plan.cost == walked.cost,
        forall|k: int|
            0 <= k < schedule.len() ==> #[trigger] plan.start_times@[k] == (if schedule@[k].start_time
                < 0 {
                0
            } else {
                schedule@[k].start_time as u64
            }),
{
    let mut start_times: Vec<u64> = Vec::new();
    let mut k: usize = 0;
    while k < schedule.len()
        invariant
            k <= schedule.len(),
            start_times.len() == k,
            forall|j: int|
                0 <= j < k ==> #[trigger] start_times@[j] == (if schedule@[j].start_time < 0 {
                    0
                } else {
                    schedule@[j].start_time as u64
                }),
        decreases schedule.len() - k,
    {
        let t = schedule[k].start_time;
        if t < 0 {
            start_times.push(0);
        } else {
            start_times.push(t as u64);
        }
        k = k + 1;
    }
    Plan { actions: walked.actions, start_times, cost: walked.cost }
}

/// What a search hands back: how it ended, and the nodes it made.
#[derive(Debug)]
pub struct SearchOutcome {
    pub result: SearchResult,
    pub nodes: Vec<SearchNode>,
}

pub proof fn lemma_view_all_concat<T: View>(a: Seq<T>, b: Seq<T>)
    ensures
        view_all(a + b) == view_all(a) + view_all(b),
{
    assert(view_all(a + b) =~= view_all(a) + view_all(b));
}

/// What is left of a frontier when one entry leaves still holds every other
/// node that it held.
pub proof fn lemma_remove_keeps_others(frontier: Seq<usize>, pos: int, i: usize)
    requires
        0 <= pos < frontier.len(),
        frontier.contains(i),
        i != frontier[pos],
    ensures
        frontier.remove(pos).contains(i),
{
    let j = choose|j: int| 0 <= j < frontier.len() && frontier[j] == i;
    let rest = frontier.remove(pos);
    if j < pos {
        assert(rest[j] == i);
    } else {
        assert(rest[j - 1] == i);
    }
}

/// The steps that led to a node whose state ends in the goal solve the task.
pub proof fn lemma_goal_node_solves<H: TemporalHeuristic>(
    heuristic: H,
    initial: TemporalStateView,
    actions: Seq<GroundActionView>,
    goal: Option<Seq<GroundLiteral>>,
    nodes: Seq<NodeView>,
    n: int,
)
    requires
        0 <= n < nodes.len(),
        node_ok(heuristic, initial, actions, goal, nodes, n),
        ends_in_goal(nodes[n].state, goal),
    ensures
        solves(initial, actions, goal, plan_steps(nodes, n)),
{
    let steps = plan_steps(nodes, n);
    let run = executed(initial, actions, steps, steps.len() as int)->0;
    lemma_finished_alike(nodes[n].state, run);
}

/// No node whose state ends in the goal was reached more cheaply than the
/// one that left the frontier as its best.
pub proof fn lemma_cheapest_goal<H: TemporalHeuristic>(
    heuristic: H,
    actions: Seq<GroundActionView>,
    goal: Option<Seq<GroundLiteral>>,
    nodes: Seq<NodeView>,
    frontier: Seq<usize>,
    i: usize,
)
    requires
        frontier.len() > 0,
        i < nodes.len(),
        forall|j: int| 0 <= j < frontier.len() ==> (#[trigger] frontier[j]) < nodes.len(),
        frontier.contains(i),
        ends_in_goal(nodes[i as int].state, goal),
        nodes[i as int].h == heuristic.estimate(nodes[i as int].state, actions, goal),
    ensures
        nodes[frontier[best_position(nodes, frontier, frontier.len() as int)] as int].g
            <= nodes[i as int].g,
{
    lemma_best_position(nodes, frontier, frontier.len() as int);
    heuristic.lemma_goal_costs_nothing(nodes[i as int].state, actions, goal);
    let j = choose|j: int| 0 <= j < frontier.len() && frontier[j] == i;
    assert(f_of(nodes[frontier[best_position(nodes, frontier, frontier.len() as int)] as int])
        <= f_of(nodes[frontier[j] as int]));
}

/// Searches for a plan in a state space, best first, within a budget of
/// steps and a limit of time.
///
/// Without a limit of time the search ends as its verdict says. With one it
/// may also end interrupted, when the limit is reached before a step.
pub fn astar<H: TemporalHeuristic>(
    space: &StateSpace,
    heuristic: &H,
    budget: u64,
    watch: &Stopwatch,
) -> (outcome: SearchOutcome)
    ensures
        outcome.result is Interrupted || outcome.result@ == search_verdict(
            *heuristic,
            space.initial_view(),
            space.actions_view(),
            space.goal_view(),
            budget as nat,
        ),
        watch.limit_millis is None ==> outcome.result@ == search_verdict(
            *heuristic,
            space.initial_view(),
            space.actions_view(),
            space.goal_view(),
            budget as nat,
        ),
        outcome.result matches SearchResult::Solution(plan) ==> {
            &&& plan.wf()
            &&& solves(space.initial_view(), space.actions_view(), space.goal_view(), plan.steps())
            &&& forall|i: int|
                0 <= i < outcome.nodes.len() && ends_in_goal(
                    (#[trigger] outcome.nodes@[i])@.state,
                    space.goal_view(),
                ) ==> plan.cost <= outcome.nodes@[i].g_value
        },
        outcome.result is Failure ==> forall|i: int|
            0 <= i < outcome.nodes.len() ==> !ends_in_goal(
                (#[trigger] outcome.nodes@[i])@.state,
                space.goal_view(),
            ),
{
    let ghost initial = space.initial_view();
    let ghost actions = space.actions_view();
    let ghost goal = space.goal_view();
    let root_state = space.initial_state();
    let h0 = heuristic.compute(&root_state, space);
    let lost = goal_out_of_reach(&root_state, space);
    let root = SearchNode {
        state: root_state,
        g_value: 0,
        h_value: h0,
        parent: None,
        action_idx: None,
        network: SimpleTemporalNetwork::new(),
    };
    let mut nodes: Vec<SearchNode> = Vec::new();
    let mut frontier: Vec<usize> = Vec::new();
    let mut closed: Vec<usize> = Vec::new();
    proof {
        lemma_view_all_empty::<SearchNode>();
        lemma_view_all_push(nodes@, root);
    }
    nodes.push(root);
    if h0 != INFINITE && !lost {
        frontier.push(0);
    }
    let mut left = budget;
    proof {
        let views = view_all(nodes@);
        assert(views =~= seq![root@]);
        assert(root@.constraints =~= Seq::<TemporalConstraint>::empty());
        assert(root@.booked =~= Seq::<ActionPoints>::empty());
        assert(views =~= first_state(*heuristic, initial, actions, goal).nodes);
        assert(frontier@ =~= first_state(*heuristic, initial, actions, goal).frontier);
        assert(closed@ =~= Seq::<usize>::empty());
        assert(plan_steps(views, 0) =~= Seq::<PlanStep>::empty());
        assert(node_ok(*heuristic, initial, actions, goal, views, 0));
        if !frontier@.contains(0usize) {
            if ends_in_goal(views[0].state, goal) {
                heuristic.lemma_goal_costs_nothing(views[0].state, actions, goal);
                if out_of_reach(views[0].state, actions, goal) {
                    lemma_out_of_reach_is_no_goal(views[0].state, actions, goal);
                }
            }
        } else {
            assert(frontier@[0] == 0);
        }
    }
    loop
        invariant
            initial == space.initial_view(),
            actions == space.actions_view(),
            goal == space.goal_view(),
            nodes.len() >= 1,
            forall|i: int|
                0 <= i < nodes.len() ==> (#[trigger] nodes@[i]).network.wf()
                    && nodes@[i].network.consistent,
            forall|j: int| 0 <= j < frontier.len() ==> (#[trigger] frontier@[j]) < nodes.len(),
            forall|j: int| 0 <= j < closed.len() ==> (#[trigger] closed@[j]) < nodes.len(),
            forall|i: int|
                0 <= i < nodes.len() ==> #[trigger] node_ok(
                    *heuristic,
                    initial,
                    actions,
                    goal,
                    view_all(nodes@),
                    i,
                ),
            forall|i: int|
                0 <= i < nodes.len() && !frontier@.contains(i as usize) ==> !ends_in_goal(
                    (#[trigger] view_all(nodes@)[i]).state,
                    goal,
                ),
            run(
                *heuristic,
                actions,
                goal,
                SearchState { nodes: view_all(nodes@), frontier: frontier@, closed: closed@ },
                left as nat,
            ) == search_verdict(*heuristic, initial, actions, goal, budget as nat),
        decreases left,
    {
        let ghost views = view_all(nodes@);
        let ghost at = SearchState { nodes: views, frontier: frontier@, closed: closed@ };
        if frontier.len() == 0 {
            proof {
                assert forall|i: int| 0 <= i < nodes.len() implies !ends_in_goal(
                    (#[trigger] nodes@[i])@.state,
                    goal,
                ) by {
                    assert(!frontier@.contains(i as usize));
                    assert(views[i] == nodes@[i]@);
                }
            }
            return SearchOutcome { result: SearchResult::Failure, nodes };
        }
        if left == 0 {
            return SearchOutcome { result: SearchResult::Interrupted, nodes };
        }
        if watch.expired() {
            return SearchOutcome { result: SearchResult::Interrupted, nodes };
        }
        let pos = find_best(&nodes, &frontier);
        let ghost old_frontier = frontier@;
        let n = frontier.remove(pos);
        assert(n < nodes.len());
        assert(views[n as int] == nodes@[n as int]@);
        assert(node_ok(*heuristic, initial, actions, goal, views, n as int));
        if space.ends_in_goal(&nodes[n].state) {
            proof {
                assert forall|i: int|
                    0 <= i < nodes.len() && (#[trigger] nodes@[i]).parent is Some implies nodes@[i].parent->0
                    < i by {
                    assert(node_ok(*heuristic, initial, actions, goal, views, i));
                    assert(views[i] == nodes@[i]@);
                }
            }
            let walked = extract_plan(&nodes, n);
            let schedule = nodes[n].network.get_schedule();
            proof {
                let network = &nodes@[n as int].network;
                let steps = walked.steps();
                lemma_path_shape_size(steps, actions, steps.len() as int);
                lemma_earliest_start_is_start_time(network, steps, actions);
                assert forall|k: int| 0 <= k < schedule.len() implies (#[trigger] schedule@[k]).start_time
                    == walked.start_times@[k] by {
                    lemma_path_shape_at(steps, actions, steps.len() as int, k);
                    assert(steps[k].start_time == walked.start_times@[k]);
                    assert(network.earliest(2 * k + 1) == steps[k].start_time);
                }
            }
            let ghost walked_steps = walked.steps();
            let plan = timed_plan(walked, &schedule);
            proof {
                assert(plan.steps() =~= walked_steps);
                lemma_goal_node_solves(*heuristic, initial, actions, goal, views, n as int);
                assert forall|i: int|
                    0 <= i < nodes.len() && ends_in_goal(
                        (#[trigger] nodes@[i])@.state,
                        goal,
                    ) implies plan.cost <= nodes@[i].g_value by {
                    assert(views[i] == nodes@[i]@);
                    assert(old_frontier.contains(i as usize));
                    assert(node_ok(*heuristic, initial, actions, goal, views, i));
                    lemma_cheapest_goal(*heuristic, actions, goal, views, old_frontier, i as usize);
                }
            }
            return SearchOutcome { result: SearchResult::Solution(plan), nodes };
        }
        let found = find_closed(&nodes, &closed, &nodes[n].state);
        let known = match found {
            Some(c) => nodes[closed[c]].g_value <= nodes[n].g_value,
            None => false,
        };
        proof {
            match found {
                Some(c) => {
                    assert(views[closed@[c as int] as int] == nodes@[closed@[c as int] as int]@);
                },
                None => {},
            }
            assert forall|i: int|
                0 <= i < nodes.len() && !frontier@.contains(i as usize) implies !ends_in_goal(
                (#[trigger] views[i]).state,
                goal,
            ) by {
                if i != n {
                    if old_frontier.contains(i as usize) {
                        lemma_remove_keeps_others(old_frontier, pos as int, i as usize);
                    }
                }
            }
        }
        if !known {
            match found {
                Some(c) => {
                    closed[c] = n;
                },
                None => {
                    closed.push(n);
                },
            }
            let mut kids = expand(space, heuristic, &nodes[n], n);
            let first = nodes.len();
            let count = kids.len();
            let ghost kid_views = view_all(kids@);
            let ghost rest = frontier@;
            let ghost old_nodes = nodes@;
            let ghost new_kids = kids@;
            proof {
                lemma_view_all_concat(nodes@, kids@);
                assert(actions.len() == space.actions.len());
                lemma_offspring(*heuristic, views[n as int], n, actions, goal);
            }
            nodes.append(&mut kids);
            proof {
                assert forall|i: int| 0 <= i < nodes.len() implies (#[trigger] nodes@[i]).network.wf()
                    && nodes@[i].network.consistent by {
                    if i < old_nodes.len() {
                        assert(nodes@[i] == old_nodes[i]);
                    } else {
                        assert(nodes@[i] == new_kids[i - old_nodes.len()]);
                    }
                }
            }
            let mut k: usize = 0;
            while k < count
                invariant
                    k <= count,
                    first + count == nodes.len(),
                    forall|i: int|
                        0 <= i < nodes.len() ==> (#[trigger] nodes@[i]).network.wf()
                            && nodes@[i].network.consistent,
                    frontier@ == rest + fresh(first as int, k as int),
                decreases count - k,
            {
                frontier.push(first + k);
                proof {
                    assert(rest + fresh(first as int, k as int + 1) =~= (rest + fresh(
                        first as int,
                        k as int,
                    )).push((first + k) as usize));
                }
                k = k + 1;
            }
            proof {
                let all = views + kid_views;
                assert(view_all(nodes@) == all);
                assert forall|i: int| 0 <= i < nodes.len() implies #[trigger] node_ok(
                    *heuristic,
                    initial,
                    actions,
                    goal,
                    all,
                    i,
                ) by {
                    if i < first {
                        assert(node_ok(*heuristic, initial, actions, goal, views, i));
                        lemma_node_ok_extends(*heuristic, initial, actions, goal, views, kid_views, i);
                    } else {
                        lemma_child_ok(
                            *heuristic,
                            initial,
                            actions,
                            goal,
                            views,
                            kid_views,
                            n,
                            i - first,
                        );
                    }
                }
                assert forall|i: int|
                    0 <= i < nodes.len() && !frontier@.contains(i as usize) implies !ends_in_goal(
                    (#[trigger] all[i]).state,
                    goal,
                ) by {
                    if i < first {
                        assert(all[i] == views[i]);
                        if rest.contains(i as usize) {
                            let j = choose|j: int| 0 <= j < rest.len() && rest[j] == i as usize;
                            assert(frontier@[j] == i as usize);
                        }
                    } else {
                        assert(frontier@[rest.len() + (i - first)] == i as usize);
                    }
                }
                assert forall|j: int| 0 <= j < frontier.len() implies (#[trigger] frontier@[j])
                    < nodes.len() by {
                    if j < rest.len() {
                        assert(frontier@[j] == rest[j]);
                    }
                }
            }
        }
        left = left - 1;
    }
}

/// The number of steps a search takes before it gives up, unless told
/// otherwise.
pub const DEFAULT_BUDGET: u64 = 1_000_000;

/// The heuristics a search can be guided by.
#[derive(Debug)]
pub enum Heuristic {
    /// The estimate is always zero.
    FastForward(TemporalFFHeuristic),
    /// The max-cost estimate of the relaxed task.
    Admissible(TemporalAdmissibleHeuristic),
}

impl TemporalHeuristic for Heuristic {
    open spec fn estimate(
        &self,
        state: TemporalStateView,
        actions: Seq<GroundActionView>,
        goal: Option<Seq<GroundLiteral>>,
    ) -> u64 {
        match self {
            Heuristic::FastForward(h) => h.estimate(state, actions, goal),
            Heuristic::Admissible(h) => h.estimate(state, actions, goal),
        }
    }

    fn compute(&self, state: &TemporalState, space: &StateSpace) -> (h: u64) {
        match self {
            Heuristic::FastForward(h) => h.compute(state, space),
            Heuristic::Admissible(h) => h.compute(state, space),
        }
    }

    proof fn lemma_goal_costs_nothing(
        &self,
        state: TemporalStateView,
        actions: Seq<GroundActionView>,
        goal: Option<Seq<GroundLiteral>>,
    ) {
        match self {
            Heuristic::FastForward(h) => h.lemma_goal_costs_nothing(state, actions, goal),
            Heuristic::Admissible(h) => h.lemma_goal_costs_nothing(state, actions, goal),
        }
    }
}

/// How the search for a plan of a task ends.
pub open spec fn task_verdict<H: TemporalHeuristic>(heuristic: H, task: TaskView, budget: nat) -> Verdict {
    search_verdict(heuristic, initial_state_of(task), actions_of(task), goal_of(task), budget)
}

/// Where the goal of a task asks for a fact that is false at the start and
/// that no action makes true, the search for a plan of the task fails,
/// whatever the heuristic and the budget. The same holds where the goal is
/// about a fact outside the table.
pub proof fn lemma_unreachable_goal_fails<H: TemporalHeuristic>(
    heuristic: H,
    task: TaskView,
    budget: nat,
    g: int,
)
    requires
        goal_of(task) matches Some(goal) ==> {
            &&& 0 <= g < goal.len()
            &&& !goal[g].negated
            &&& (goal[g].fact >= initial_state_of(task).facts.len() || !initial_state_of(
                task,
            ).facts[goal[g].fact as int])
            &&& never_added(actions_of(task), goal[g].fact as int)
        },
    ensures
        task_verdict(heuristic, task, budget) == Verdict::Failure,
{
    let initial = initial_state_of(task);
    match goal_of(task) {
        Some(goal) => {
            assert(hopeless(initial, actions_of(task), goal[g]));
        },
        None => {},
    }
    assert(first_state(heuristic, initial, actions_of(task), goal_of(task)).frontier.len() == 0);
}

/// Whether the steps are a plan of the task.
pub open spec fn is_plan_of(task: TaskView, steps: Seq<PlanStep>) -> bool {
    solves(initial_state_of(task), actions_of(task), goal_of(task), steps)
}

/// A search engine finds a plan of a task.
pub trait TemporalSearchEngine {
    /// How the engine's search for a plan of the task ends, if no limit of
    /// time interrupts it.
    spec fn verdict(&self, task: TaskView) -> Verdict;

    /// Whether the engine keeps a limit of time.
    spec fn timed(&self) -> bool;

    /// Searches for a plan of the task. The search ends as the verdict says,
    /// unless the engine keeps a limit of time and is interrupted by it.
    fn search(&mut self, task: &TemporalTask) -> (result: SearchResult)
        ensures
            result is Interrupted || result@ == old(self).verdict(task@),
            !old(self).timed() ==> result@ == old(self).verdict(task@),
            result matches SearchResult::Solution(plan) ==> plan.wf() && is_plan_of(
                task@,
                plan.steps(),
            ),
    ;
}

/// Best-first search: the frontier is ordered by what was paid plus what is
/// estimated, then by the estimate, then by the order of entry.
#[derive(Debug)]
pub struct TemporalAStarSearch {
    pub heuristic: Heuristic,
    /// The number of steps the search takes before it gives up.
    pub budget: u64,
    /// The milliseconds the search takes before it gives up, if it keeps a
    /// limit of time.
    pub time_limit_millis: Option<u64>,
}

impl TemporalAStarSearch {
    /// The engine with the zero heuristic and the default budget.
    pub fn new() -> (engine: TemporalAStarSearch)
        ensures
            engine.heuristic is FastForward,
            engine.budget == DEFAULT_BUDGET,
            engine.time_limit_millis is None,
    {
        TemporalAStarSearch {
            heuristic: Heuristic::FastForward(TemporalFFHeuristic::new()),
            budget: DEFAULT_BUDGET,
            time_limit_millis: None,
        }
    }

    /// The engine with the max-cost heuristic of the relaxed task and the
    /// default budget.
    pub fn admissible() -> (engine: TemporalAStarSearch)
        ensures
            engine.heuristic is Admissible,
            engine.budget == DEFAULT_BUDGET,
            engine.time_limit_millis is None,
    {
        TemporalAStarSearch {
            heuristic: Heuristic::Admissible(TemporalAdmissibleHeuristic::new()),
            budget: DEFAULT_BUDGET,
            time_limit_millis: None,
        }
    }

    /// Searches for a plan of the task and hands back the nodes it made.
    ///
    /// A plan that is found solves the task, and no node that the search made
    /// and whose state ends in the goal was reached more cheaply than the
    /// plan's.
    pub fn search_traced(&self, task: &TemporalTask) -> (outcome: SearchOutcome)
        ensures
            outcome.result is Interrupted || outcome.result@ == task_verdict(
                self.heuristic,
                task@,
                self.budget as nat,
            ),
            self.time_limit_millis is None ==> outcome.result@ == task_verdict(
                self.heuristic,
                task@,
                self.budget as nat,
            ),
            outcome.result matches SearchResult::Solution(plan) ==> {
                &&& plan.wf()
                &&& is_plan_of(task@, plan.steps())
                &&& forall|i: int|
                    0 <= i < outcome.nodes.len() && ends_in_goal(
                        (#[trigger] outcome.nodes@[i])@.state,
                        goal_of(task@),
                    ) ==> plan.cost <= outcome.nodes@[i].g_value
            },
            outcome.result is Failure ==> forall|i: int|
                0 <= i < outcome.nodes.len() ==> !ends_in_goal(
                    (#[trigger] outcome.nodes@[i])@.state,
                    goal_of(task@),
                ),
    {
        let space = StateSpace::new(task);
        let watch = Stopwatch::start(self.time_limit_millis);
        astar(&space, &self.heuristic, self.budget, &watch)
    }
}

impl TemporalSearchEngine for TemporalAStarSearch {
    open spec fn verdict(&self, task: TaskView) -> Verdict {
        task_verdict(self.heuristic, task, self.budget as nat)
    }

    open spec fn timed(&self) -> bool {
        self.time_limit_millis is Some
    }

    fn search(&mut self, task: &TemporalTask) -> (result: SearchResult) {
        let outcome = self.search_traced(task);
        outcome.result
    }
}

/// Searching is deterministic: two engines with the same heuristic and the
/// same budget end their search of a task alike, with the same steps at the
/// same times and the same cost where they find a plan. A search that keeps
/// no limit of time ends as this verdict says.
pub proof fn lemma_search_is_deterministic(
    one: TemporalAStarSearch,
    other: TemporalAStarSearch,
    task: TaskView,
)
    requires
        one.heuristic == other.heuristic,
        one.budget == other.budget,
    ensures
        one.verdict(task) == other.verdict(task),
{
}

} // verus!
