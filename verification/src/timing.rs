//! The temporal network of a plan, and the times it gives the plan's steps.

use vstd::prelude::*;
use crate::plan::PlanStep;
use crate::scheduler::{
    ActionPoints, HORIZON, SimpleTemporalNetwork, TemporalConstraint, action_constraints, at,
    bounded_by, earliest_times, is_schedule, satisfies, lemma_earliest_is_schedule,
};
use crate::state_space::GroundActionView;

verus! {

/// What the temporal network of a plan holds: its timepoints, its
/// constraints, and the timepoints of each step.
pub struct PathShape {
    pub points: nat,
    pub constraints: Seq<TemporalConstraint>,
    pub booked: Seq<ActionPoints>,
}

/// The temporal network of the first `n` steps of a plan: the origin, and for
/// each step in turn its start and its end, with the constraints that the
/// step adds.
pub open spec fn path_shape(steps: Seq<PlanStep>, actions: Seq<GroundActionView>, n: int) -> PathShape
    decreases n,
{
    if n <= 0 || n > steps.len() {
        PathShape { points: 1, constraints: Seq::empty(), booked: Seq::empty() }
    } else {
        let before = path_shape(steps, actions, n - 1);
        let step = steps[n - 1];
        PathShape {
            points: before.points + 2,
            constraints: before.constraints + action_constraints(
                before.points,
                step.start_time,
                actions[step.action as int].duration as u64,
            ),
            booked: before.booked.push(
                ActionPoints {
                    action_idx: step.action,
                    start_point: before.points as usize,
                    end_point: (before.points + 1) as usize,
                },
            ),
        }
    }
}

/// The times at which the first `n` steps of a plan start and end, in the
/// order of the network's timepoints, with the origin at zero.
pub open spec fn path_times(steps: Seq<PlanStep>, actions: Seq<GroundActionView>, n: int) -> Seq<int>
    decreases n,
{
    if n <= 0 || n > steps.len() {
        seq![0int]
    } else {
        let step = steps[n - 1];
        path_times(steps, actions, n - 1).push(step.start_time as int).push(
            step.start_time + actions[step.action as int].duration,
        )
    }
}

pub proof fn lemma_path_shape_size(steps: Seq<PlanStep>, actions: Seq<GroundActionView>, n: int)
    requires
        0 <= n <= steps.len(),
    ensures
        path_shape(steps, actions, n).points == 2 * n + 1,
        path_shape(steps, actions, n).constraints.len() == 2 * n,
        path_shape(steps, actions, n).booked.len() == n,
        path_times(steps, actions, n).len() == 2 * n + 1,
        path_times(steps, actions, n)[0] == 0,
    decreases n,
{
    if n > 0 {
        lemma_path_shape_size(steps, actions, n - 1);
        assert(path_times(steps, actions, n)[0] == path_times(steps, actions, n - 1)[0]);
    }
}

/// What the network of a plan holds for the step `k`.
pub proof fn lemma_path_shape_at(steps: Seq<PlanStep>, actions: Seq<GroundActionView>, n: int, k: int)
    requires
        0 <= k < n <= steps.len(),
        2 * n + 1 <= usize::MAX,
    ensures
        ({
            let shape = path_shape(steps, actions, n);
            let duration = actions[steps[k].action as int].duration as u64;
            &&& 2 * k + 1 < shape.constraints.len()
            &&& k < shape.booked.len()
            &&& 2 * k + 2 < path_times(steps, actions, n).len()
            &&& shape.constraints[2 * k] == action_constraints(
                (2 * k + 1) as nat,
                steps[k].start_time,
                duration,
            )[0]
            &&& shape.constraints[2 * k + 1] == action_constraints(
                (2 * k + 1) as nat,
                steps[k].start_time,
                duration,
            )[1]
            &&& shape.booked[k].action_idx == steps[k].action
            &&& shape.booked[k].start_point == 2 * k + 1
            &&& shape.booked[k].end_point == 2 * k + 2
            &&& path_times(steps, actions, n)[2 * k + 1] == steps[k].start_time
            &&& path_times(steps, actions, n)[2 * k + 2] == steps[k].start_time
                + actions[steps[k].action as int].duration
        }),
    decreases n,
{
    lemma_path_shape_size(steps, actions, n);
    lemma_path_shape_size(steps, actions, n - 1);
    if k < n - 1 {
        lemma_path_shape_at(steps, actions, n - 1, k);
        let before = path_shape(steps, actions, n - 1);
        let shape = path_shape(steps, actions, n);
        assert(shape.constraints[2 * k] == before.constraints[2 * k]);
        assert(shape.constraints[2 * k + 1] == before.constraints[2 * k + 1]);
        assert(shape.booked[k] == before.booked[k]);
        assert(path_times(steps, actions, n)[2 * k + 1] == path_times(steps, actions, n - 1)[2 * k
            + 1]);
        assert(path_times(steps, actions, n)[2 * k + 2] == path_times(steps, actions, n - 1)[2 * k
            + 2]);
    }
}

/// In a consistent network of a plan, the earliest start of every step is
/// the step's start time.
pub proof fn lemma_earliest_start_is_start_time(
    network: &SimpleTemporalNetwork,
    steps: Seq<PlanStep>,
    actions: Seq<GroundActionView>,
)
    requires
        network.wf(),
        network.consistent,
        2 * steps.len() + 1 <= usize::MAX,
        forall|k: int|
            0 <= k < steps.len() ==> actions[(#[trigger] steps[k]).action as int].duration
                <= u64::MAX,
        network.points() == path_shape(steps, actions, steps.len() as int).points,
        network.constraints@ == path_shape(steps, actions, steps.len() as int).constraints,
    ensures
        forall|k: int|
            0 <= k < steps.len() ==> network.earliest(2 * k + 1) == (#[trigger] steps[k]).start_time,
{
    let n = steps.len() as int;
    let m = network.distances@;
    let shape = path_shape(steps, actions, n);
    let e = earliest_times(m);
    lemma_path_shape_size(steps, actions, n);
    lemma_earliest_is_schedule(m, network.points(), network.constraints@);
    assert(at(m, 0, 0) == 0);
    assert(e[0] == 0);
    let times = path_times(steps, actions, n);
    assert forall|k: int| 0 <= k < n implies e[2 * k + 1] >= (#[trigger] steps[k]).start_time
        && steps[k].start_time + actions[steps[k].action as int].duration <= HORIZON by {
        lemma_path_shape_at(steps, actions, n, k);
        let release = shape.constraints[2 * k];
        let rigid = shape.constraints[2 * k + 1];
        assert(satisfies(e, release));
        assert(satisfies(e, rigid));
        assert(0 <= e[2 * k + 1] - e[0] <= HORIZON);
        assert(0 <= e[2 * k + 2] - e[0] <= HORIZON);
    }
    assert(is_schedule(times, network.points(), network.constraints@)) by {
        assert forall|i: int| 0 <= i < network.points() implies 0 <= #[trigger] times[i] - times[0]
            <= HORIZON by {
            if i > 0 {
                let k = (i - 1) / 2;
                assert(0 <= k < n);
                lemma_path_shape_at(steps, actions, n, k);
                assert(e[2 * k + 1] >= steps[k].start_time && steps[k].start_time
                    + actions[steps[k].action as int].duration <= HORIZON);
                assert(i == 2 * k + 1 || i == 2 * k + 2);
            }
        }
        assert forall|j: int| 0 <= j < network.constraints@.len() implies satisfies(
            times,
            #[trigger] network.constraints@[j],
        ) by {
            let k = j / 2;
            assert(0 <= k < n);
            lemma_path_shape_at(steps, actions, n, k);
            assert(e[2 * k + 1] >= steps[k].start_time && steps[k].start_time
                + actions[steps[k].action as int].duration <= HORIZON);
            assert(j == 2 * k || j == 2 * k + 1);
        }
    }
    assert(bounded_by(times, m));
    assert forall|k: int| 0 <= k < n implies network.earliest(2 * k + 1) == (#[trigger] steps[k]).start_time by {
        lemma_path_shape_at(steps, actions, n, k);
        assert(e[2 * k + 1] >= steps[k].start_time && steps[k].start_time
            + actions[steps[k].action as int].duration <= HORIZON);
        assert(times[0] - times[2 * k + 1] <= at(m, 2 * k + 1, 0));
        assert(e[2 * k + 1] == -at(m, 2 * k + 1, 0));
    }
}

/// The network of the first steps of a plan does not depend on the steps
/// behind them.
pub proof fn lemma_path_shape_prefix(
    steps: Seq<PlanStep>,
    longer: Seq<PlanStep>,
    actions: Seq<GroundActionView>,
    n: int,
)
    requires
        0 <= n <= steps.len(),
        n <= longer.len(),
        forall|i: int| 0 <= i < n ==> steps[i] == longer[i],
    ensures
        path_shape(steps, actions, n) == path_shape(longer, actions, n),
    decreases n,
{
    if n > 0 {
        lemma_path_shape_prefix(steps, longer, actions, n - 1);
    }
}

} // verus!
