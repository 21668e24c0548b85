//! The simple temporal network: timepoints, bounds on their differences, and
//! the earliest time of each.

use vstd::prelude::*;
use crate::error::{ErrorKind, PlannerError};

verus! {

/// The span of time a network covers, in ticks: every timepoint lies at or
/// after the origin and no more than this after it.
pub const HORIZON: i64 = 0x2000_0000_0000_0000;

/// A bound on the difference of two timepoints:
/// `lower_bound <= to - from <= upper_bound`, where a bound that is absent
/// does not bind.
#[derive(Clone, Copy, Debug)]
pub struct TemporalConstraint {
    pub from: usize,
    pub to: usize,
    pub lower_bound: Option<i64>,
    pub upper_bound: Option<i64>,
}

/// Whether times meet a constraint.
pub open spec fn satisfies(times: Seq<int>, c: TemporalConstraint) -> bool {
    &&& c.from < times.len()
    &&& c.to < times.len()
    &&& (c.lower_bound is Some ==> times[c.to as int] - times[c.from as int] >= c.lower_bound->0)
    &&& (c.upper_bound is Some ==> times[c.to as int] - times[c.from as int] <= c.upper_bound->0)
}

/// Whether times are a schedule of a network: one time for each timepoint,
/// each within the horizon from the origin, and every constraint met.
pub open spec fn is_schedule(times: Seq<int>, points: nat, constraints: Seq<TemporalConstraint>) -> bool {
    &&& times.len() == points
    &&& forall|i: int| 0 <= i < points ==> 0 <= #[trigger] times[i] - times[0] <= HORIZON
    &&& forall|k: int| 0 <= k < constraints.len() ==> satisfies(times, #[trigger] constraints[k])
}

/// Whether a network has a schedule.
pub open spec fn schedulable(points: nat, constraints: Seq<TemporalConstraint>) -> bool {
    exists|times: Seq<int>| #[trigger] is_schedule(times, points, constraints)
}

/// The entry of a matrix of distances: the greatest that `j` can be later
/// than `i`.
pub open spec fn at(m: Seq<Vec<i64>>, i: int, j: int) -> int {
    m[i]@[j] as int
}

/// Whether a matrix of distances is closed: it is square, no timepoint is
/// later than itself, every entry is within the horizon, no timepoint is
/// before the origin, and no way round is shorter than the direct entry.
pub open spec fn closed(m: Seq<Vec<i64>>, n: nat) -> bool {
    &&& m.len() == n
    &&& n >= 1
    &&& forall|i: int| 0 <= i < n ==> (#[trigger] m[i])@.len() == n
    &&& forall|i: int| 0 <= i < n ==> #[trigger] at(m, i, i) == 0
    &&& forall|i: int, j: int|
        0 <= i < n && 0 <= j < n ==> -HORIZON <= #[trigger] at(m, i, j) <= HORIZON
    &&& forall|i: int| 0 <= i < n ==> #[trigger] at(m, i, 0) <= 0
    &&& forall|i: int, j: int, k: int|
        0 <= i < n && 0 <= j < n && 0 <= k < n ==> at(m, i, k) <= #[trigger] at(m, i, j)
            + #[trigger] at(m, j, k)
}

/// Whether times stay within the distances of a matrix.
pub open spec fn bounded_by(times: Seq<int>, m: Seq<Vec<i64>>) -> bool {
    forall|i: int, j: int|
        0 <= i < times.len() && 0 <= j < times.len() ==> times[j] - times[i] <= #[trigger] at(
            m,
            i,
            j,
        )
}

/// Whether the distances of a matrix are at least as tight as a constraint.
pub open spec fn enforces(m: Seq<Vec<i64>>, c: TemporalConstraint) -> bool {
    &&& c.from < m.len()
    &&& c.to < m.len()
    &&& (c.upper_bound is Some ==> at(m, c.from as int, c.to as int) <= c.upper_bound->0)
    &&& (c.lower_bound is Some ==> at(m, c.to as int, c.from as int) <= -c.lower_bound->0)
}

/// The earliest times a closed matrix gives: each timepoint as early after
/// the origin as the distances allow.
pub open spec fn earliest_times(m: Seq<Vec<i64>>) -> Seq<int> {
    Seq::new(m.len(), |i: int| -at(m, i, 0))
}

/// The earliest times of a closed matrix that enforces every constraint are
/// a schedule.
pub proof fn lemma_earliest_is_schedule(
    m: Seq<Vec<i64>>,
    n: nat,
    constraints: Seq<TemporalConstraint>,
)
    requires
        closed(m, n),
        forall|k: int| 0 <= k < constraints.len() ==> enforces(m, #[trigger] constraints[k]),
    ensures
        is_schedule(earliest_times(m), n, constraints),
        bounded_by(earliest_times(m), m),
{
    let times = earliest_times(m);
    assert(at(m, 0, 0) == 0);
    assert forall|i: int| 0 <= i < n implies 0 <= #[trigger] times[i] - times[0] <= HORIZON by {
        assert(at(m, i, 0) <= 0);
        assert(-HORIZON <= at(m, i, 0));
    }
    assert forall|i: int, j: int| 0 <= i < n && 0 <= j < n implies times[j] - times[i] <= #[trigger] at(
        m,
        i,
        j,
    ) by {
        assert(at(m, i, 0) <= at(m, i, j) + at(m, j, 0));
    }
    assert forall|k: int| 0 <= k < constraints.len() implies satisfies(
        times,
        #[trigger] constraints[k],
    ) by {
        let c = constraints[k];
        assert(enforces(m, c));
        assert(times[c.to as int] - times[c.from as int] <= at(m, c.from as int, c.to as int));
        assert(times[c.from as int] - times[c.to as int] <= at(m, c.to as int, c.from as int));
    }
}

/// The value that takes the place of a bound in the network: the bound,
/// unless the horizon binds more tightly or makes it impossible.
pub open spec fn clamped(bound: Option<i64>) -> int {
    match bound {
        None => HORIZON as int,
        Some(b) => if b > HORIZON {
            HORIZON as int
        } else if b < -HORIZON - 1 {
            -HORIZON - 1
        } else {
            b as int
        },
    }
}

fn clamp_bound(bound: Option<i64>) -> (w: i64)
    ensures
        w == clamped(bound),
{
    match bound {
        None => HORIZON,
        Some(b) => if b > HORIZON {
            HORIZON
        } else if b < -HORIZON - 1 {
            -HORIZON - 1
        } else {
            b
        },
    }
}

/// The value that takes the place of a lower bound, as an upper bound on the
/// opposite difference.
pub open spec fn clamped_opposite(bound: Option<i64>) -> int {
    match bound {
        None => HORIZON as int,
        Some(b) => if b < -HORIZON {
            HORIZON as int
        } else if b > HORIZON + 1 {
            -HORIZON - 1
        } else {
            -(b as int)
        },
    }
}

fn clamp_opposite(bound: Option<i64>) -> (w: i64)
    ensures
        w == clamped_opposite(bound),
{
    match bound {
        None => HORIZON,
        Some(b) => if b < -HORIZON {
            HORIZON
        } else if b > HORIZON + 1 {
            -HORIZON - 1
        } else {
            -b
        },
    }
}

/// The matrix after the difference `v - u` was bound by `w`: every entry is
/// the shorter of what it was and the way over `u` and `v`.
pub open spec fn tightened(m: Seq<Vec<i64>>, m2: Seq<Vec<i64>>, n: nat, u: int, v: int, w: int) -> bool {
    &&& m2.len() == n
    &&& forall|i: int| 0 <= i < n ==> (#[trigger] m2[i])@.len() == n
    &&& forall|i: int, j: int|
        0 <= i < n && 0 <= j < n ==> #[trigger] at(m2, i, j) == (if at(m, i, u) + w + at(m, v, j)
            < at(m, i, j) {
            at(m, i, u) + w + at(m, v, j)
        } else {
            at(m, i, j)
        })
}

/// Tightening a closed matrix by a bound that closes no negative cycle gives
/// a closed matrix that is nowhere looser and holds the bound.
pub proof fn lemma_tightened_closed(
    m: Seq<Vec<i64>>,
    m2: Seq<Vec<i64>>,
    n: nat,
    u: int,
    v: int,
    w: int,
)
    requires
        closed(m, n),
        0 <= u < n,
        0 <= v < n,
        -HORIZON - 1 <= w <= HORIZON,
        at(m, v, u) + w >= 0,
        tightened(m, m2, n, u, v, w),
    ensures
        closed(m2, n),
        at(m2, u, v) <= w,
        forall|i: int, j: int| 0 <= i < n && 0 <= j < n ==> #[trigger] at(m2, i, j) <= at(m, i, j),
{
    assert forall|i: int, j: int| 0 <= i < n && 0 <= j < n implies #[trigger] at(m2, i, j) <= at(
        m,
        i,
        j,
    ) by {}
    assert forall|i: int| 0 <= i < n implies #[trigger] at(m2, i, i) == 0 by {
        assert(at(m, v, u) <= at(m, v, i) + at(m, i, u));
        assert(at(m, i, i) == 0);
    }
    assert forall|i: int, j: int, k: int| 0 <= i < n && 0 <= j < n && 0 <= k < n implies at(
        m2,
        i,
        k,
    ) <= #[trigger] at(m2, i, j) + #[trigger] at(m2, j, k) by {
        let via_ij = at(m, i, u) + w + at(m, v, j);
        let via_jk = at(m, j, u) + w + at(m, v, k);
        let via_ik = at(m, i, u) + w + at(m, v, k);
        assert(at(m2, i, k) <= at(m, i, k));
        assert(at(m2, i, k) <= via_ik);
        assert(at(m, i, k) <= at(m, i, j) + at(m, j, k));
        assert(at(m, v, k) <= at(m, v, j) + at(m, j, k));
        assert(at(m, i, u) <= at(m, i, j) + at(m, j, u));
        assert(at(m, v, u) <= at(m, v, j) + at(m, j, u));
    }
    assert(at(m, u, u) == 0 && at(m, v, v) == 0);
    assert forall|i: int| 0 <= i < n implies #[trigger] at(m2, i, 0) <= 0 by {
        assert(at(m2, i, 0) <= at(m, i, 0));
    }
    assert forall|i: int, j: int| 0 <= i < n && 0 <= j < n implies -HORIZON <= #[trigger] at(
        m2,
        i,
        j,
    ) <= HORIZON by {
        assert(at(m2, i, j) <= at(m, i, j));
        assert(at(m2, i, i) <= at(m2, i, j) + at(m2, j, i));
        assert(at(m2, i, i) == 0);
        assert(at(m2, j, i) <= at(m, j, i));
    }
}

/// Times that stay within a matrix and meet a bound stay within the matrix
/// tightened by the bound.
pub proof fn lemma_tightened_sound(
    m: Seq<Vec<i64>>,
    m2: Seq<Vec<i64>>,
    n: nat,
    u: int,
    v: int,
    w: int,
    times: Seq<int>,
)
    requires
        times.len() == n,
        0 <= u < n,
        0 <= v < n,
        bounded_by(times, m),
        times[v] - times[u] <= w,
        tightened(m, m2, n, u, v, w),
    ensures
        bounded_by(times, m2),
{
    assert forall|i: int, j: int| 0 <= i < n && 0 <= j < n implies times[j] - times[i] <= #[trigger] at(
        m2,
        i,
        j,
    ) by {
        assert(times[j] - times[i] <= at(m, i, j));
        assert(times[u] - times[i] <= at(m, i, u));
        assert(times[j] - times[v] <= at(m, v, j));
    }
}

/// The matrix after one more timepoint was added: the new timepoint lies
/// within the horizon from the origin, and that is all that binds it.
pub open spec fn extended(m: Seq<Vec<i64>>, m2: Seq<Vec<i64>>, n: nat) -> bool {
    &&& m2.len() == n + 1
    &&& forall|i: int| 0 <= i <= n ==> (#[trigger] m2[i])@.len() == n + 1
    &&& forall|i: int, j: int| 0 <= i < n && 0 <= j < n ==> #[trigger] at(m2, i, j) == at(m, i, j)
    &&& forall|i: int| 0 <= i < n ==> #[trigger] at(m2, i, n as int) == at(m, i, 0) + HORIZON
    &&& forall|j: int| 0 <= j < n ==> #[trigger] at(m2, n as int, j) == at(m, 0, j)
    &&& at(m2, n as int, n as int) == 0
}

pub proof fn lemma_extended_closed(m: Seq<Vec<i64>>, m2: Seq<Vec<i64>>, n: nat)
    requires
        closed(m, n),
        extended(m, m2, n),
    ensures
        closed(m2, n + 1),
{
    let last = n as int;
    assert(at(m, 0, 0) == 0);
    assert forall|i: int| 0 <= i < n + 1 implies #[trigger] at(m2, i, i) == 0 by {
        if i < n {
            assert(at(m2, i, i) == at(m, i, i));
        }
    }
    assert forall|i: int| 0 <= i < n + 1 implies #[trigger] at(m2, i, 0) <= 0 by {
        if i < n {
            assert(at(m2, i, 0) == at(m, i, 0));
        } else {
            assert(at(m2, last, 0) == at(m, 0, 0));
        }
    }
    assert forall|i: int, j: int| 0 <= i < n + 1 && 0 <= j < n + 1 implies -HORIZON <= #[trigger] at(
        m2,
        i,
        j,
    ) <= HORIZON by {
        if i < n && j < n {
            assert(at(m2, i, j) == at(m, i, j));
        } else if i < n {
            assert(at(m2, i, last) == at(m, i, 0) + HORIZON);
            assert(at(m, i, 0) <= 0);
            assert(-HORIZON <= at(m, i, 0));
        } else if j < n {
            assert(at(m2, last, j) == at(m, 0, j));
        }
    }
    assert forall|i: int, j: int, k: int|
        0 <= i < n + 1 && 0 <= j < n + 1 && 0 <= k < n + 1 implies at(m2, i, k) <= #[trigger] at(
        m2,
        i,
        j,
    ) + #[trigger] at(m2, j, k) by {
        let a = if i < n {
            i
        } else {
            0
        };
        let b = if j < n {
            j
        } else {
            0
        };
        let c = if k < n {
            k
        } else {
            0
        };
        assert(at(m, a, c) <= at(m, a, b) + at(m, b, c));
        assert(at(m, a, 0) <= at(m, a, b) + at(m, b, 0));
        assert(at(m, 0, c) <= at(m, 0, b) + at(m, b, c));
        assert(at(m, a, c) <= at(m, a, 0) + at(m, 0, c));
        assert(at(m, 0, 0) <= at(m, 0, b) + at(m, b, 0));
        assert(at(m, a, 0) <= 0 && at(m, b, 0) <= 0);
        if i < n {
            assert(at(m2, i, last) == at(m, i, 0) + HORIZON);
        }
        if j < n {
            assert(at(m2, j, last) == at(m, j, 0) + HORIZON);
        }
        if i < n && j < n {
            assert(at(m2, i, j) == at(m, i, j));
        }
        if j < n && k < n {
            assert(at(m2, j, k) == at(m, j, k));
        }
        if i < n && k < n {
            assert(at(m2, i, k) == at(m, i, k));
        }
        if i >= n && j < n {
            assert(at(m2, last, j) == at(m, 0, j));
        }
        if j >= n && k < n {
            assert(at(m2, last, k) == at(m, 0, k));
        }
        if i >= n && k < n {
            assert(at(m2, last, k) == at(m, 0, k));
        }
    }
}

/// The times of a schedule with one timepoint more, without that timepoint,
/// are a schedule of the network as it was; and if those stay within the
/// matrix, the times with it stay within the extended matrix.
pub proof fn lemma_extended_sound(
    m: Seq<Vec<i64>>,
    m2: Seq<Vec<i64>>,
    n: nat,
    constraints: Seq<TemporalConstraint>,
    times: Seq<int>,
)
    requires
        n >= 1,
        is_schedule(times, n + 1, constraints),
        forall|k: int|
            0 <= k < constraints.len() ==> (#[trigger] constraints[k]).from < n && constraints[k].to
                < n,
    ensures
        is_schedule(times.take(n as int), n, constraints),
        extended(m, m2, n) && bounded_by(times.take(n as int), m) ==> bounded_by(times, m2),
{
    let short = times.take(n as int);
    assert forall|i: int| 0 <= i < n implies 0 <= #[trigger] short[i] - short[0] <= HORIZON by {
        assert(0 <= times[i] - times[0] <= HORIZON);
    }
    assert forall|k: int| 0 <= k < constraints.len() implies satisfies(
        short,
        #[trigger] constraints[k],
    ) by {
        assert(satisfies(times, constraints[k]));
    }
    if extended(m, m2, n) && bounded_by(short, m) {
        let last = n as int;
        assert(0 <= times[last] - times[0] <= HORIZON);
        assert forall|i: int, j: int| 0 <= i < n + 1 && 0 <= j < n + 1 implies times[j] - times[i]
            <= #[trigger] at(m2, i, j) by {
            if i < n && j < n {
                assert(short[j] - short[i] <= at(m, i, j));
                assert(at(m2, i, j) == at(m, i, j));
            } else if i < n {
                assert(short[0] - short[i] <= at(m, i, 0));
                assert(at(m2, i, last) == at(m, i, 0) + HORIZON);
            } else if j < n {
                assert(short[j] - short[0] <= at(m, 0, j));
                assert(at(m2, last, j) == at(m, 0, j));
            }
        }
    }
}

/// The timepoints at which an action of a plan starts and ends.
#[derive(Clone, Copy, Debug)]
pub struct ActionPoints {
    pub action_idx: usize,
    pub start_point: usize,
    pub end_point: usize,
}

/// An action of a plan and its earliest times, in ticks.
#[derive(Clone, Copy, Debug)]
pub struct ScheduledAction {
    pub action_idx: usize,
    pub start_time: i64,
    pub end_time: i64,
}

/// A simple temporal network. Timepoint 0 is the origin; every other
/// timepoint lies at or after it, within the horizon.
#[derive(Debug)]
pub struct SimpleTemporalNetwork {
    pub constraints: Vec<TemporalConstraint>,
    /// The distances between the timepoints. They are kept closed while the
    /// network is consistent.
    pub distances: Vec<Vec<i64>>,
    pub consistent: bool,
    /// The actions that were added, in the order in which they were added.
    pub actions: Vec<ActionPoints>,
}

/// The lower bound that stands for a time in ticks: the time, or what lies
/// just beyond the horizon where the time does.
pub open spec fn as_bound(t: u64) -> i64 {
    if t > HORIZON {
        (HORIZON + 1) as i64
    } else {
        t as i64
    }
}

fn bound_of(t: u64) -> (b: i64)
    ensures
        b == as_bound(t),
{
    if t > HORIZON as u64 {
        HORIZON + 1
    } else {
        t as i64
    }
}

/// The constraints that an action adds to a network of `points` timepoints:
/// its start, the next timepoint, lies no earlier after the origin than its
/// start time, and its end, the one after, lies its duration after its start.
pub open spec fn action_constraints(points: nat, start_time: u64, duration: u64) -> Seq<
    TemporalConstraint,
> {
    seq![
        TemporalConstraint {
            from: 0,
            to: points as usize,
            lower_bound: Some(as_bound(start_time)),
            upper_bound: None,
        },
        TemporalConstraint {
            from: points as usize,
            to: (points + 1) as usize,
            lower_bound: Some(as_bound(duration)),
            upper_bound: Some(as_bound(duration)),
        },
    ]
}

impl SimpleTemporalNetwork {
    /// The number of timepoints.
    pub open spec fn points(&self) -> nat {
        self.distances@.len()
    }

    /// The network is as its methods leave it: every constraint is between
    /// timepoints of the network; while it is consistent, the distances are
    /// closed, at least as tight as every constraint, and no tighter than
    /// any schedule requires; and once it is not, it has no schedule.
    pub open spec fn wf(&self) -> bool {
        &&& self.points() >= 1
        &&& forall|k: int|
            0 <= k < self.constraints@.len() ==> (#[trigger] self.constraints@[k]).from
                < self.points() && self.constraints@[k].to < self.points()
        &&& forall|k: int|
            0 <= k < self.actions@.len() ==> (#[trigger] self.actions@[k]).start_point
                < self.points() && self.actions@[k].end_point < self.points()
        &&& self.consistent ==> {
            &&& closed(self.distances@, self.points())
            &&& forall|k: int|
                0 <= k < self.constraints@.len() ==> enforces(
                    self.distances@,
                    #[trigger] self.constraints@[k],
                )
            &&& forall|times: Seq<int>| #[trigger]
                is_schedule(times, self.points(), self.constraints@) ==> bounded_by(
                    times,
                    self.distances@,
                )
        }
        &&& !self.consistent ==> !schedulable(self.points(), self.constraints@)
    }

    /// The network of the origin alone.
    pub fn new() -> (network: SimpleTemporalNetwork)
        ensures
            network.wf(),
            network.points() == 1,
            network.constraints@.len() == 0,
            network.actions@.len() == 0,
            network.consistent,
    {
        let mut row: Vec<i64> = Vec::new();
        row.push(0);
        let mut distances: Vec<Vec<i64>> = Vec::new();
        distances.push(row);
        let network = SimpleTemporalNetwork {
            constraints: Vec::new(),
            distances,
            consistent: true,
            actions: Vec::new(),
        };
        proof {
            assert(at(network.distances@, 0, 0) == 0);
            assert(closed(network.distances@, 1));
            assert forall|times: Seq<int>| #[trigger]
                is_schedule(times, 1, network.constraints@) implies bounded_by(
                times,
                network.distances@,
            ) by {}
        }
        network
    }

    /// Whether the network has a schedule.
    pub fn is_consistent(&self) -> (r: bool)
        requires
            self.wf(),
        ensures
            r == schedulable(self.points(), self.constraints@),
    {
        proof {
            if self.consistent {
                lemma_earliest_is_schedule(self.distances@, self.points(), self.constraints@);
            }
        }
        self.consistent
    }

    /// Adds a timepoint and hands back its number.
    pub fn add_timepoint(&mut self) -> (id: usize)
        requires
            old(self).wf(),
            old(self).points() < usize::MAX,
        ensures
            final(self).wf(),
            id == old(self).points(),
            final(self).points() == old(self).points() + 1,
            final(self).constraints@ == old(self).constraints@,
            final(self).actions@ == old(self).actions@,
            final(self).consistent == old(self).consistent,
    {
        let n = self.distances.len();
        let ghost m = self.distances@;
        let ghost constraints = self.constraints@;
        if !self.consistent {
            let mut row: Vec<i64> = Vec::new();
            self.distances.push(row);
            proof {
                let more = (n + 1) as nat;
                if schedulable(more, constraints) {
                    let times = choose|times: Seq<int>| #[trigger] is_schedule(times, more, constraints);
                    lemma_extended_sound(m, self.distances@, n as nat, constraints, times);
                    assert(is_schedule(times.take(n as int), n as nat, constraints));
                }
            }
            return n;
        }
        let mut rows: Vec<Vec<i64>> = Vec::new();
        let mut i: usize = 0;
        while i < n
            invariant
                i <= n,
                n == self.distances.len(),
                m == self.distances@,
                closed(m, n as nat),
                rows.len() == i,
                forall|a: int| 0 <= a < i ==> (#[trigger] rows@[a])@.len() == n + 1,
                forall|a: int, b: int|
                    0 <= a < i && 0 <= b < n ==> #[trigger] at(rows@, a, b) == at(m, a, b),
                forall|a: int| 0 <= a < i ==> #[trigger] at(rows@, a, n as int) == at(m, a, 0) + HORIZON,
            decreases n - i,
        {
            let mut row: Vec<i64> = Vec::new();
            let mut j: usize = 0;
            while j < n
                invariant
                    j <= n,
                    i < n,
                    n == self.distances.len(),
                    m == self.distances@,
                    closed(m, n as nat),
                    row.len() == j,
                    forall|b: int| 0 <= b < j ==> row@[b] == #[trigger] at(m, i as int, b),
                decreases n - j,
            {
                assert(m[i as int]@.len() == n);
                row.push(self.distances[i][j]);
                j = j + 1;
            }
            assert(m[i as int]@.len() == n);
            assert(at(m, i as int, 0) <= 0);
            assert(-HORIZON <= at(m, i as int, 0));
            row.push(self.distances[i][0] + HORIZON);
            let ghost before = rows@;
            let ghost filled = row@;
            rows.push(row);
            proof {
                assert forall|a: int, b: int| 0 <= a < i + 1 && 0 <= b < n implies #[trigger] at(
                    rows@,
                    a,
                    b,
                ) == at(m, a, b) by {
                    if a < i {
                        assert(rows@[a] == before[a]);
                        assert(at(before, a, b) == at(m, a, b));
                    } else {
                        assert(rows@[a]@ == filled);
                    }
                }
                assert forall|a: int| 0 <= a < i + 1 implies #[trigger] at(rows@, a, n as int) == at(
                    m,
                    a,
                    0,
                ) + HORIZON by {
                    if a < i {
                        assert(rows@[a] == before[a]);
                        assert(at(before, a, n as int) == at(m, a, 0) + HORIZON);
                    } else {
                        assert(rows@[a]@ == filled);
                    }
                }
            }
            i = i + 1;
        }
        let mut last: Vec<i64> = Vec::new();
        let mut j: usize = 0;
        while j < n
            invariant
                j <= n,
                n == self.distances.len(),
                n >= 1,
                m == self.distances@,
                closed(m, n as nat),
                last.len() == j,
                forall|b: int| 0 <= b < j ==> last@[b] == #[trigger] at(m, 0, b),
            decreases n - j,
        {
            assert(m[0]@.len() == n);
            last.push(self.distances[0][j]);
            j = j + 1;
        }
        last.push(0);
        let ghost before = rows@;
        let ghost filled = last@;
        rows.push(last);
        proof {
            assert forall|a: int, b: int| 0 <= a < n && 0 <= b < n implies #[trigger] at(rows@, a, b)
                == at(m, a, b) by {
                assert(rows@[a] == before[a]);
                assert(at(before, a, b) == at(m, a, b));
            }
            assert forall|a: int| 0 <= a < n implies #[trigger] at(rows@, a, n as int) == at(m, a, 0)
                + HORIZON by {
                assert(rows@[a] == before[a]);
                assert(at(before, a, n as int) == at(m, a, 0) + HORIZON);
            }
            assert forall|b: int| 0 <= b < n implies #[trigger] at(rows@, n as int, b) == at(m, 0, b) by {
                assert(rows@[n as int]@ == filled);
            }
            assert(rows@[n as int]@ == filled);
            assert forall|a: int| 0 <= a <= n implies (#[trigger] rows@[a])@.len() == n + 1 by {
                if a < n {
                    assert(rows@[a] == before[a]);
                }
            }
            assert(extended(m, rows@, n as nat));
            lemma_extended_closed(m, rows@, n as nat);
            assert forall|k: int| 0 <= k < constraints.len() implies enforces(
                rows@,
                #[trigger] constraints[k],
            ) by {
                let c = constraints[k];
                assert(enforces(m, c));
                assert(at(rows@, c.from as int, c.to as int) == at(m, c.from as int, c.to as int));
                assert(at(rows@, c.to as int, c.from as int) == at(m, c.to as int, c.from as int));
            }
            assert forall|times: Seq<int>| #[trigger]
                is_schedule(times, (n + 1) as nat, constraints) implies bounded_by(times, rows@) by {
                lemma_extended_sound(m, rows@, n as nat, constraints, times);
                assert(is_schedule(times.take(n as int), n as nat, constraints));
            }
        }
        self.distances = rows;
        n
    }
}

/// Builds the matrix tightened by a bound.
fn tighten(m: &Vec<Vec<i64>>, u: usize, v: usize, w: i64) -> (m2: Vec<Vec<i64>>)
    requires
        closed(m@, m@.len()),
        u < m.len(),
        v < m.len(),
        -HORIZON - 1 <= w <= HORIZON,
    ensures
        tightened(m@, m2@, m@.len(), u as int, v as int, w as int),
{
    let n = m.len();
    let mut rows: Vec<Vec<i64>> = Vec::new();
    let mut i: usize = 0;
    while i < n
        invariant
            i <= n,
            n == m.len(),
            u < n,
            v < n,
            -HORIZON - 1 <= w <= HORIZON,
            closed(m@, n as nat),
            rows.len() == i,
            forall|a: int| 0 <= a < i ==> (#[trigger] rows@[a])@.len() == n,
            forall|a: int, b: int|
                0 <= a < i && 0 <= b < n ==> #[trigger] at(rows@, a, b) == (if at(m@, a, u as int) + w
                    + at(m@, v as int, b) < at(m@, a, b) {
                    at(m@, a, u as int) + w + at(m@, v as int, b)
                } else {
                    at(m@, a, b)
                }),
        decreases n - i,
    {
        let mut row: Vec<i64> = Vec::new();
        let mut j: usize = 0;
        while j < n
            invariant
                j <= n,
                i < n,
                n == m.len(),
                u < n,
                v < n,
                -HORIZON - 1 <= w <= HORIZON,
                closed(m@, n as nat),
                row.len() == j,
                forall|b: int|
                    0 <= b < j ==> #[trigger] row@[b] as int == (if at(m@, i as int, u as int) + w + at(
                        m@,
                        v as int,
                        b,
                    ) < at(m@, i as int, b) {
                        at(m@, i as int, u as int) + w + at(m@, v as int, b)
                    } else {
                        at(m@, i as int, b)
                    }),
            decreases n - j,
        {
            assert(m@[i as int]@.len() == n);
            assert(m@[v as int]@.len() == n);
            assert(-HORIZON <= at(m@, i as int, u as int) <= HORIZON);
            assert(-HORIZON <= at(m@, v as int, j as int) <= HORIZON);
            let via = m[i][u] + w + m[v][j];
            let direct = m[i][j];
            if via < direct {
                row.push(via);
            } else {
                row.push(direct);
            }
            j = j + 1;
        }
        let ghost before = rows@;
        let ghost filled = row@;
        rows.push(row);
        proof {
            assert forall|a: int, b: int| 0 <= a < i + 1 && 0 <= b < n implies #[trigger] at(
                rows@,
                a,
                b,
            ) == (if at(m@, a, u as int) + w + at(m@, v as int, b) < at(m@, a, b) {
                at(m@, a, u as int) + w + at(m@, v as int, b)
            } else {
                at(m@, a, b)
            }) by {
                if a < i {
                    assert(rows@[a] == before[a]);
                    assert(at(rows@, a, b) == at(before, a, b));
                } else {
                    assert(rows@[a]@ == filled);
                    assert(at(rows@, a, b) == filled[b] as int);
                }
            }
            assert forall|a: int| 0 <= a < i + 1 implies (#[trigger] rows@[a])@.len() == n by {
                if a < i {
                    assert(rows@[a] == before[a]);
                }
            }
        }
        i = i + 1;
    }
    rows
}

/// A schedule meets the values that take the place of a constraint's bounds.
pub proof fn lemma_schedule_meets_clamped(
    times: Seq<int>,
    n: nat,
    constraints: Seq<TemporalConstraint>,
    c: TemporalConstraint,
)
    requires
        is_schedule(times, n, constraints),
        satisfies(times, c),
    ensures
        times[c.to as int] - times[c.from as int] <= clamped(c.upper_bound),
        times[c.from as int] - times[c.to as int] <= clamped_opposite(c.lower_bound),
{
    assert(0 <= times[c.to as int] - times[0] <= HORIZON);
    assert(0 <= times[c.from as int] - times[0] <= HORIZON);
}

/// A schedule of a network with one more constraint is a schedule of the
/// network without it that meets the constraint.
pub proof fn lemma_schedule_of_more(
    times: Seq<int>,
    n: nat,
    constraints: Seq<TemporalConstraint>,
    c: TemporalConstraint,
)
    ensures
        is_schedule(times, n, constraints.push(c)) <==> (is_schedule(times, n, constraints)
            && satisfies(times, c)),
{
    let more = constraints.push(c);
    if is_schedule(times, n, more) {
        assert forall|k: int| 0 <= k < constraints.len() implies satisfies(
            times,
            #[trigger] constraints[k],
        ) by {
            assert(more[k] == constraints[k]);
        }
        assert(more[constraints.len() as int] == c);
    }
    if is_schedule(times, n, constraints) && satisfies(times, c) {
        assert forall|k: int| 0 <= k < more.len() implies satisfies(times, #[trigger] more[k]) by {
            if k < constraints.len() {
                assert(more[k] == constraints[k]);
            }
        }
    }
}

impl SimpleTemporalNetwork {
    /// Adds the constraint `lower_bound <= to - from <= upper_bound`.
    ///
    /// A constraint on a timepoint that the network does not have is turned
    /// away and leaves the network as it was. Any other constraint joins the
    /// network, and the call succeeds exactly when the network then has a
    /// schedule.
    pub fn add_constraint(
        &mut self,
        from: usize,
        to: usize,
        lower_bound: Option<i64>,
        upper_bound: Option<i64>,
    ) -> (r: Result<(), PlannerError>)
        requires
            old(self).wf(),
        ensures
            final(self).wf(),
            final(self).points() == old(self).points(),
            final(self).actions@ == old(self).actions@,
            from >= old(self).points() || to >= old(self).points() ==> r is Err && final(self).constraints@ == old(self).constraints@ && final(self).consistent == old(self).consistent,
            from < old(self).points() && to < old(self).points() ==> final(self).constraints@ == old(self).constraints@.push(TemporalConstraint { from, to, lower_bound, upper_bound }) && (r is Ok
                <==> final(self).consistent),
            r is Err ==> r->Err_0.kind == ErrorKind::InconsistentTemporalConstraints,
            !old(self).consistent ==> !final(self).consistent,
    {
        let n = self.distances.len();
        if from >= n || to >= n {
            return Err(PlannerError::new(ErrorKind::InconsistentTemporalConstraints));
        }
        let c = TemporalConstraint { from, to, lower_bound, upper_bound };
        let ghost old_constraints = self.constraints@;
        let ghost m = self.distances@;
        self.constraints.push(c);
        let ghost constraints = self.constraints@;
        proof {
            assert forall|k: int| 0 <= k < constraints.len() implies (#[trigger] constraints[k]).from
                < n && constraints[k].to < n by {
                if k < old_constraints.len() {
                    assert(constraints[k] == old_constraints[k]);
                }
            }
        }
        if !self.consistent {
            proof {
                if schedulable(n as nat, constraints) {
                    let times = choose|times: Seq<int>| #[trigger]
                        is_schedule(times, n as nat, constraints);
                    lemma_schedule_of_more(times, n as nat, old_constraints, c);
                }
            }
            return Err(PlannerError::new(ErrorKind::InconsistentTemporalConstraints));
        }
        let w1 = clamp_bound(upper_bound);
        assert(self.distances@[to as int]@.len() == n);
        assert(-HORIZON <= at(m, to as int, from as int) <= HORIZON);
        if self.distances[to][from] + w1 < 0 {
            self.consistent = false;
            proof {
                if schedulable(n as nat, constraints) {
                    let times = choose|times: Seq<int>| #[trigger]
                        is_schedule(times, n as nat, constraints);
                    lemma_schedule_of_more(times, n as nat, old_constraints, c);
                    lemma_schedule_meets_clamped(times, n as nat, old_constraints, c);
                    assert(bounded_by(times, m));
                    assert(times[from as int] - times[to as int] <= at(m, to as int, from as int));
                }
            }
            return Err(PlannerError::new(ErrorKind::InconsistentTemporalConstraints));
        }
        let m1 = tighten(&self.distances, from, to, w1);
        proof {
            lemma_tightened_closed(m, m1@, n as nat, from as int, to as int, w1 as int);
        }
        let w2 = clamp_opposite(lower_bound);
        assert(m1@[from as int]@.len() == n);
        assert(-HORIZON <= at(m1@, from as int, to as int) <= HORIZON);
        if m1[from][to] + w2 < 0 {
            self.consistent = false;
            proof {
                if schedulable(n as nat, constraints) {
                    let times = choose|times: Seq<int>| #[trigger]
                        is_schedule(times, n as nat, constraints);
                    lemma_schedule_of_more(times, n as nat, old_constraints, c);
                    lemma_schedule_meets_clamped(times, n as nat, old_constraints, c);
                    assert(bounded_by(times, m));
                    lemma_tightened_sound(m, m1@, n as nat, from as int, to as int, w1 as int, times);
                    assert(times[to as int] - times[from as int] <= at(
                        m1@,
                        from as int,
                        to as int,
                    ));
                }
            }
            return Err(PlannerError::new(ErrorKind::InconsistentTemporalConstraints));
        }
        let m2 = tighten(&m1, to, from, w2);
        proof {
            lemma_tightened_closed(m1@, m2@, n as nat, to as int, from as int, w2 as int);
            assert forall|k: int| 0 <= k < constraints.len() implies enforces(
                m2@,
                #[trigger] constraints[k],
            ) by {
                let x = constraints[k];
                assert(at(m2@, x.from as int, x.to as int) <= at(m1@, x.from as int, x.to as int));
                assert(at(m1@, x.from as int, x.to as int) <= at(m, x.from as int, x.to as int));
                assert(at(m2@, x.to as int, x.from as int) <= at(m1@, x.to as int, x.from as int));
                assert(at(m1@, x.to as int, x.from as int) <= at(m, x.to as int, x.from as int));
                if k < old_constraints.len() {
                    assert(x == old_constraints[k]);
                    assert(enforces(m, x));
                } else {
                    assert(x == c);
                    assert(at(m, to as int, from as int) <= HORIZON);
                    assert(at(m1@, from as int, to as int) <= HORIZON);
                }
            }
            assert forall|times: Seq<int>| #[trigger]
                is_schedule(times, n as nat, constraints) implies bounded_by(times, m2@) by {
                lemma_schedule_of_more(times, n as nat, old_constraints, c);
                lemma_schedule_meets_clamped(times, n as nat, old_constraints, c);
                assert(bounded_by(times, m));
                lemma_tightened_sound(m, m1@, n as nat, from as int, to as int, w1 as int, times);
                lemma_tightened_sound(m1@, m2@, n as nat, to as int, from as int, w2 as int, times);
            }
        }
        self.distances = m2;
        Ok(())
    }

    /// The earliest time of a timepoint, in ticks after the origin.
    pub open spec fn earliest(&self, point: int) -> int {
        -at(self.distances@, point, 0)
    }

    /// The earliest time of every timepoint, in the order of their numbers;
    /// nothing for a network that has no schedule.
    ///
    /// The times are a schedule, and no schedule has any timepoint earlier
    /// after the origin.
    pub fn schedule(&self) -> (times: Vec<(usize, i64)>)
        requires
            self.wf(),
        ensures
            !self.consistent ==> times.len() == 0,
            self.consistent ==> {
                &&& times.len() == self.points()
                &&& forall|i: int|
                    0 <= i < times.len() ==> (#[trigger] times@[i]).0 == i && times@[i].1
                        == self.earliest(i)
                &&& is_schedule(earliest_times(self.distances@), self.points(), self.constraints@)
                &&& forall|other: Seq<int>, i: int| #[trigger]
                    is_schedule(other, self.points(), self.constraints@) && 0 <= i < self.points()
                        ==> self.earliest(i) <= #[trigger] other[i] - other[0]
            },
    {
        let mut times: Vec<(usize, i64)> = Vec::new();
        if !self.consistent {
            return times;
        }
        let n = self.distances.len();
        let mut i: usize = 0;
        while i < n
            invariant
                i <= n,
                n == self.distances.len(),
                self.wf(),
                self.consistent,
                times.len() == i,
                forall|k: int|
                    0 <= k < i ==> (#[trigger] times@[k]).0 == k && times@[k].1 == self.earliest(k),
            decreases n - i,
        {
            assert(self.distances@[i as int]@.len() == n);
            assert(-HORIZON <= at(self.distances@, i as int, 0) <= HORIZON);
            times.push((i, -self.distances[i][0]));
            i = i + 1;
        }
        proof {
            lemma_earliest_is_schedule(self.distances@, self.points(), self.constraints@);
            assert forall|other: Seq<int>, i: int| #[trigger]
                is_schedule(other, self.points(), self.constraints@) && 0 <= i
                < self.points() implies self.earliest(i) <= #[trigger] other[i] - other[0] by {
                assert(bounded_by(other, self.distances@));
                assert(other[0] - other[i] <= at(self.distances@, i, 0));
            }
        }
        times
    }

    /// Adds an action that starts no earlier than `start_time` and takes
    /// `duration`: its start and its end become the next two timepoints. The
    /// call succeeds exactly when the network then has a schedule.
    pub fn add_action(&mut self, action_idx: usize, start_time: u64, duration: u64) -> (r: Result<
        (),
        PlannerError,
    >)
        requires
            old(self).wf(),
            old(self).points() + 2 <= usize::MAX,
        ensures
            final(self).wf(),
            final(self).points() == old(self).points() + 2,
            final(self).constraints@ == old(self).constraints@ + action_constraints(
                old(self).points(),
                start_time,
                duration,
            ),
            final(self).actions@ == old(self).actions@.push(
                ActionPoints {
                    action_idx,
                    start_point: old(self).points() as usize,
                    end_point: (old(self).points() + 1) as usize,
                },
            ),
            r is Ok <==> final(self).consistent,
            r is Err ==> r->Err_0.kind == ErrorKind::InconsistentTemporalConstraints,
    {
        let ghost before = self.constraints@;
        let ghost points = self.points();
        let start_point = self.add_timepoint();
        let end_point = self.add_timepoint();
        let first = self.add_constraint(0, start_point, Some(bound_of(start_time)), None);
        let d = bound_of(duration);
        let second = self.add_constraint(start_point, end_point, Some(d), Some(d));
        self.actions.push(ActionPoints { action_idx, start_point, end_point });
        proof {
            assert(self.constraints@ =~= before + action_constraints(points, start_time, duration));
        }
        second
    }

    /// The earliest start and end of every action that was added, in the
    /// order in which they were added; nothing for a network that has no
    /// schedule.
    pub fn get_schedule(&self) -> (plan: Vec<ScheduledAction>)
        requires
            self.wf(),
        ensures
            !self.consistent ==> plan.len() == 0,
            self.consistent ==> plan.len() == self.actions.len() && forall|k: int|
                0 <= k < plan.len() ==> {
                    &&& (#[trigger] plan@[k]).action_idx == self.actions@[k].action_idx
                    &&& plan@[k].start_time == self.earliest(self.actions@[k].start_point as int)
                    &&& plan@[k].end_time == self.earliest(self.actions@[k].end_point as int)
                },
    {
        let mut plan: Vec<ScheduledAction> = Vec::new();
        if !self.consistent {
            return plan;
        }
        let mut k: usize = 0;
        while k < self.actions.len()
            invariant
                k <= self.actions.len(),
                self.wf(),
                self.consistent,
                plan.len() == k,
                forall|j: int|
                    0 <= j < k ==> {
                        &&& (#[trigger] plan@[j]).action_idx == self.actions@[j].action_idx
                        &&& plan@[j].start_time == self.earliest(self.actions@[j].start_point as int)
                        &&& plan@[j].end_time == self.earliest(self.actions@[j].end_point as int)
                    },
            decreases self.actions.len() - k,
        {
            let a = self.actions[k];
            let n = self.distances.len();
            assert(self.distances@[a.start_point as int]@.len() == n);
            assert(self.distances@[a.end_point as int]@.len() == n);
            assert(-HORIZON <= at(self.distances@, a.start_point as int, 0) <= HORIZON);
            assert(-HORIZON <= at(self.distances@, a.end_point as int, 0) <= HORIZON);
            plan.push(
                ScheduledAction {
                    action_idx: a.action_idx,
                    start_time: -self.distances[a.start_point][0],
                    end_time: -self.distances[a.end_point][0],
                },
            );
            k = k + 1;
        }
        plan
    }
}

impl SimpleTemporalNetwork {
    /// Whether two networks are the same: the same timepoints, constraints
    /// and actions, and the same distances between the timepoints.
    pub open spec fn same_as(&self, other: &SimpleTemporalNetwork) -> bool {
        &&& self.points() == other.points()
        &&& self.constraints@ == other.constraints@
        &&& self.actions@ == other.actions@
        &&& self.consistent == other.consistent
        &&& forall|i: int| 0 <= i < self.points() ==> (#[trigger] self.distances@[i])@ == other.distances@[i]@
    }

    /// A copy of the network.
    pub fn copy(&self) -> (other: SimpleTemporalNetwork)
        requires
            self.wf(),
        ensures
            other.wf(),
            other.same_as(self),
    {
        let mut constraints: Vec<TemporalConstraint> = Vec::new();
        let mut k: usize = 0;
        while k < self.constraints.len()
            invariant
                k <= self.constraints.len(),
                constraints@ == self.constraints@.take(k as int),
            decreases self.constraints.len() - k,
        {
            constraints.push(self.constraints[k]);
            assert(self.constraints@.take(k + 1) =~= self.constraints@.take(k as int).push(
                self.constraints@[k as int],
            ));
            k = k + 1;
        }
        assert(self.constraints@.take(self.constraints.len() as int) =~= self.constraints@);
        let mut actions: Vec<ActionPoints> = Vec::new();
        let mut a: usize = 0;
        while a < self.actions.len()
            invariant
                a <= self.actions.len(),
                actions@ == self.actions@.take(a as int),
            decreases self.actions.len() - a,
        {
            actions.push(self.actions[a]);
            assert(self.actions@.take(a + 1) =~= self.actions@.take(a as int).push(
                self.actions@[a as int],
            ));
            a = a + 1;
        }
        assert(self.actions@.take(self.actions.len() as int) =~= self.actions@);
        let mut distances: Vec<Vec<i64>> = Vec::new();
        let mut i: usize = 0;
        while i < self.distances.len()
            invariant
                i <= self.distances.len(),
                distances.len() == i,
                forall|r: int| 0 <= r < i ==> (#[trigger] distances@[r])@ == self.distances@[r]@,
            decreases self.distances.len() - i,
        {
            let source = &self.distances[i];
            let mut row: Vec<i64> = Vec::new();
            let mut j: usize = 0;
            while j < source.len()
                invariant
                    j <= source.len(),
                    row@ == source@.take(j as int),
                decreases source.len() - j,
            {
                row.push(source[j]);
                assert(source@.take(j + 1) =~= source@.take(j as int).push(source@[j as int]));
                j = j + 1;
            }
            assert(source@.take(source.len() as int) =~= source@);
            let ghost before = distances@;
            distances.push(row);
            proof {
                assert forall|r: int| 0 <= r < i + 1 implies (#[trigger] distances@[r])@
                    == self.distances@[r]@ by {
                    if r < i {
                        assert(distances@[r] == before[r]);
                    }
                }
            }
            i = i + 1;
        }
        let other = SimpleTemporalNetwork {
            constraints,
            distances,
            consistent: self.consistent,
            actions,
        };
        proof {
            let m = self.distances@;
            let m2 = other.distances@;
            let n = self.points();
            assert forall|i: int, j: int| 0 <= i < n implies #[trigger] at(m2, i, j) == at(m, i, j) by {
                assert(m2[i]@ == m[i]@);
            }
            if self.consistent {
                assert(closed(m2, n)) by {
                    assert forall|i: int| 0 <= i < n implies (#[trigger] m2[i])@.len() == n by {
                        assert(m2[i]@ == m[i]@);
                    }
                    assert forall|i: int, j: int, k: int|
                        0 <= i < n && 0 <= j < n && 0 <= k < n implies at(m2, i, k) <= #[trigger] at(
                        m2,
                        i,
                        j,
                    ) + #[trigger] at(m2, j, k) by {
                        assert(at(m, i, k) <= at(m, i, j) + at(m, j, k));
                    }
                }
                assert forall|k: int| 0 <= k < other.constraints@.len() implies enforces(
                    m2,
                    #[trigger] other.constraints@[k],
                ) by {
                    assert(enforces(m, self.constraints@[k]));
                }
                assert forall|times: Seq<int>| #[trigger]
                    is_schedule(times, n, other.constraints@) implies bounded_by(times, m2) by {
                    assert(bounded_by(times, m));
                    assert forall|i: int, j: int|
                        0 <= i < times.len() && 0 <= j < times.len() implies times[j] - times[i]
                        <= #[trigger] at(m2, i, j) by {
                        assert(times[j] - times[i] <= at(m, i, j));
                    }
                }
            }
        }
        other
    }
}

} // verus!
