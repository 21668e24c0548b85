//! The agenda of pending events: which fire first, what they do to the facts,
//! and what is left of the agenda afterwards.

use vstd::prelude::*;
use crate::state_space::{EventKind, ScheduledEffect};

verus! {

/// The least fire time among the first `n` entries; 0 if there is none.
pub open spec fn earliest(queue: Seq<ScheduledEffect>, n: int) -> nat
    decreases n,
{
    if n <= 0 || n > queue.len() {
        0
    } else if n == 1 {
        queue[0].time as nat
    } else if queue[n - 1].time < earliest(queue, n - 1) {
        queue[n - 1].time as nat
    } else {
        earliest(queue, n - 1)
    }
}

/// The fire time that comes first in the agenda.
pub open spec fn next_time(queue: Seq<ScheduledEffect>) -> nat {
    earliest(queue, queue.len() as int)
}

/// The facts after those among the first `n` entries that fire at `t` and
/// are of the given kind, an addition or a deletion, have taken effect.
pub open spec fn fire_kind(
    facts: Seq<bool>,
    queue: Seq<ScheduledEffect>,
    t: nat,
    kind: EventKind,
    n: int,
) -> Seq<bool>
    decreases n,
{
    if n <= 0 || n > queue.len() {
        facts
    } else {
        let before = fire_kind(facts, queue, t, kind, n - 1);
        let e = queue[n - 1];
        if e.time == t && e.kind == kind && e.fact < before.len() {
            before.update(e.fact as int, kind == EventKind::Add)
        } else {
            before
        }
    }
}

/// The facts after the events of the instant `t` have taken effect: all
/// deletions first, then all additions, so that a fact that is both deleted
/// and added at one instant ends up true.
pub open spec fn fired(facts: Seq<bool>, queue: Seq<ScheduledEffect>, t: nat) -> Seq<bool> {
    fire_kind(
        fire_kind(facts, queue, t, EventKind::Delete, queue.len() as int),
        queue,
        t,
        EventKind::Add,
        queue.len() as int,
    )
}

/// Those among the first `n` entries that fire after `t`, in their order.
pub open spec fn later_than(queue: Seq<ScheduledEffect>, t: nat, n: int) -> Seq<ScheduledEffect>
    decreases n,
{
    if n <= 0 || n > queue.len() {
        Seq::empty()
    } else if queue[n - 1].time > t {
        later_than(queue, t, n - 1).push(queue[n - 1])
    } else {
        later_than(queue, t, n - 1)
    }
}

/// What is left of the agenda once the instant `t` has passed.
pub open spec fn remaining(queue: Seq<ScheduledEffect>, t: nat) -> Seq<ScheduledEffect> {
    later_than(queue, t, queue.len() as int)
}

/// The earliest time is the time of some entry, and no entry is earlier.
pub proof fn lemma_earliest_is_least(queue: Seq<ScheduledEffect>, n: int)
    requires
        1 <= n <= queue.len(),
    ensures
        forall|i: int| 0 <= i < n ==> earliest(queue, n) <= (#[trigger] queue[i]).time,
        exists|i: int| 0 <= i < n && (#[trigger] queue[i]).time == earliest(queue, n),
    decreases n,
{
    if n == 1 {
        assert(queue[0].time == earliest(queue, n));
    } else {
        lemma_earliest_is_least(queue, n - 1);
        let w = choose|i: int| 0 <= i < n - 1 && (#[trigger] queue[i]).time == earliest(queue, n - 1);
        if queue[n - 1].time < earliest(queue, n - 1) {
            assert(queue[n - 1].time == earliest(queue, n));
        } else {
            assert(queue[w].time == earliest(queue, n));
        }
    }
}

pub proof fn lemma_later_than_len(queue: Seq<ScheduledEffect>, t: nat, n: int)
    requires
        0 <= n <= queue.len(),
    ensures
        later_than(queue, t, n).len() <= n,
        (exists|i: int| 0 <= i < n && (#[trigger] queue[i]).time <= t) ==> later_than(
            queue,
            t,
            n,
        ).len() < n,
        forall|k: int|
            0 <= k < later_than(queue, t, n).len() ==> (#[trigger] later_than(queue, t, n)[k]).time
                > t,
    decreases n,
{
    if n > 0 {
        lemma_later_than_len(queue, t, n - 1);
        if exists|i: int| 0 <= i < n && (#[trigger] queue[i]).time <= t {
            let w = choose|i: int| 0 <= i < n && (#[trigger] queue[i]).time <= t;
            if w < n - 1 {
                assert(queue[w].time <= t);
            }
        }
    }
}

/// Once the first instant has passed, the agenda is shorter, and what is
/// left fires later.
pub proof fn lemma_remaining_shrinks(queue: Seq<ScheduledEffect>)
    requires
        queue.len() > 0,
    ensures
        remaining(queue, next_time(queue)).len() < queue.len(),
        forall|k: int|
            0 <= k < remaining(queue, next_time(queue)).len() ==> (#[trigger] remaining(
                queue,
                next_time(queue),
            )[k]).time > next_time(queue),
{
    lemma_earliest_is_least(queue, queue.len() as int);
    lemma_later_than_len(queue, next_time(queue), queue.len() as int);
}

/// Finds the fire time that comes first.
pub fn earliest_time(queue: &Vec<ScheduledEffect>) -> (t: u64)
    requires
        queue.len() > 0,
    ensures
        t == next_time(queue@),
{
    let mut t = queue[0].time;
    let mut i: usize = 1;
    while i < queue.len()
        invariant
            1 <= i <= queue.len(),
            t == earliest(queue@, i as int),
        decreases queue.len() - i,
    {
        if queue[i].time < t {
            t = queue[i].time;
        }
        i = i + 1;
    }
    t
}

fn fire_events_of_kind(facts: &mut Vec<bool>, queue: &Vec<ScheduledEffect>, t: u64, adding: bool)
    ensures
        final(facts)@ == fire_kind(
            old(facts)@,
            queue@,
            t as nat,
            if adding {
                EventKind::Add
            } else {
                EventKind::Delete
            },
            queue.len() as int,
        ),
{
    let ghost start = facts@;
    let ghost kind = if adding {
        EventKind::Add
    } else {
        EventKind::Delete
    };
    let mut i: usize = 0;
    while i < queue.len()
        invariant
            i <= queue.len(),
            kind == (if adding {
                EventKind::Add
            } else {
                EventKind::Delete
            }),
            facts@ == fire_kind(start, queue@, t as nat, kind, i as int),
        decreases queue.len() - i,
    {
        let e = queue[i];
        let matches = match e.kind {
            EventKind::Add => adding,
            EventKind::Delete => !adding,
            _ => false,
        };
        if e.time == t && matches && e.fact < facts.len() {
            facts[e.fact] = adding;
        }
        i = i + 1;
    }
}

/// Lets the events of the instant `t` take effect.
pub fn fire_events(facts: &mut Vec<bool>, queue: &Vec<ScheduledEffect>, t: u64)
    ensures
        final(facts)@ == fired(old(facts)@, queue@, t as nat),
{
    fire_events_of_kind(facts, queue, t, false);
    fire_events_of_kind(facts, queue, t, true);
}

/// The entries that fire after `t`.
pub fn entries_after(queue: &Vec<ScheduledEffect>, t: u64) -> (rest: Vec<ScheduledEffect>)
    ensures
        rest@ == remaining(queue@, t as nat),
{
    let mut rest: Vec<ScheduledEffect> = Vec::new();
    let mut i: usize = 0;
    while i < queue.len()
        invariant
            i <= queue.len(),
            rest@ == later_than(queue@, t as nat, i as int),
        decreases queue.len() - i,
    {
        if queue[i].time > t {
            rest.push(queue[i]);
        }
        i = i + 1;
    }
    rest
}

} // verus!
