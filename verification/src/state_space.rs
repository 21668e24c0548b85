//! The state space of a task: ground actions over fact numbers, temporal
//! states, and the rules by which actions start and time passes.

use vstd::prelude::*;
use crate::compile::{atom_of, fact_index, find_fact};
use crate::grounding::{ground_task, grounding};
use crate::temporal_task::{
    Condition, Fact, FluentView, GroundAtom, Literal, NumericFluent, State, TaskView, TemporalTask,
    conditions_view,
};
use crate::text::{copy_names, names_view, view_all};
use crate::timeline::{
    earliest_time, entries_after, fire_events, fired, later_than, next_time, remaining,
    lemma_earliest_is_least, lemma_later_than_len, lemma_remaining_shrinks,
};

verus! {

/// A fact number with a sign: as a condition, that the fact is false where
/// `negated`; as an effect, that it is deleted.
#[derive(Clone, Copy, Debug, PartialEq, Eq, Structural)]
pub struct GroundLiteral {
    pub fact: usize,
    pub negated: bool,
}

/// What a scheduled entry does when its time comes.
#[derive(Clone, Copy, Debug, PartialEq, Eq, Structural)]
pub enum EventKind {
    /// The fact becomes true.
    Add,
    /// The fact becomes false.
    Delete,
    /// An `over all` condition that kept the fact true ends.
    KeepTrue,
    /// An `over all` condition that kept the fact false ends.
    KeepFalse,
}

/// A pending event of a running action.
#[derive(Clone, Copy, Debug, PartialEq, Eq, Structural)]
pub struct ScheduledEffect {
    pub time: u64,
    pub fact: usize,
    pub kind: EventKind,
    pub action_id: usize,
}

/// An action whose conditions and effects are fact numbers.
#[derive(Debug)]
pub struct GroundAction {
    /// The number of the template in the task.
    pub template: usize,
    /// The name of the template.
    pub name: String,
    /// The objects that stand for the template's parameters.
    pub args: Vec<String>,
    pub duration: u64,
    pub conditions_start: Vec<GroundLiteral>,
    pub conditions_over_all: Vec<GroundLiteral>,
    pub conditions_end: Vec<GroundLiteral>,
    pub effects_start: Vec<GroundLiteral>,
    pub effects_end: Vec<GroundLiteral>,
}

pub struct GroundActionView {
    pub template: int,
    pub name: Seq<char>,
    pub args: Seq<Seq<char>>,
    pub duration: nat,
    pub conditions_start: Seq<GroundLiteral>,
    pub conditions_over_all: Seq<GroundLiteral>,
    pub conditions_end: Seq<GroundLiteral>,
    pub effects_start: Seq<GroundLiteral>,
    pub effects_end: Seq<GroundLiteral>,
}

impl View for GroundAction {
    type V = GroundActionView;

    open spec fn view(&self) -> GroundActionView {
        GroundActionView {
            template: self.template as int,
            name: self.name@,
            args: names_view(self.args@),
            duration: self.duration as nat,
            conditions_start: self.conditions_start@,
            conditions_over_all: self.conditions_over_all@,
            conditions_end: self.conditions_end@,
            effects_start: self.effects_start@,
            effects_end: self.effects_end@,
        }
    }
}

/// The literals over fact numbers that the first `n` literals become, if
/// each of them is in the fact table.
pub open spec fn resolved(table: Seq<GroundAtom>, literals: Seq<Literal>, n: int) -> Option<
    Seq<GroundLiteral>,
>
    decreases n,
{
    if n <= 0 || n > literals.len() {
        Some(Seq::empty())
    } else {
        match resolved(table, literals, n - 1) {
            None => None,
            Some(before) => {
                let at = fact_index(table, atom_of(literals[n - 1]), 0);
                if at < 0 {
                    None
                } else {
                    Some(
                        before.push(
                            GroundLiteral { fact: at as usize, negated: literals[n - 1].negated },
                        ),
                    )
                }
            },
        }
    }
}

fn resolve_conditions(table: &Vec<Fact>, conditions: &Vec<Condition>) -> (r: Option<
    Vec<GroundLiteral>,
>)
    ensures
        match resolved(view_all(table@), conditions_view(conditions@), conditions.len() as int) {
            Some(literals) => r is Some && r->0@ == literals,
            None => r is None,
        },
{
    let ghost atoms = view_all(table@);
    let ghost literals = conditions_view(conditions@);
    let mut out: Vec<GroundLiteral> = Vec::new();
    let mut i: usize = 0;
    while i < conditions.len()
        invariant
            i <= conditions.len(),
            atoms == view_all(table@),
            literals == conditions_view(conditions@),
            resolved(atoms, literals, i as int) == Some(out@),
        decreases conditions.len() - i,
    {
        assert(literals[i as int] == conditions@[i as int]@);
        match find_fact(table, &conditions[i].predicate, &conditions[i].args) {
            Some(at) => {
                out.push(GroundLiteral { fact: at, negated: conditions[i].is_negative });
            },
            None => {
                proof {
                    lemma_unresolved_persists(atoms, literals, i + 1, conditions.len() as int);
                }
                return None;
            },
        }
        i = i + 1;
    }
    Some(out)
}

pub proof fn lemma_unresolved_persists(
    table: Seq<GroundAtom>,
    literals: Seq<Literal>,
    n: int,
    m: int,
)
    requires
        0 <= n <= m <= literals.len(),
        resolved(table, literals, n) is None,
    ensures
        resolved(table, literals, m) is None,
    decreases m - n,
{
    if n < m {
        lemma_unresolved_persists(table, literals, n, m - 1);
    }
}

/// A state of the search: the facts, the agenda of pending effects, the
/// protections that running actions hold over facts, and the clock.
#[derive(Debug)]
pub struct TemporalState {
    pub classical_state: State,
    /// The effects at the end of the actions that were started, in the order
    /// in which they were scheduled.
    pub scheduled_effects: Vec<ScheduledEffect>,
    /// The conditions over all of the actions that were started, each with
    /// the time at which it ends. One that has ended forbids nothing.
    pub protections: Vec<ScheduledEffect>,
    pub time: u64,
}

pub struct TemporalStateView {
    pub facts: Seq<bool>,
    pub numeric_values: Seq<FluentView>,
    pub queue: Seq<ScheduledEffect>,
    pub protections: Seq<ScheduledEffect>,
    pub time: nat,
}

impl View for TemporalState {
    type V = TemporalStateView;

    open spec fn view(&self) -> TemporalStateView {
        TemporalStateView {
            facts: self.classical_state.facts@,
            numeric_values: view_all(self.classical_state.numeric_values@),
            queue: self.scheduled_effects@,
            protections: self.protections@,
            time: self.time as nat,
        }
    }
}

/// Whether a condition is met by the facts.
pub open spec fn holds(facts: Seq<bool>, condition: GroundLiteral) -> bool {
    condition.fact < facts.len() && facts[condition.fact as int] != condition.negated
}

pub open spec fn all_hold(facts: Seq<bool>, conditions: Seq<GroundLiteral>) -> bool {
    forall|i: int| 0 <= i < conditions.len() ==> holds(facts, #[trigger] conditions[i])
}

/// The facts after the first `n` effects have taken effect, in order.
pub open spec fn with_effects(facts: Seq<bool>, effects: Seq<GroundLiteral>, n: int) -> Seq<bool>
    decreases n,
{
    if n <= 0 || n > effects.len() {
        facts
    } else {
        let before = with_effects(facts, effects, n - 1);
        let e = effects[n - 1];
        if e.fact < before.len() {
            before.update(e.fact as int, !e.negated)
        } else {
            before
        }
    }
}

/// What an action schedules for a literal: the end of a protection for an
/// `over all` condition, a change of the fact for an effect.
pub open spec fn event_kind(literal: GroundLiteral, protect: bool) -> EventKind {
    if protect {
        if literal.negated {
            EventKind::KeepFalse
        } else {
            EventKind::KeepTrue
        }
    } else {
        if literal.negated {
            EventKind::Delete
        } else {
            EventKind::Add
        }
    }
}

/// The entries that an action schedules for its literals, one for each and
/// in their order: all at one time and under the action's number.
pub open spec fn scheduled_for(
    literals: Seq<GroundLiteral>,
    protect: bool,
    time: u64,
    action_id: usize,
) -> Seq<ScheduledEffect> {
    Seq::new(
        literals.len(),
        |k: int|
            ScheduledEffect {
                time,
                fact: literals[k].fact,
                kind: event_kind(literals[k], protect),
                action_id,
            },
    )
}

/// Whether every pending event fires after `now`.
pub open spec fn no_event_due(queue: Seq<ScheduledEffect>, now: nat) -> bool {
    forall|i: int| 0 <= i < queue.len() ==> (#[trigger] queue[i]).time > now
}

/// Whether a pending protection forbids the effect at the time `at`: it keeps
/// the fact at the value that the effect would change, and ends later.
pub open spec fn forbids(e: ScheduledEffect, effect: GroundLiteral, at: nat) -> bool {
    &&& e.fact == effect.fact
    &&& e.kind == (if effect.negated {
        EventKind::KeepTrue
    } else {
        EventKind::KeepFalse
    })
    &&& at < e.time
}

pub open spec fn effect_allowed(queue: Seq<ScheduledEffect>, effect: GroundLiteral, at: nat) -> bool {
    forall|i: int| 0 <= i < queue.len() ==> !forbids(#[trigger] queue[i], effect, at)
}

pub open spec fn effects_allowed(
    queue: Seq<ScheduledEffect>,
    effects: Seq<GroundLiteral>,
    at: nat,
) -> bool {
    forall|j: int| 0 <= j < effects.len() ==> effect_allowed(queue, #[trigger] effects[j], at)
}

/// Whether a pending event breaks the condition before `until`: it changes
/// the fact to the value that the condition excludes, and fires earlier.
pub open spec fn breaks(e: ScheduledEffect, condition: GroundLiteral, until: nat) -> bool {
    &&& e.fact == condition.fact
    &&& e.kind == (if condition.negated {
        EventKind::Add
    } else {
        EventKind::Delete
    })
    &&& e.time < until
}

pub open spec fn condition_kept(
    queue: Seq<ScheduledEffect>,
    condition: GroundLiteral,
    until: nat,
) -> bool {
    forall|i: int| 0 <= i < queue.len() ==> !breaks(#[trigger] queue[i], condition, until)
}

pub open spec fn conditions_kept(
    queue: Seq<ScheduledEffect>,
    conditions: Seq<GroundLiteral>,
    until: nat,
) -> bool {
    forall|j: int| 0 <= j < conditions.len() ==> condition_kept(queue, #[trigger] conditions[j], until)
}

/// The facts after every pending event that fires at or before `limit` has
/// taken effect, instant by instant in the order of time.
pub open spec fn facts_by(facts: Seq<bool>, queue: Seq<ScheduledEffect>, limit: nat) -> Seq<bool>
    decreases queue.len(),
{
    if queue.len() > 0 && next_time(queue) <= limit {
        proof {
            lemma_remaining_shrinks(queue);
        }
        facts_by(fired(facts, queue, next_time(queue)), remaining(queue, next_time(queue)), limit)
    } else {
        facts
    }
}

/// The facts as they will be just before `horizon`, if nothing else starts.
pub open spec fn projected(facts: Seq<bool>, queue: Seq<ScheduledEffect>, horizon: nat) -> Seq<bool> {
    if horizon == 0 {
        facts
    } else {
        facts_by(facts, queue, (horizon - 1) as nat)
    }
}

/// Whether an action can start now.
///
/// The action's end fits the clock. Its conditions at the start hold. Its
/// conditions over all hold once its effects at the start have taken place,
/// and no pending event breaks them before the action ends. None of its
/// effects changes a fact that a running action keeps. Its conditions at the
/// end hold in the facts as the pending events will have left them just
/// before it ends.
pub open spec fn applicable(state: TemporalStateView, action: GroundActionView, action_id: int) -> bool {
    let until = state.time + action.duration;
    let after = with_effects(state.facts, action.effects_start, action.effects_start.len() as int);
    &&& until <= u64::MAX
    &&& all_hold(state.facts, action.conditions_start)
    &&& all_hold(after, action.conditions_over_all)
    &&& conditions_kept(state.queue, action.conditions_over_all, until)
    &&& effects_allowed(state.protections, action.effects_start, state.time)
    &&& effects_allowed(state.protections, action.effects_end, until)
    &&& all_hold(projected(after, state.queue, until), action.conditions_end)
}

/// The state after an action has started at `start`: its effects at the
/// start have taken place; the agenda is what it was, followed by one entry
/// for each effect at the end, in their order, at `start` plus the duration;
/// the protections are what they were, followed by one for each condition
/// over all, ending at that time; and the clock is at `start`, unless it was
/// later already.
pub open spec fn applied(
    state: TemporalStateView,
    action: GroundActionView,
    action_id: usize,
    start: nat,
) -> TemporalStateView {
    let until = (start + action.duration) as u64;
    TemporalStateView {
        facts: with_effects(state.facts, action.effects_start, action.effects_start.len() as int),
        numeric_values: state.numeric_values,
        queue: state.queue + scheduled_for(action.effects_end, false, until, action_id),
        protections: state.protections + scheduled_for(
            action.conditions_over_all,
            true,
            until,
            action_id,
        ),
        time: if state.time < start {
            start
        } else {
            state.time
        },
    }
}

/// The state after the first pending instant has passed: the clock is at
/// that instant, its events have taken effect, deletions before additions,
/// and they are off the agenda. With an empty agenda nothing changes.
pub open spec fn advanced(state: TemporalStateView) -> TemporalStateView {
    let t = next_time(state.queue);
    TemporalStateView {
        facts: fired(state.facts, state.queue, t),
        numeric_values: state.numeric_values,
        queue: remaining(state.queue, t),
        protections: state.protections,
        time: if state.time < t {
            t
        } else {
            state.time
        },
    }
}

/// The state after waiting until `t`: every event that fires at or before
/// `t` has taken effect, in the order of time.
pub open spec fn waited(state: TemporalStateView, t: nat) -> TemporalStateView {
    TemporalStateView {
        facts: facts_by(state.facts, state.queue, t),
        numeric_values: state.numeric_values,
        queue: remaining(state.queue, t),
        protections: state.protections,
        time: if state.time < t {
            t
        } else {
            state.time
        },
    }
}

pub proof fn lemma_later_than_all(queue: Seq<ScheduledEffect>, t: nat, n: int)
    requires
        0 <= n <= queue.len(),
        forall|i: int| 0 <= i < n ==> (#[trigger] queue[i]).time > t,
    ensures
        later_than(queue, t, n) == queue.take(n),
    decreases n,
{
    if n > 0 {
        lemma_later_than_all(queue, t, n - 1);
        assert(queue.take(n - 1).push(queue[n - 1]) =~= queue.take(n));
    } else {
        assert(queue.take(0) =~= Seq::<ScheduledEffect>::empty());
    }
}

pub proof fn lemma_later_than_prefix(queue: Seq<ScheduledEffect>, other: Seq<ScheduledEffect>, t: nat, n: int)
    requires
        0 <= n <= queue.len(),
        n <= other.len(),
        forall|i: int| 0 <= i < n ==> queue[i] == other[i],
    ensures
        later_than(queue, t, n) == later_than(other, t, n),
    decreases n,
{
    if n > 0 {
        lemma_later_than_prefix(queue, other, t, n - 1);
    }
}

/// Dropping what fires by `a` and then what fires by `b` is dropping what
/// fires by `b`, where `a` is no later than `b`.
pub proof fn lemma_later_than_twice(queue: Seq<ScheduledEffect>, a: nat, b: nat, n: int)
    requires
        0 <= n <= queue.len(),
        a <= b,
    ensures
        remaining(later_than(queue, a, n), b) == later_than(queue, b, n),
    decreases n,
{
    if n > 0 {
        lemma_later_than_twice(queue, a, b, n - 1);
        let inner_before = later_than(queue, a, n - 1);
        let inner = later_than(queue, a, n);
        if queue[n - 1].time > a {
            assert(inner == inner_before.push(queue[n - 1]));
            lemma_later_than_prefix(inner, inner_before, b, inner_before.len() as int);
        }
    }
}

/// Waiting after the first instant has passed is waiting from before it.
pub proof fn lemma_wait_after_advance(state: TemporalStateView, t: nat)
    requires
        state.queue.len() > 0,
        next_time(state.queue) <= t,
    ensures
        waited(advanced(state), t) == waited(state, t),
{
    lemma_later_than_twice(state.queue, next_time(state.queue), t, state.queue.len() as int);
}

/// The agenda has nothing due exactly when it is empty or its first instant
/// is still to come.
pub proof fn lemma_nothing_due(queue: Seq<ScheduledEffect>, now: nat)
    ensures
        no_event_due(queue, now) <==> (queue.len() == 0 || next_time(queue) > now),
{
    if queue.len() > 0 {
        lemma_earliest_is_least(queue, queue.len() as int);
    }
}

/// Waiting while nothing is due only moves the clock.
pub proof fn lemma_wait_nothing_due(state: TemporalStateView, t: nat)
    requires
        no_event_due(state.queue, t),
    ensures
        waited(state, t) == (TemporalStateView {
            time: if state.time < t {
                t
            } else {
                state.time
            },
            ..state
        }),
{
    lemma_nothing_due(state.queue, t);
    lemma_later_than_all(state.queue, t, state.queue.len() as int);
    assert(state.queue.take(state.queue.len() as int) =~= state.queue);
}

/// Copies a run of bits.
pub fn copy_bits(bits: &Vec<bool>) -> (out: Vec<bool>)
    ensures
        out@ == bits@,
{
    let mut out: Vec<bool> = Vec::new();
    let mut i: usize = 0;
    while i < bits.len()
        invariant
            i <= bits.len(),
            out@ == bits@.take(i as int),
        decreases bits.len() - i,
    {
        out.push(bits[i]);
        assert(bits@.take(i + 1) =~= bits@.take(i as int).push(bits@[i as int]));
        i = i + 1;
    }
    assert(bits@.take(bits.len() as int) =~= bits@);
    out
}

/// Copies an agenda.
pub fn copy_queue(queue: &Vec<ScheduledEffect>) -> (out: Vec<ScheduledEffect>)
    ensures
        out@ == queue@,
{
    let mut out: Vec<ScheduledEffect> = Vec::new();
    let mut i: usize = 0;
    while i < queue.len()
        invariant
            i <= queue.len(),
            out@ == queue@.take(i as int),
        decreases queue.len() - i,
    {
        out.push(queue[i]);
        assert(queue@.take(i + 1) =~= queue@.take(i as int).push(queue@[i as int]));
        i = i + 1;
    }
    assert(queue@.take(queue.len() as int) =~= queue@);
    out
}

/// Copies the numeric fluents of a state.
pub fn copy_fluents(fluents: &Vec<NumericFluent>) -> (out: Vec<NumericFluent>)
    ensures
        view_all(out@) == view_all(fluents@),
{
    let mut out: Vec<NumericFluent> = Vec::new();
    let mut i: usize = 0;
    while i < fluents.len()
        invariant
            i <= fluents.len(),
            out.len() == i,
            forall|k: int| 0 <= k < i ==> (#[trigger] out@[k])@ == fluents@[k]@,
        decreases fluents.len() - i,
    {
        let f = &fluents[i];
        out.push(
            NumericFluent { function: f.function.clone(), args: copy_names(&f.args), value: f.value },
        );
        i = i + 1;
    }
    assert(view_all(out@) =~= view_all(fluents@));
    out
}

/// Whether a condition is met by the facts.
pub fn check_condition(facts: &Vec<bool>, condition: &GroundLiteral) -> (r: bool)
    ensures
        r == holds(facts@, *condition),
{
    condition.fact < facts.len() && facts[condition.fact] != condition.negated
}

pub fn conditions_hold(facts: &Vec<bool>, conditions: &Vec<GroundLiteral>) -> (r: bool)
    ensures
        r == all_hold(facts@, conditions@),
{
    let mut i: usize = 0;
    while i < conditions.len()
        invariant
            i <= conditions.len(),
            forall|k: int| 0 <= k < i ==> holds(facts@, #[trigger] conditions@[k]),
        decreases conditions.len() - i,
    {
        if !check_condition(facts, &conditions[i]) {
            return false;
        }
        i = i + 1;
    }
    true
}

/// Lets one effect take place.
pub fn apply_effect(facts: &mut Vec<bool>, effect: &GroundLiteral)
    ensures
        final(facts)@ == (if effect.fact < old(facts)@.len() {
            old(facts)@.update(effect.fact as int, !effect.negated)
        } else {
            old(facts)@
        }),
{
    if effect.fact < facts.len() {
        facts[effect.fact] = !effect.negated;
    }
}

pub fn apply_effects(facts: &mut Vec<bool>, effects: &Vec<GroundLiteral>)
    ensures
        final(facts)@ == with_effects(old(facts)@, effects@, effects.len() as int),
{
    let ghost start = facts@;
    let mut i: usize = 0;
    while i < effects.len()
        invariant
            i <= effects.len(),
            facts@ == with_effects(start, effects@, i as int),
        decreases effects.len() - i,
    {
        apply_effect(facts, &effects[i]);
        i = i + 1;
    }
}

fn effect_permitted(queue: &Vec<ScheduledEffect>, effect: &GroundLiteral, at: u64) -> (r: bool)
    ensures
        r == effect_allowed(queue@, *effect, at as nat),
{
    let mut i: usize = 0;
    while i < queue.len()
        invariant
            i <= queue.len(),
            forall|k: int| 0 <= k < i ==> !forbids(#[trigger] queue@[k], *effect, at as nat),
        decreases queue.len() - i,
    {
        let e = queue[i];
        let keeps = match e.kind {
            EventKind::KeepTrue => effect.negated,
            EventKind::KeepFalse => !effect.negated,
            _ => false,
        };
        if e.fact == effect.fact && keeps && at < e.time {
            assert(forbids(queue@[i as int], *effect, at as nat));
            return false;
        }
        i = i + 1;
    }
    true
}

fn effects_permitted(queue: &Vec<ScheduledEffect>, effects: &Vec<GroundLiteral>, at: u64) -> (r: bool)
    ensures
        r == effects_allowed(queue@, effects@, at as nat),
{
    let mut j: usize = 0;
    while j < effects.len()
        invariant
            j <= effects.len(),
            forall|k: int| 0 <= k < j ==> effect_allowed(queue@, #[trigger] effects@[k], at as nat),
        decreases effects.len() - j,
    {
        if !effect_permitted(queue, &effects[j], at) {
            return false;
        }
        j = j + 1;
    }
    true
}

fn condition_safe(queue: &Vec<ScheduledEffect>, condition: &GroundLiteral, until: u64) -> (r: bool)
    ensures
        r == condition_kept(queue@, *condition, until as nat),
{
    let mut i: usize = 0;
    while i < queue.len()
        invariant
            i <= queue.len(),
            forall|k: int| 0 <= k < i ==> !breaks(#[trigger] queue@[k], *condition, until as nat),
        decreases queue.len() - i,
    {
        let e = queue[i];
        let changes = match e.kind {
            EventKind::Add => condition.negated,
            EventKind::Delete => !condition.negated,
            _ => false,
        };
        if e.fact == condition.fact && changes && e.time < until {
            assert(breaks(queue@[i as int], *condition, until as nat));
            return false;
        }
        i = i + 1;
    }
    true
}

fn conditions_safe(queue: &Vec<ScheduledEffect>, conditions: &Vec<GroundLiteral>, until: u64) -> (r:
    bool)
    ensures
        r == conditions_kept(queue@, conditions@, until as nat),
{
    let mut j: usize = 0;
    while j < conditions.len()
        invariant
            j <= conditions.len(),
            forall|k: int|
                0 <= k < j ==> condition_kept(queue@, #[trigger] conditions@[k], until as nat),
        decreases conditions.len() - j,
    {
        if !condition_safe(queue, &conditions[j], until) {
            return false;
        }
        j = j + 1;
    }
    true
}

/// The facts after every pending event that fires at or before `limit` has
/// taken effect.
fn settle_facts(facts: Vec<bool>, queue: &Vec<ScheduledEffect>, limit: u64) -> (out: Vec<bool>)
    ensures
        out@ == facts_by(facts@, queue@, limit as nat),
{
    let mut out = facts;
    let mut pending = copy_queue(queue);
    while pending.len() > 0 && earliest_time(&pending) <= limit
        invariant
            facts_by(out@, pending@, limit as nat) == facts_by(facts@, queue@, limit as nat),
        decreases pending.len(),
    {
        let t = earliest_time(&pending);
        proof {
            lemma_remaining_shrinks(pending@);
        }
        fire_events(&mut out, &pending, t);
        pending = entries_after(&pending, t);
    }
    out
}

/// The facts as they will be just before `horizon`.
fn project_facts(facts: Vec<bool>, queue: &Vec<ScheduledEffect>, horizon: u64) -> (out: Vec<bool>)
    ensures
        out@ == projected(facts@, queue@, horizon as nat),
{
    if horizon == 0 {
        facts
    } else {
        settle_facts(facts, queue, horizon - 1)
    }
}

/// Puts an entry for each literal behind what the list holds.
fn schedule_events(
    queue: &mut Vec<ScheduledEffect>,
    literals: &Vec<GroundLiteral>,
    protect: bool,
    time: u64,
    action_id: usize,
)
    ensures
        final(queue)@ == old(queue)@ + scheduled_for(literals@, protect, time, action_id),
{
    let ghost start = queue@;
    let ghost all = scheduled_for(literals@, protect, time, action_id);
    assert(start + all.take(0) =~= start);
    let mut i: usize = 0;
    while i < literals.len()
        invariant
            i <= literals.len(),
            all == scheduled_for(literals@, protect, time, action_id),
            queue@ == start + all.take(i as int),
        decreases literals.len() - i,
    {
        let l = literals[i];
        let kind = if protect {
            if l.negated {
                EventKind::KeepFalse
            } else {
                EventKind::KeepTrue
            }
        } else {
            if l.negated {
                EventKind::Delete
            } else {
                EventKind::Add
            }
        };
        queue.push(ScheduledEffect { time, fact: l.fact, kind, action_id });
        assert(start + all.take(i + 1) =~= (start + all.take(i as int)).push(all[i as int]));
        i = i + 1;
    }
    assert(all.take(literals.len() as int) =~= all);
}

/// The actions that can start now among the first `n`, each with the time
/// at which it can start, in the order of their numbers.
pub open spec fn applicable_among(
    state: TemporalStateView,
    actions: Seq<GroundActionView>,
    n: int,
) -> Seq<(usize, u64)>
    decreases n,
{
    if n <= 0 || n > actions.len() {
        Seq::empty()
    } else if applicable(state, actions[n - 1], n - 1) {
        applicable_among(state, actions, n - 1).push(((n - 1) as usize, state.time as u64))
    } else {
        applicable_among(state, actions, n - 1)
    }
}

/// Whether a state is a goal: every goal condition holds, a positive one as
/// a fact that is true and a negative one as a fact that is false, and
/// nothing is pending. A goal about a fact outside the table is never met.
pub open spec fn goal_reached(state: TemporalStateView, goal: Option<Seq<GroundLiteral>>) -> bool {
    &&& goal is Some
    &&& all_hold(state.facts, goal->0)
    &&& state.queue.len() == 0
}

/// The state in which a run ends: whatever is pending has taken effect.
pub open spec fn finished(state: TemporalStateView) -> TemporalStateView {
    waited(state, u64::MAX as nat)
}

/// Whether a state ends in the goal: once whatever is pending has taken
/// effect, the state is a goal.
pub open spec fn ends_in_goal(state: TemporalStateView, goal: Option<Seq<GroundLiteral>>) -> bool {
    goal_reached(finished(state), goal)
}

/// Nothing is pending in the state in which a run ends.
pub proof fn lemma_finished_is_idle(state: TemporalStateView)
    ensures
        finished(state).queue.len() == 0,
{
    lemma_later_than_len(state.queue, u64::MAX as nat, state.queue.len() as int);
    let rest = remaining(state.queue, u64::MAX as nat);
    if rest.len() > 0 {
        assert(rest[0].time > u64::MAX);
    }
}

/// The state space of a task: its ground facts, the state it starts in, its
/// ground actions and its goal.
#[derive(Debug)]
pub struct StateSpace {
    /// The fact table: the task's own, and behind it the atoms that
    /// grounding added.
    pub facts: Vec<Fact>,
    /// The state the task starts in.
    pub initial: State,
    /// The ground actions, numbered as the search numbers them.
    pub actions: Vec<GroundAction>,
    /// The goal over fact numbers, where every goal condition is about a
    /// fact of the table.
    pub goal: Option<Vec<GroundLiteral>>,
}

/// The fact table of a task's state space: the task's own, and behind it the
/// atoms that grounding added.
pub open spec fn facts_of(task: TaskView) -> Seq<GroundAtom> {
    grounding(task, task.actions.len() as int).0
}

/// The ground actions of a task: for each template in turn, one for each of
/// its bindings.
pub open spec fn actions_of(task: TaskView) -> Seq<GroundActionView> {
    grounding(task, task.actions.len() as int).1
}

/// The state a task starts in: its initial facts, every fact that grounding
/// added false, nothing pending, the clock at zero.
pub open spec fn initial_state_of(task: TaskView) -> TemporalStateView {
    TemporalStateView {
        facts: Seq::new(
            facts_of(task).len(),
            |i: int| i < task.initial_state.facts.len() && task.initial_state.facts[i],
        ),
        numeric_values: task.initial_state.numeric_values,
        queue: Seq::empty(),
        protections: Seq::empty(),
        time: 0,
    }
}

/// The goal of a task over fact numbers, if every goal condition is about a
/// fact of the table.
pub open spec fn goal_of(task: TaskView) -> Option<Seq<GroundLiteral>> {
    resolved(facts_of(task), task.goal_conditions, task.goal_conditions.len() as int)
}

impl StateSpace {
    pub open spec fn actions_view(&self) -> Seq<GroundActionView> {
        view_all(self.actions@)
    }

    pub open spec fn goal_view(&self) -> Option<Seq<GroundLiteral>> {
        match self.goal {
            Some(g) => Some(g@),
            None => None,
        }
    }

    pub open spec fn initial_view(&self) -> TemporalStateView {
        TemporalStateView {
            facts: self.initial.facts@,
            numeric_values: view_all(self.initial.numeric_values@),
            queue: Seq::empty(),
            protections: Seq::empty(),
            time: 0,
        }
    }

    /// Builds the state space of a task.
    pub fn new(task: &TemporalTask) -> (space: StateSpace)
        ensures
            view_all(space.facts@) == facts_of(task@),
            space.initial_view() == initial_state_of(task@),
            space.actions_view() == actions_of(task@),
            space.goal_view() == goal_of(task@),
    {
        let (facts, actions) = ground_task(task);
        let goal = resolve_conditions(&facts, &task.goal_conditions);
        let given = &task.initial_state.facts;
        let mut bits: Vec<bool> = Vec::new();
        let mut i: usize = 0;
        while i < facts.len()
            invariant
                i <= facts.len(),
                given@ == task@.initial_state.facts,
                bits.len() == i,
                forall|k: int| 0 <= k < i ==> bits@[k] == (k < given.len() && given@[k]),
            decreases facts.len() - i,
        {
            bits.push(i < given.len() && given[i]);
            i = i + 1;
        }
        assert(bits@ =~= initial_state_of(task@).facts);
        let initial = State {
            facts: bits,
            numeric_values: copy_fluents(&task.initial_state.numeric_values),
        };
        StateSpace { facts, initial, actions, goal }
    }

    /// The state the task starts in.
    pub fn initial_state(&self) -> (state: TemporalState)
        ensures
            state@ == self.initial_view(),
    {
        TemporalState {
            classical_state: State {
                facts: copy_bits(&self.initial.facts),
                numeric_values: copy_fluents(&self.initial.numeric_values),
            },
            scheduled_effects: Vec::new(),
            protections: Vec::new(),
            time: 0,
        }
    }

    /// Whether an action can start now.
    pub fn is_applicable(&self, action_idx: usize, state: &TemporalState) -> (r: bool)
        requires
            action_idx < self.actions.len(),
        ensures
            r == applicable(state@, self.actions_view()[action_idx as int], action_idx as int),
    {
        let action = &self.actions[action_idx];
        let queue = &state.scheduled_effects;
        let facts = &state.classical_state.facts;
        assert(self.actions_view()[action_idx as int] == action@);
        if action.duration > u64::MAX - state.time {
            return false;
        }
        let until = state.time + action.duration;
        if !conditions_hold(facts, &action.conditions_start) {
            return false;
        }
        let mut after = copy_bits(facts);
        apply_effects(&mut after, &action.effects_start);
        if !conditions_hold(&after, &action.conditions_over_all) {
            return false;
        }
        if !conditions_safe(queue, &action.conditions_over_all, until) {
            return false;
        }
        if !effects_permitted(&state.protections, &action.effects_start, state.time) {
            return false;
        }
        if !effects_permitted(&state.protections, &action.effects_end, until) {
            return false;
        }
        let at_end = project_facts(after, queue, until);
        conditions_hold(&at_end, &action.conditions_end)
    }

    /// The actions that can start now, each with the time at which it can
    /// start, in the order of their numbers.
    pub fn get_applicable_actions(&self, state: &TemporalState) -> (found: Vec<(usize, u64)>)
        ensures
            found@ == applicable_among(state@, self.actions_view(), self.actions.len() as int),
    {
        let mut found: Vec<(usize, u64)> = Vec::new();
        let mut i: usize = 0;
        while i < self.actions.len()
            invariant
                i <= self.actions.len(),
                found@ == applicable_among(state@, self.actions_view(), i as int),
            decreases self.actions.len() - i,
        {
            if self.is_applicable(i, state) {
                found.push((i, state.time));
            }
            i = i + 1;
        }
        found
    }

    /// Starts an action at `start_time`.
    pub fn apply_action(&self, state: &TemporalState, action_idx: usize, start_time: u64) -> (next:
        TemporalState)
        requires
            action_idx < self.actions.len(),
            start_time + self.actions[action_idx as int].duration <= u64::MAX,
        ensures
            next@ == applied(
                state@,
                self.actions_view()[action_idx as int],
                action_idx,
                start_time as nat,
            ),
    {
        let action = &self.actions[action_idx];
        assert(self.actions_view()[action_idx as int] == action@);
        let mut facts = copy_bits(&state.classical_state.facts);
        apply_effects(&mut facts, &action.effects_start);
        let until = start_time + action.duration;
        let mut queue = copy_queue(&state.scheduled_effects);
        let mut protections = copy_queue(&state.protections);
        schedule_events(&mut queue, &action.effects_end, false, until, action_idx);
        schedule_events(&mut protections, &action.conditions_over_all, true, until, action_idx);
        TemporalState {
            classical_state: State {
                facts,
                numeric_values: copy_fluents(&state.classical_state.numeric_values),
            },
            scheduled_effects: queue,
            protections,
            time: if state.time < start_time {
                start_time
            } else {
                state.time
            },
        }
    }

    /// Lets the first pending instant pass.
    pub fn advance_time(&self, state: &TemporalState) -> (next: TemporalState)
        ensures
            next@ == advanced(state@),
    {
        let mut facts = copy_bits(&state.classical_state.facts);
        let numeric_values = copy_fluents(&state.classical_state.numeric_values);
        if state.scheduled_effects.len() == 0 {
            return TemporalState {
                classical_state: State { facts, numeric_values },
                scheduled_effects: Vec::new(),
                protections: copy_queue(&state.protections),
                time: state.time,
            };
        }
        let t = earliest_time(&state.scheduled_effects);
        fire_events(&mut facts, &state.scheduled_effects, t);
        let queue = entries_after(&state.scheduled_effects, t);
        TemporalState {
            classical_state: State { facts, numeric_values },
            scheduled_effects: queue,
            protections: copy_queue(&state.protections),
            time: if state.time < t {
                t
            } else {
                state.time
            },
        }
    }

    /// Whether a state is a goal.
    pub fn is_goal(&self, state: &TemporalState) -> (r: bool)
        ensures
            r == goal_reached(state@, self.goal_view()),
    {
        match &self.goal {
            None => false,
            Some(goal) => state.scheduled_effects.len() == 0 && conditions_hold(
                &state.classical_state.facts,
                goal,
            ),
        }
    }

    /// Whether a state ends in the goal, once whatever is pending has taken
    /// effect.
    pub fn ends_in_goal(&self, state: &TemporalState) -> (r: bool)
        ensures
            r == ends_in_goal(state@, self.goal_view()),
    {
        proof {
            lemma_finished_is_idle(state@);
        }
        match &self.goal {
            None => false,
            Some(goal) => {
                let facts = settle_facts(
                    copy_bits(&state.classical_state.facts),
                    &state.scheduled_effects,
                    u64::MAX,
                );
                conditions_hold(&facts, goal)
            },
        }
    }
}

/// The end of an action that can start fits the clock.
pub proof fn lemma_applicable_is_ready(
    state: TemporalStateView,
    action: GroundActionView,
    action_id: int,
)
    requires
        applicable(state, action, action_id),
    ensures
        state.time + action.duration <= u64::MAX,
{
}

/// Whether nothing that is pending in a state is due.
pub fn nothing_due(state: &TemporalState) -> (r: bool)
    ensures
        r == no_event_due(state@.queue, state@.time),
{
    proof {
        lemma_nothing_due(state.scheduled_effects@, state.time as nat);
    }
    state.scheduled_effects.len() == 0 || earliest_time(&state.scheduled_effects) > state.time
}

} // verus!
