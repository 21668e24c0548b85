//! The textual form of a plan: one line for each step,
//! `start-time : action-name(arg,...) [duration]`, in the order of the start
//! times and, among equal ones, of the actions' numbers.

use vstd::prelude::*;
use crate::plan::{Plan, PlanStep};
use crate::state_space::{GroundAction, GroundActionView, StateSpace};
use crate::text::{chars_of, names_view, string_of};

verus! {

/// The character of a digit.
pub open spec fn digit_char(d: nat) -> char {
    (('0' as u8) + (d % 10) as u8) as char
}

fn digit_of(d: u64) -> (c: char)
    requires
        d < 10,
    ensures
        c == digit_char(d as nat),
{
    ((('0' as u8) + (d as u8)) as char)
}

/// The decimal digits of a number, without leading zeros.
pub open spec fn digits_of(n: nat) -> Seq<char>
    decreases n,
{
    if n < 10 {
        seq![digit_char(n)]
    } else {
        digits_of(n / 10).push(digit_char(n % 10))
    }
}

/// The last `places` decimal digits of a number, with leading zeros.
pub open spec fn padded(n: nat, places: nat) -> Seq<char>
    decreases places,
{
    if places == 0 {
        Seq::empty()
    } else {
        padded(n / 10, (places - 1) as nat).push(digit_char(n % 10))
    }
}

/// The digits without their trailing zeros, but for the first digit.
pub open spec fn trimmed(digits: Seq<char>) -> Seq<char>
    decreases digits.len(),
{
    if digits.len() > 1 && digits.last() == '0' {
        trimmed(digits.drop_last())
    } else {
        digits
    }
}

/// A start time in time units, with three decimals; what is beyond them is
/// cut off.
pub open spec fn start_text(ticks: u64) -> Seq<char> {
    digits_of((ticks / 1_000_000) as nat) + seq!['.'] + padded(
        ((ticks % 1_000_000) / 1_000) as nat,
        3,
    )
}

/// A duration in time units, with as many decimals as it needs and at least
/// one.
pub open spec fn duration_text(ticks: u64) -> Seq<char> {
    digits_of((ticks / 1_000_000) as nat) + seq!['.'] + trimmed(
        padded((ticks % 1_000_000) as nat, 6),
    )
}

fn number_digits(n: u64) -> (out: Vec<char>)
    ensures
        out@ == digits_of(n as nat),
    decreases n,
{
    if n < 10 {
        let mut out: Vec<char> = Vec::new();
        out.push(digit_of(n));
        out
    } else {
        let mut out = number_digits(n / 10);
        out.push(digit_of(n % 10));
        out
    }
}

fn padded_digits(n: u64, places: usize) -> (out: Vec<char>)
    ensures
        out@ == padded(n as nat, places as nat),
    decreases places,
{
    if places == 0 {
        Vec::new()
    } else {
        let mut out = padded_digits(n / 10, places - 1);
        out.push(digit_of(n % 10));
        out
    }
}

fn trim_zeros(digits: Vec<char>) -> (out: Vec<char>)
    ensures
        out@ == trimmed(digits@),
{
    let mut out = digits;
    while out.len() > 1 && out[out.len() - 1] == '0'
        invariant
            trimmed(out@) == trimmed(digits@),
        decreases out.len(),
    {
        out.pop();
    }
    out
}

fn append_chars(out: &mut Vec<char>, more: &Vec<char>)
    ensures
        final(out)@ == old(out)@ + more@,
{
    let ghost start = out@;
    let mut i: usize = 0;
    while i < more.len()
        invariant
            i <= more.len(),
            out@ == start + more@.take(i as int),
        decreases more.len() - i,
    {
        out.push(more[i]);
        assert(start + more@.take(i + 1) =~= (start + more@.take(i as int)).push(more@[i as int]));
        i = i + 1;
    }
    assert(more@.take(more.len() as int) =~= more@);
}

/// Writes a start time.
pub fn write_start(ticks: u64) -> (out: Vec<char>)
    ensures
        out@ == start_text(ticks),
{
    let mut out = number_digits(ticks / 1_000_000);
    out.push('.');
    let fraction = padded_digits((ticks % 1_000_000) / 1_000, 3);
    append_chars(&mut out, &fraction);
    out
}

/// Writes a duration.
pub fn write_duration(ticks: u64) -> (out: Vec<char>)
    ensures
        out@ == duration_text(ticks),
{
    let mut out = number_digits(ticks / 1_000_000);
    out.push('.');
    let fraction = trim_zeros(padded_digits(ticks % 1_000_000, 6));
    append_chars(&mut out, &fraction);
    out
}

/// The first `n` names with a comma between every two.
pub open spec fn joined(names: Seq<Seq<char>>, n: int) -> Seq<char>
    decreases n,
{
    if n <= 0 || n > names.len() {
        Seq::empty()
    } else if n == 1 {
        names[0]
    } else {
        joined(names, n - 1) + seq![','] + names[n - 1]
    }
}

/// The line of a step: `start-time : action-name(arg,...) [duration]`.
pub open spec fn step_line(action: GroundActionView, start_time: u64) -> Seq<char> {
    start_text(start_time) + seq![' ', ':', ' '] + action.name + seq!['('] + joined(
        action.args,
        action.args.len() as int,
    ) + seq![')', ' ', '['] + duration_text(action.duration as u64) + seq![']']
}

/// Writes the line of a step.
pub fn write_step(action: &GroundAction, start_time: u64) -> (line: String)
    ensures
        line@ == step_line(action@, start_time),
{
    let mut out = write_start(start_time);
    out.push(' ');
    out.push(':');
    out.push(' ');
    let name = chars_of(action.name.as_str());
    append_chars(&mut out, &name);
    out.push('(');
    let ghost head = out@;
    let ghost names = names_view(action.args@);
    let mut i: usize = 0;
    proof {
        assert(head + joined(names, 0) =~= head);
    }
    while i < action.args.len()
        invariant
            i <= action.args.len(),
            names == names_view(action.args@),
            out@ == head + joined(names, i as int),
        decreases action.args.len() - i,
    {
        let ghost before = out@;
        if i > 0 {
            out.push(',');
        }
        let arg = chars_of(action.args[i].as_str());
        assert(arg@ == names[i as int]);
        append_chars(&mut out, &arg);
        proof {
            if i > 0 {
                assert(out@ =~= head + (joined(names, i as int) + seq![','] + names[i as int]));
            } else {
                assert(out@ =~= head + names[0]);
            }
        }
        i = i + 1;
    }
    out.push(')');
    out.push(' ');
    out.push('[');
    let duration = write_duration(action.duration);
    append_chars(&mut out, &duration);
    out.push(']');
    proof {
        assert(out@ =~= step_line(action@, start_time));
    }
    string_of(&out)
}

/// Whether `a` is printed no later than `b`: by start time, then by the
/// action's number.
pub open spec fn printed_before(a: PlanStep, b: PlanStep) -> bool {
    a.start_time < b.start_time || (a.start_time == b.start_time && a.action <= b.action)
}

/// The place at or after `from` where a step goes among ordered steps:
/// behind every step that is printed no later than it.
pub open spec fn step_position(steps: Seq<PlanStep>, step: PlanStep, from: int) -> int
    decreases steps.len() - from,
{
    if from < 0 || from >= steps.len() {
        steps.len() as int
    } else if printed_before(steps[from], step) {
        step_position(steps, step, from + 1)
    } else {
        from
    }
}

/// The first `n` steps in the order in which they are printed.
pub open spec fn print_order(steps: Seq<PlanStep>, n: int) -> Seq<PlanStep>
    decreases n,
{
    if n <= 0 || n > steps.len() {
        Seq::empty()
    } else {
        let before = print_order(steps, n - 1);
        before.insert(step_position(before, steps[n - 1], 0), steps[n - 1])
    }
}

/// Whether every step is printed no later than the steps behind it.
pub open spec fn in_print_order(steps: Seq<PlanStep>) -> bool {
    forall|i: int, j: int|
        0 <= i < j < steps.len() ==> printed_before(#[trigger] steps[i], #[trigger] steps[j])
}

pub proof fn lemma_step_position(steps: Seq<PlanStep>, step: PlanStep, from: int)
    requires
        0 <= from <= steps.len(),
        in_print_order(steps),
    ensures
        from <= step_position(steps, step, from) <= steps.len(),
        forall|i: int| from <= i < step_position(steps, step, from) ==> printed_before(
            #[trigger] steps[i],
            step,
        ),
        forall|i: int|
            step_position(steps, step, from) <= i < steps.len() ==> printed_before(
                step,
                #[trigger] steps[i],
            ),
    decreases steps.len() - from,
{
    if from < steps.len() {
        if printed_before(steps[from], step) {
            lemma_step_position(steps, step, from + 1);
        } else {
            assert forall|i: int| from <= i < steps.len() implies printed_before(
                step,
                #[trigger] steps[i],
            ) by {
                if i > from {
                    assert(printed_before(steps[from], steps[i]));
                }
            }
        }
    }
}

/// The steps in print order are the given steps, each as often as given,
/// and every step is printed no later than the steps behind it.
pub proof fn lemma_print_order(steps: Seq<PlanStep>, n: int)
    requires
        0 <= n <= steps.len(),
    ensures
        in_print_order(print_order(steps, n)),
        print_order(steps, n).len() == n,
        print_order(steps, n).to_multiset() =~= steps.take(n).to_multiset(),
    decreases n,
{
    if n > 0 {
        lemma_print_order(steps, n - 1);
        let before = print_order(steps, n - 1);
        let step = steps[n - 1];
        let at = step_position(before, step, 0);
        lemma_step_position(before, step, 0);
        let after = before.insert(at, step);
        assert forall|i: int, j: int| 0 <= i < j < after.len() implies printed_before(
            #[trigger] after[i],
            #[trigger] after[j],
        ) by {
            let a = if i < at {
                i
            } else {
                i - 1
            };
            let b = if j < at {
                j
            } else {
                j - 1
            };
            if i != at && j != at {
                assert(printed_before(before[a], before[b]));
            } else if i == at {
                assert(printed_before(step, before[b]));
            } else {
                assert(printed_before(before[a], step));
            }
        }
        vstd::seq_lib::to_multiset_insert(before, at, step);
        assert(steps.take(n) =~= steps.take(n - 1).push(step));
        steps.take(n - 1).to_multiset_ensures();
    } else {
        assert(steps.take(0) =~= Seq::<PlanStep>::empty());
    }
}

/// Puts the steps of a plan in the order in which they are printed.
pub fn order_steps(plan: &Plan) -> (ordered: Vec<PlanStep>)
    requires
        plan.wf(),
    ensures
        ordered@ == print_order(plan.steps(), plan.actions.len() as int),
{
    let ghost steps = plan.steps();
    let mut ordered: Vec<PlanStep> = Vec::new();
    let mut n: usize = 0;
    while n < plan.actions.len()
        invariant
            n <= plan.actions.len(),
            plan.wf(),
            steps == plan.steps(),
            ordered@ == print_order(steps, n as int),
        decreases plan.actions.len() - n,
    {
        let step = PlanStep { action: plan.actions[n], start_time: plan.start_times[n] };
        assert(steps[n as int] == step);
        let mut at: usize = 0;
        while at < ordered.len() && (ordered[at].start_time < step.start_time || (
        ordered[at].start_time == step.start_time && ordered[at].action <= step.action))
            invariant
                at <= ordered.len(),
                step_position(ordered@, step, 0) == step_position(ordered@, step, at as int),
            decreases ordered.len() - at,
        {
            at = at + 1;
        }
        ordered.insert(at, step);
        n = n + 1;
    }
    ordered
}

/// The lines of the first `n` steps.
pub open spec fn lines_of(actions: Seq<GroundActionView>, ordered: Seq<PlanStep>, n: int) -> Seq<
    Seq<char>,
>
    decreases n,
{
    if n <= 0 || n > ordered.len() {
        Seq::empty()
    } else {
        lines_of(actions, ordered, n - 1).push(
            step_line(actions[ordered[n - 1].action as int], ordered[n - 1].start_time),
        )
    }
}

/// Whether every step of a plan is an action of the state space.
pub open spec fn steps_known(actions: Seq<GroundActionView>, steps: Seq<PlanStep>) -> bool {
    forall|i: int| 0 <= i < steps.len() ==> (#[trigger] steps[i]).action < actions.len()
}

/// The text of a plan: the lines of its steps in print order. A plan with a
/// step that is no action of the state space has no text.
pub open spec fn plan_text(actions: Seq<GroundActionView>, steps: Seq<PlanStep>) -> Option<
    Seq<Seq<char>>,
> {
    if steps_known(actions, steps) {
        Some(lines_of(actions, print_order(steps, steps.len() as int), steps.len() as int))
    } else {
        None
    }
}

/// Every step in print order is one of the given steps.
proof fn lemma_print_order_members(steps: Seq<PlanStep>, n: int)
    requires
        0 <= n <= steps.len(),
    ensures
        forall|k: int|
            0 <= k < print_order(steps, n).len() ==> exists|i: int|
                0 <= i < n && steps[i] == #[trigger] print_order(steps, n)[k],
    decreases n,
{
    if n > 0 {
        lemma_print_order_members(steps, n - 1);
        lemma_print_order(steps, n - 1);
        let before = print_order(steps, n - 1);
        let step = steps[n - 1];
        let at = step_position(before, step, 0);
        lemma_step_position(before, step, 0);
        let after = before.insert(at, step);
        assert forall|k: int| 0 <= k < after.len() implies exists|i: int|
            0 <= i < n && steps[i] == #[trigger] after[k] by {
            if k == at {
                assert(steps[n - 1] == after[k]);
            } else {
                let b = if k < at {
                    k
                } else {
                    k - 1
                };
                let i = choose|i: int| 0 <= i < n - 1 && steps[i] == before[b];
                assert(steps[i] == after[k]);
            }
        }
    }
}

/// Writes a plan, one line for each step.
pub fn format_plan(plan: &Plan, space: &StateSpace) -> (lines: Option<Vec<String>>)
    requires
        plan.wf(),
    ensures
        match plan_text(space.actions_view(), plan.steps()) {
            Some(text) => lines is Some && names_view(lines->0@) == text,
            None => lines is None,
        },
{
    let ghost actions = space.actions_view();
    let ghost steps = plan.steps();
    let mut i: usize = 0;
    while i < plan.actions.len()
        invariant
            i <= plan.actions.len(),
            plan.wf(),
            steps == plan.steps(),
            actions == space.actions_view(),
            forall|k: int| 0 <= k < i ==> (#[trigger] steps[k]).action < actions.len(),
        decreases plan.actions.len() - i,
    {
        if plan.actions[i] >= space.actions.len() {
            assert(steps[i as int].action >= actions.len());
            return None;
        }
        i = i + 1;
    }
    let ordered = order_steps(plan);
    proof {
        lemma_print_order(steps, steps.len() as int);
        lemma_print_order_members(steps, steps.len() as int);
    }
    let mut lines: Vec<String> = Vec::new();
    proof {
        assert(names_view(lines@) =~= Seq::<Seq<char>>::empty());
    }
    let mut n: usize = 0;
    while n < ordered.len()
        invariant
            n <= ordered.len(),
            actions == space.actions_view(),
            forall|k: int| 0 <= k < ordered.len() ==> (#[trigger] ordered@[k]).action < actions.len(),
            names_view(lines@) == lines_of(actions, ordered@, n as int),
        decreases ordered.len() - n,
    {
        let step = ordered[n];
        assert(actions[step.action as int] == space.actions@[step.action as int]@);
        let line = write_step(&space.actions[step.action], step.start_time);
        let ghost before = lines@;
        lines.push(line);
        proof {
            assert(names_view(lines@) =~= names_view(before).push(line@));
        }
        n = n + 1;
    }
    Some(lines)
}

} // verus!
