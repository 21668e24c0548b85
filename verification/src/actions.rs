//! From the actions a domain declares to action templates: literals are
//! checked against the predicate table, conditions and effects are sorted by
//! phase, and durations are settled.

use vstd::prelude::*;
use crate::domain::{
    DEFAULT_DURATION, PDDLAction, PDDLDuration, RawAction, keyword_value, raw_action_of,
};
use crate::error::{ErrorKind, Fault, PlannerError, Warning, WarningView, fault_about};
use crate::formula::{Relation, duration_constant, relation_of};
use crate::sexpr::Tree;
use crate::temporal_task::{
    ActionView, Condition, Effect, Literal, PDDLPredicate, Phase, PredicateView, TemporalAction,
    condition_literals, conditions_view, copy_parameters, effect_literals, effects_view,
    extract_conditions_from_formula, extract_effects_from_formula, extract_temporal_conditions,
    extract_temporal_effects, phase_conditions, phase_effects, lemma_conditions_partitioned,
    lemma_effects_partitioned,
};
use crate::text::{names_match, same_symbol, view_all, lemma_view_all_empty, lemma_view_all_push};

verus! {

/// The place of the first predicate at or after `from` with the given name
/// and as many parameters as `arity`, or -1 if there is none.
pub open spec fn predicate_index(
    predicates: Seq<PredicateView>,
    name: Seq<char>,
    arity: int,
    from: int,
) -> int
    decreases predicates.len() - from,
{
    if from < 0 || from >= predicates.len() {
        -1
    } else if same_symbol(predicates[from].name, name) && predicates[from].parameters.len()
        == arity {
        from
    } else {
        predicate_index(predicates, name, arity, from + 1)
    }
}

/// Whether the predicate table declares a predicate of that name and arity.
pub open spec fn is_declared(predicates: Seq<PredicateView>, name: Seq<char>, arity: int) -> bool {
    predicate_index(predicates, name, arity, 0) >= 0
}

/// Finds the number of the predicate that an atom applies.
pub fn find_predicate_index(predicates: &Vec<PDDLPredicate>, name: &String, args: &Vec<String>) -> (r:
    Option<usize>)
    ensures
        match r {
            Some(i) => i == predicate_index(view_all(predicates@), name@, args.len() as int, 0)
                && i < predicates.len(),
            None => !is_declared(view_all(predicates@), name@, args.len() as int),
        },
{
    let ghost table = view_all(predicates@);
    let mut i: usize = 0;
    while i < predicates.len()
        invariant
            i <= predicates.len(),
            table == view_all(predicates@),
            predicate_index(table, name@, args.len() as int, 0) == predicate_index(
                table,
                name@,
                args.len() as int,
                i as int,
            ),
        decreases predicates.len() - i,
    {
        assert(table[i as int] == predicates@[i as int]@);
        if predicates[i].parameters.len() == args.len() && names_match(&predicates[i].name, name) {
            return Some(i);
        }
        i = i + 1;
    }
    None
}

/// The predicate name of the first literal among the first `n` that applies
/// an undeclared predicate, if there is one.
pub open spec fn undeclared_in(literals: Seq<Literal>, predicates: Seq<PredicateView>, n: int) -> Option<
    Seq<char>,
>
    decreases n,
{
    if n <= 0 || n > literals.len() {
        None
    } else {
        match undeclared_in(literals, predicates, n - 1) {
            Some(name) => Some(name),
            None => if is_declared(
                predicates,
                literals[n - 1].predicate,
                literals[n - 1].args.len() as int,
            ) {
                None
            } else {
                Some(literals[n - 1].predicate)
            },
        }
    }
}

pub proof fn lemma_undeclared_persists(
    literals: Seq<Literal>,
    predicates: Seq<PredicateView>,
    n: int,
    m: int,
)
    requires
        0 <= n <= m <= literals.len(),
        undeclared_in(literals, predicates, n) is Some,
    ensures
        undeclared_in(literals, predicates, m) == undeclared_in(literals, predicates, n),
    decreases m - n,
{
    if n < m {
        lemma_undeclared_persists(literals, predicates, n, m - 1);
    }
}

/// Checks conditions against the predicate table.
pub fn check_conditions_declared(conditions: &Vec<Condition>, predicates: &Vec<PDDLPredicate>) -> (r:
    Result<(), PlannerError>)
    ensures
        match undeclared_in(
            conditions_view(conditions@),
            view_all(predicates@),
            conditions.len() as int,
        ) {
            None => r is Ok,
            Some(name) => r is Err && r->Err_0@ == fault_about(ErrorKind::UnknownSymbol, name),
        },
{
    let ghost literals = conditions_view(conditions@);
    let mut i: usize = 0;
    while i < conditions.len()
        invariant
            i <= conditions.len(),
            literals == conditions_view(conditions@),
            undeclared_in(literals, view_all(predicates@), i as int) is None,
        decreases conditions.len() - i,
    {
        assert(literals[i as int] == conditions@[i as int]@);
        let c = &conditions[i];
        if find_predicate_index(predicates, &c.predicate, &c.args).is_none() {
            proof {
                lemma_undeclared_persists(
                    literals,
                    view_all(predicates@),
                    i + 1,
                    conditions.len() as int,
                );
            }
            return Err(PlannerError::about(ErrorKind::UnknownSymbol, c.predicate.clone()));
        }
        i = i + 1;
    }
    Ok(())
}

/// Checks effects against the predicate table.
pub fn check_effects_declared(effects: &Vec<Effect>, predicates: &Vec<PDDLPredicate>) -> (r: Result<
    (),
    PlannerError,
>)
    ensures
        match undeclared_in(effects_view(effects@), view_all(predicates@), effects.len() as int) {
            None => r is Ok,
            Some(name) => r is Err && r->Err_0@ == fault_about(ErrorKind::UnknownSymbol, name),
        },
{
    let ghost literals = effects_view(effects@);
    let mut i: usize = 0;
    while i < effects.len()
        invariant
            i <= effects.len(),
            literals == effects_view(effects@),
            undeclared_in(literals, view_all(predicates@), i as int) is None,
        decreases effects.len() - i,
    {
        assert(literals[i as int] == effects@[i as int]@);
        let e = &effects[i];
        if find_predicate_index(predicates, &e.predicate, &e.args).is_none() {
            proof {
                lemma_undeclared_persists(
                    literals,
                    view_all(predicates@),
                    i + 1,
                    effects.len() as int,
                );
            }
            return Err(PlannerError::about(ErrorKind::UnknownSymbol, e.predicate.clone()));
        }
        i = i + 1;
    }
    Ok(())
}

/// All conditions an action lists, whatever their phase.
pub open spec fn raw_conditions(raw: RawAction) -> Seq<Literal> {
    match raw.precondition {
        Some(f) => condition_literals(f),
        None => Seq::empty(),
    }
}

/// All effects an action lists, whatever their phase.
pub open spec fn raw_effects(raw: RawAction) -> Seq<Literal> {
    match raw.effect {
        Some(f) => effect_literals(f),
        None => Seq::empty(),
    }
}

/// The conditions of an action that belong to one phase. Those of an action
/// that is not durative all belong to the start.
pub open spec fn conditions_at(raw: RawAction, phase: Phase) -> Seq<Literal> {
    if raw.is_durative {
        match raw.precondition {
            Some(f) => phase_conditions(f, phase),
            None => Seq::empty(),
        }
    } else if phase == Phase::Start {
        raw_conditions(raw)
    } else {
        Seq::empty()
    }
}

/// The effects of an action that belong to one phase. Those of an action that
/// is not durative all belong to the end.
pub open spec fn effects_at(raw: RawAction, phase: Phase) -> Seq<Literal> {
    if raw.is_durative {
        match raw.effect {
            Some(f) => phase_effects(f, phase),
            None => Seq::empty(),
        }
    } else if phase == Phase::End {
        raw_effects(raw)
    } else {
        Seq::empty()
    }
}

/// The duration of an action in ticks: for a durative action the constant
/// it states, or the default where it states none; for an action that is not
/// durative the default, whatever it was handed over with.
pub open spec fn settled_duration(raw: RawAction) -> nat {
    match raw.duration {
        Some(PDDLDuration::Fixed(c)) => if raw.is_durative {
            c as nat
        } else {
            DEFAULT_DURATION as nat
        },
        _ => DEFAULT_DURATION as nat,
    }
}

/// The template of an action, or the fault of the first literal, conditions
/// before effects, that applies an undeclared predicate.
pub open spec fn converted(raw: RawAction, predicates: Seq<PredicateView>) -> Result<
    ActionView,
    Fault,
> {
    match undeclared_in(raw_conditions(raw), predicates, raw_conditions(raw).len() as int) {
        Some(name) => Err(fault_about(ErrorKind::UnknownSymbol, name)),
        None => match undeclared_in(raw_effects(raw), predicates, raw_effects(raw).len() as int) {
            Some(name) => Err(fault_about(ErrorKind::UnknownSymbol, name)),
            None => Ok(
                ActionView {
                    name: raw.name,
                    parameters: raw.parameters,
                    duration: settled_duration(raw),
                    conditions_start: conditions_at(raw, Phase::Start),
                    conditions_over_all: conditions_at(raw, Phase::OverAll),
                    conditions_end: conditions_at(raw, Phase::End),
                    effects_start: effects_at(raw, Phase::Start),
                    effects_end: effects_at(raw, Phase::End),
                },
            ),
        },
    }
}

/// The templates of the first `n` actions.
pub open spec fn converted_all(raws: Seq<RawAction>, predicates: Seq<PredicateView>, n: int) -> Result<
    Seq<ActionView>,
    Fault,
>
    decreases n,
{
    if n <= 0 || n > raws.len() {
        Ok(Seq::empty())
    } else {
        match converted_all(raws, predicates, n - 1) {
            Err(f) => Err(f),
            Ok(actions) => match converted(raws[n - 1], predicates) {
                Ok(a) => Ok(actions.push(a)),
                Err(f) => Err(f),
            },
        }
    }
}

pub proof fn lemma_converted_fault_persists(
    raws: Seq<RawAction>,
    predicates: Seq<PredicateView>,
    n: int,
    m: int,
)
    requires
        0 <= n <= m <= raws.len(),
        converted_all(raws, predicates, n) is Err,
    ensures
        converted_all(raws, predicates, m) == converted_all(raws, predicates, n),
    decreases m - n,
{
    if n < m {
        lemma_converted_fault_persists(raws, predicates, n, m - 1);
    }
}

/// Conversion keeps the number of actions.
pub proof fn lemma_converted_count(raws: Seq<RawAction>, predicates: Seq<PredicateView>, n: int)
    requires
        0 <= n <= raws.len(),
        converted_all(raws, predicates, n) is Ok,
    ensures
        converted_all(raws, predicates, n)->Ok_0.len() == n,
    decreases n,
{
    if n > 0 {
        lemma_converted_count(raws, predicates, n - 1);
    }
}

fn convert_action(action: &PDDLAction, predicates: &Vec<PDDLPredicate>) -> (r: Result<
    TemporalAction,
    PlannerError,
>)
    ensures
        match converted(action@, view_all(predicates@)) {
            Ok(a) => r is Ok && r->Ok_0@ == a,
            Err(f) => r is Err && r->Err_0@ == f,
        },
{
    let all_conditions = match &action.precondition {
        Some(f) => extract_conditions_from_formula(f),
        None => Vec::new(),
    };
    let all_effects = match &action.effect {
        Some(f) => extract_effects_from_formula(f),
        None => Vec::new(),
    };
    proof {
        assert(conditions_view(Seq::<Condition>::empty()) =~= Seq::<Literal>::empty());
        assert(effects_view(Seq::<Effect>::empty()) =~= Seq::<Literal>::empty());
    }
    match check_conditions_declared(&all_conditions, predicates) {
        Ok(()) => {},
        Err(e) => {
            return Err(e);
        },
    }
    match check_effects_declared(&all_effects, predicates) {
        Ok(()) => {},
        Err(e) => {
            return Err(e);
        },
    }
    let duration = match action.duration {
        Some(PDDLDuration::Fixed(d)) => if action.is_durative {
            d
        } else {
            DEFAULT_DURATION
        },
        _ => DEFAULT_DURATION,
    };
    if action.is_durative {
        let (conditions_start, conditions_over_all, conditions_end) = match &action.precondition {
            Some(f) => extract_temporal_conditions(f),
            None => (Vec::new(), Vec::new(), Vec::new()),
        };
        let (effects_start, effects_end) = match &action.effect {
            Some(f) => extract_temporal_effects(f),
            None => (Vec::new(), Vec::new()),
        };
        Ok(
            TemporalAction {
                name: action.name.clone(),
                parameters: copy_parameters(&action.parameters),
                duration,
                conditions_start,
                conditions_over_all,
                conditions_end,
                effects_start,
                effects_end,
            },
        )
    } else {
        Ok(
            TemporalAction {
                name: action.name.clone(),
                parameters: copy_parameters(&action.parameters),
                duration,
                conditions_start: all_conditions,
                conditions_over_all: Vec::new(),
                conditions_end: Vec::new(),
                effects_start: Vec::new(),
                effects_end: all_effects,
            },
        )
    }
}

/// Turns the actions a domain declares into action templates.
pub fn convert_pddl_actions(pddl_actions: &Vec<PDDLAction>, predicates: &Vec<PDDLPredicate>) -> (r:
    Result<Vec<TemporalAction>, PlannerError>)
    ensures
        match converted_all(view_all(pddl_actions@), view_all(predicates@), pddl_actions.len() as int) {
            Ok(actions) => r is Ok && view_all(r->Ok_0@) == actions,
            Err(f) => r is Err && r->Err_0@ == f,
        },
{
    let ghost raws = view_all(pddl_actions@);
    let mut actions: Vec<TemporalAction> = Vec::new();
    proof {
        lemma_view_all_empty::<TemporalAction>();
    }
    let mut i: usize = 0;
    while i < pddl_actions.len()
        invariant
            i <= pddl_actions.len(),
            raws == view_all(pddl_actions@),
            converted_all(raws, view_all(predicates@), i as int) == Ok::<Seq<ActionView>, Fault>(
                view_all(actions@),
            ),
        decreases pddl_actions.len() - i,
    {
        assert(raws[i as int] == pddl_actions@[i as int]@);
        match convert_action(&pddl_actions[i], predicates) {
            Ok(a) => {
                proof {
                    lemma_view_all_push(actions@, a);
                }
                actions.push(a);
            },
            Err(e) => {
                proof {
                    lemma_converted_fault_persists(
                        raws,
                        view_all(predicates@),
                        i + 1,
                        pddl_actions.len() as int,
                    );
                }
                return Err(e);
            },
        }
        i = i + 1;
    }
    Ok(actions)
}

/// The warnings that the first `n` actions raise: one for each durative action
/// whose duration is not a constant, with the action's name and number.
pub open spec fn duration_warnings(raws: Seq<RawAction>, n: int) -> Seq<WarningView>
    decreases n,
{
    if n <= 0 || n > raws.len() {
        Seq::empty()
    } else if raws[n - 1].duration == Some(PDDLDuration::Unsupported) {
        duration_warnings(raws, n - 1).push(
            WarningView {
                kind: ErrorKind::UnsupportedDurationExpression,
                action: raws[n - 1].name,
                action_index: n - 1,
            },
        )
    } else {
        duration_warnings(raws, n - 1)
    }
}

/// Collects the warnings that the actions of a domain raise.
pub fn collect_duration_warnings(pddl_actions: &Vec<PDDLAction>) -> (warnings: Vec<Warning>)
    ensures
        view_all(warnings@) == duration_warnings(
            view_all(pddl_actions@),
            pddl_actions.len() as int,
        ),
{
    let ghost raws = view_all(pddl_actions@);
    let mut warnings: Vec<Warning> = Vec::new();
    proof {
        lemma_view_all_empty::<Warning>();
    }
    let mut i: usize = 0;
    while i < pddl_actions.len()
        invariant
            i <= pddl_actions.len(),
            raws == view_all(pddl_actions@),
            view_all(warnings@) == duration_warnings(raws, i as int),
        decreases pddl_actions.len() - i,
    {
        assert(raws[i as int] == pddl_actions@[i as int]@);
        match pddl_actions[i].duration {
            Some(PDDLDuration::Unsupported) => {
                let w = Warning {
                    kind: ErrorKind::UnsupportedDurationExpression,
                    action: pddl_actions[i].name.clone(),
                    action_index: i,
                };
                proof {
                    lemma_view_all_push(warnings@, w);
                }
                warnings.push(w);
            },
            _ => {},
        }
        i = i + 1;
    }
    warnings
}

/// Whether the duration of an action block has the shape `(= ?duration c)`
/// with a decimal literal `c`.
pub open spec fn states_constant_duration(items: Seq<Tree>) -> bool {
    match keyword_value(items, ":duration"@) {
        Some(Tree::List(d)) => d.len() == 3 && d[0] is Atom && same_symbol(d[0]->Atom_0, "="@)
            && duration_constant(d) is Some,
        _ => false,
    }
}

/// The duration of a compiled durative action is the constant its block
/// states, where it states one as `(= ?duration c)`, and one time unit
/// otherwise.
pub proof fn lemma_duration_preserved(block: Tree, predicates: Seq<PredicateView>)
    requires
        raw_action_of(block, true) is Ok,
        converted(raw_action_of(block, true)->Ok_0, predicates) is Ok,
    ensures
        converted(raw_action_of(block, true)->Ok_0, predicates)->Ok_0.duration == (
        if states_constant_duration(block->List_0) {
            duration_constant(keyword_value(block->List_0, ":duration"@)->0->List_0)->0
        } else {
            DEFAULT_DURATION as nat
        }),
{
    let items = block->List_0;
    reveal_strlit("=");
    reveal_strlit("and");
    reveal_strlit("or");
    reveal_strlit("not");
    reveal_strlit("at");
    reveal_strlit("over");
    match keyword_value(items, ":duration"@) {
        Some(Tree::List(d)) => {
            if d.len() > 0 && d[0] is Atom {
                let head = d[0]->Atom_0;
                if same_symbol(head, "="@) {
                    assert(head.len() == 1);
                    assert(crate::text::fold_case(head[0]) == crate::text::fold_case('='));
                    assert(head[0] == '=');
                    assert(head =~= seq!['=']);
                    assert(!same_symbol(head, "and"@));
                    assert(!same_symbol(head, "or"@));
                    assert(!same_symbol(head, "not"@));
                    assert(!same_symbol(head, "at"@));
                    assert(!same_symbol(head, "over"@));
                } else {
                    if relation_of(head) == Some(Relation::Equal) {
                        assert(head == seq!['=']);
                        assert(same_symbol(head, "="@));
                    }
                }
                lemma_decimal_fits(d);
            }
        },
        _ => {},
    }
}

/// The duration of a compiled action that is not durative is one time unit.
pub proof fn lemma_plain_action_takes_one_unit(block: Tree, predicates: Seq<PredicateView>)
    requires
        raw_action_of(block, false) is Ok,
        converted(raw_action_of(block, false)->Ok_0, predicates) is Ok,
    ensures
        converted(raw_action_of(block, false)->Ok_0, predicates)->Ok_0.duration
            == DEFAULT_DURATION as nat,
{
}

/// A constant read from a duration fits the machine's ticks.
proof fn lemma_decimal_fits(d: Seq<Tree>)
    ensures
        duration_constant(d) is Some ==> duration_constant(d)->0 < 1_000_000_000_000_000_000,
{
    if duration_constant(d) is Some {
        let s = d[2]->Atom_0;
        crate::text::lemma_decimal_ticks_bound(s);
    }
}

/// Every condition of an action is in exactly one of the template's three
/// groups, and every effect in exactly one of its two: the groups together
/// hold each as often as the action lists it, and nothing else.
pub proof fn lemma_action_partitioned(raw: RawAction, predicates: Seq<PredicateView>)
    requires
        converted(raw, predicates) is Ok,
    ensures
        ({
            let a = converted(raw, predicates)->Ok_0;
            &&& a.conditions_start.to_multiset().add(a.conditions_over_all.to_multiset()).add(
                a.conditions_end.to_multiset(),
            ) =~= raw_conditions(raw).to_multiset()
            &&& a.effects_start.to_multiset().add(a.effects_end.to_multiset()) =~= raw_effects(
                raw,
            ).to_multiset()
        }),
{
    let none = Seq::<Literal>::empty();
    none.to_multiset_ensures();
    assert(none.to_multiset() =~= vstd::multiset::Multiset::<Literal>::empty());
    if raw.is_durative {
        match raw.precondition {
            Some(f) => {
                lemma_conditions_partitioned(f);
            },
            None => {},
        }
        match raw.effect {
            Some(f) => {
                lemma_effects_partitioned(f);
            },
            None => {},
        }
    }
}

} // verus!
