//! The law of writing and compiling: the texts that are written of a task
//! compile to the task again.

use vstd::prelude::*;
use crate::actions::{
    converted, converted_all, duration_warnings, is_declared, raw_conditions, raw_effects,
    undeclared_in,
};
use crate::compile::{assembled, fact_table, initial_count, task_of};
use crate::domain::{
    DEFAULT_DURATION, DomainView, PDDLDuration, RawAction, define_items, domain_of, domain_of_text,
    has_head, is_dash, is_supported_requirement, is_variable, keyword_index, name_in,
    parameters_from, predicate_of, predicates_of, raw_action_of, raw_actions_of, requirements_of,
    section_index, types_of,
};
use crate::error::Fault;
use crate::formula::{
    Formula, Relation, all_atoms, atom_texts, duration_constant, formula_of, formulas_of,
    is_temporal_shape, relation_of,
};
use crate::numbers::{
    lemma_digits_of, lemma_duration_text_is_read_back, lemma_padded, lemma_signed_text_is_read_back,
    lemma_trimmed,
};
use crate::output::{digits_of, duration_text, padded, trimmed};
use crate::problem::{
    InitEntry, ProblemView, assignment_of, init_atoms_of, init_entry_of, init_fluents_of,
    is_name_position, objects_of, problem_of, problem_of_text, type_after,
};
use crate::reading::{
    plain_atom, plain_char, printable, simple_atom, lemma_printed_tree_is_read_back,
    lemma_simple_is_plain,
};
use crate::serialise::{
    action_tree, action_trees, atom_tree, atoms_of, domain_text, domain_tree, duration_tree,
    fluent_tree, fluent_trees, holding, literal_tree, literal_trees, name_items, parameter_trees,
    predicate_tree, predicate_trees, problem_text, problem_tree, section_tree, signed_text,
    timed_tree, timed_trees, warned,
};
use crate::sexpr::Tree;
use crate::temporal_task::{
    ActionView, FluentView, GroundAtom, Literal, ParameterView, Phase, PredicateView, TaskView,
    condition_literals, conditions_of_parts, effect_literals, effects_of_parts, phase_conditions,
    phase_conditions_of_parts, phase_effects, phase_effects_of_parts,
};
use crate::text::{fold_case, is_digit, same_symbol};

use crate::typing::unknown_type_of;

verus! {

/// A name that can stand at the head of a literal: it is plain and none of
/// the words by which a formula is told apart from a literal.
pub open spec fn ordinary(name: Seq<char>) -> bool {
    &&& plain_atom(name)
    &&& !same_symbol(name, "and"@)
    &&& !same_symbol(name, "or"@)
    &&& !same_symbol(name, "not"@)
    &&& relation_of(name) is None
}

/// A literal that can be written: its predicate is ordinary and its
/// arguments are plain.
pub open spec fn writable_literal(l: Literal) -> bool {
    ordinary(l.predicate) && forall|i: int| 0 <= i < l.args.len() ==> plain_atom(#[trigger] l.args[i])
}

pub open spec fn writable_literals(literals: Seq<Literal>) -> bool {
    forall|i: int| 0 <= i < literals.len() ==> writable_literal(#[trigger] literals[i])
}

/// The formula of a literal: its predicate applied to its arguments, inside
/// a negation where it is negated.
pub open spec fn literal_formula(l: Literal) -> Formula {
    let positive = Formula::Predicate { name: l.predicate, args: l.args, negated: false };
    if l.negated {
        Formula::Not(Box::new(positive))
    } else {
        positive
    }
}

/// The formula of a literal under the temporal operator of a phase.
pub open spec fn timed_formula(phase: Phase, l: Literal) -> Formula {
    match phase {
        Phase::Start => Formula::AtStart(Box::new(literal_formula(l))),
        Phase::OverAll => Formula::OverAll(Box::new(literal_formula(l))),
        Phase::End => Formula::AtEnd(Box::new(literal_formula(l))),
    }
}

pub open spec fn timed_formulas(phase: Phase, literals: Seq<Literal>) -> Seq<Formula> {
    Seq::new(literals.len(), |i: int| timed_formula(phase, literals[i]))
}

pub open spec fn literal_formulas(literals: Seq<Literal>) -> Seq<Formula> {
    Seq::new(literals.len(), |i: int| literal_formula(literals[i]))
}

/// The first word of the temporal operator of a phase.
pub open spec fn first_word(phase: Phase) -> Seq<char> {
    match phase {
        Phase::Start => "at"@,
        Phase::OverAll => "over"@,
        Phase::End => "at"@,
    }
}

/// The second word of the temporal operator of a phase.
pub open spec fn second_word(phase: Phase) -> Seq<char> {
    match phase {
        Phase::Start => "start"@,
        Phase::OverAll => "all"@,
        Phase::End => "end"@,
    }
}

/// What holds of the words of formulas: which are the same symbol and which
/// are not.
pub proof fn lemma_formula_words()
    ensures
        same_symbol("and"@, "and"@),
        same_symbol("not"@, "not"@),
        same_symbol("at"@, "at"@),
        same_symbol("over"@, "over"@),
        same_symbol("start"@, "start"@),
        same_symbol("end"@, "end"@),
        same_symbol("all"@, "all"@),
        !same_symbol("not"@, "and"@),
        !same_symbol("not"@, "or"@),
        !same_symbol("at"@, "and"@),
        !same_symbol("at"@, "or"@),
        !same_symbol("at"@, "not"@),
        !same_symbol("at"@, "over"@),
        !same_symbol("over"@, "and"@),
        !same_symbol("over"@, "or"@),
        !same_symbol("over"@, "not"@),
        !same_symbol("over"@, "at"@),
        !same_symbol("end"@, "start"@),
        !same_symbol("start"@, "end"@),
        !same_symbol("all"@, "start"@),
        !same_symbol("all"@, "end"@),
        !same_symbol("start"@, "all"@),
        !same_symbol("end"@, "all"@),
        relation_of("and"@) is None,
        relation_of("not"@) is None,
        relation_of("at"@) is None,
        relation_of("over"@) is None,
        plain_atom("and"@),
        plain_atom("not"@),
        plain_atom("at"@),
        plain_atom("over"@),
        plain_atom("start"@),
        plain_atom("end"@),
        plain_atom("all"@),
{
    reveal_strlit("and");
    reveal_strlit("or");
    reveal_strlit("not");
    reveal_strlit("at");
    reveal_strlit("over");
    reveal_strlit("start");
    reveal_strlit("end");
    reveal_strlit("all");
    assert(fold_case("not"@[0]) != fold_case("and"@[0]));
    assert(fold_case("at"@[0]) != fold_case("or"@[0]));
    assert(fold_case("end"@[0]) != fold_case("all"@[0]));
    assert(fold_case("all"@[0]) != fold_case("end"@[0]));
    assert(fold_case("at"@[0]) == fold_case("at"@[0]));
    assert("and"@.len() == 3 && "and"@[0] == 'a');
    assert("not"@.len() == 3 && "not"@[0] == 'n');
    assert("at"@.len() == 2 && "at"@[0] == 'a');
    assert("over"@.len() == 4 && "over"@[0] == 'o');
    lemma_simple_is_plain("and"@);
    lemma_simple_is_plain("not"@);
    lemma_simple_is_plain("at"@);
    lemma_simple_is_plain("over"@);
    lemma_simple_is_plain("start"@);
    lemma_simple_is_plain("end"@);
    lemma_simple_is_plain("all"@);
}

/// The atom of a writable literal is read as the predicate applied to its
/// arguments.
pub proof fn lemma_atom_tree_formula(predicate: Seq<char>, args: Seq<Seq<char>>)
    requires
        ordinary(predicate),
    ensures
        formula_of(atom_tree(predicate, args)) == Ok::<Formula, Fault>(
            Formula::Predicate { name: predicate, args, negated: false },
        ),
{
    let items = seq![Tree::Atom(predicate)] + atoms_of(args);
    assert(items[0] == Tree::Atom(predicate));
    assert(all_atoms(items)) by {
        assert forall|i: int| 0 <= i < items.len() implies #[trigger] items[i] is Atom by {
            if i > 0 {
                assert(items[i] == atoms_of(args)[i - 1]);
            }
        }
    }
    assert(!is_temporal_shape(items)) by {
        if items.len() == 3 {
            assert(items[2] == atoms_of(args)[1]);
        }
    }
    assert(atom_texts(items.skip(1)) =~= args) by {
        assert forall|i: int| 0 <= i < args.len() implies atom_texts(items.skip(1))[i] == args[i] by {
            assert(items.skip(1)[i] == atoms_of(args)[i]);
        }
    }
}

/// A writable literal is read as its formula, and as a formula it lists
/// itself, as a condition and as an effect.
pub proof fn lemma_literal_tree_formula(l: Literal)
    requires
        writable_literal(l),
    ensures
        formula_of(literal_tree(l)) == Ok::<Formula, Fault>(literal_formula(l)),
        condition_literals(literal_formula(l)) == seq![l],
        effect_literals(literal_formula(l)) == seq![l],
        literal_tree(l) is List,
{
    lemma_formula_words();
    lemma_atom_tree_formula(l.predicate, l.args);
    if l.negated {
        let items = seq![Tree::Atom("not"@), atom_tree(l.predicate, l.args)];
        assert(items[0] == Tree::Atom("not"@));
        assert(items[1] == atom_tree(l.predicate, l.args));
    }
}

/// A writable literal under a temporal operator is read as its formula under
/// the operator of that phase.
pub proof fn lemma_timed_tree_formula(phase: Phase, l: Literal)
    requires
        writable_literal(l),
    ensures
        formula_of(timed_tree(first_word(phase), second_word(phase), l)) == Ok::<Formula, Fault>(
            timed_formula(phase, l),
        ),
{
    lemma_formula_words();
    lemma_literal_tree_formula(l);
    let items = seq![
        Tree::Atom(first_word(phase)),
        Tree::Atom(second_word(phase)),
        literal_tree(l),
    ];
    assert(items[0] == Tree::Atom(first_word(phase)));
    assert(items[1] == Tree::Atom(second_word(phase)));
    assert(items[2] == literal_tree(l));
    assert(is_temporal_shape(items));
}

/// Where every item behind the head of a list is read as a formula, the
/// items are read as those formulas.
pub proof fn lemma_formulas_of_items(items: Seq<Tree>, formulas: Seq<Formula>, n: int)
    requires
        items.len() == formulas.len() + 1,
        forall|i: int|
            0 <= i < formulas.len() ==> formula_of(#[trigger] items[i + 1]) == Ok::<Formula, Fault>(
                formulas[i],
            ),
        1 <= n <= items.len(),
    ensures
        formulas_of(items, n) == Ok::<Seq<Formula>, Fault>(formulas.take(n - 1)),
    decreases n,
{
    if n > 1 {
        lemma_formulas_of_items(items, formulas, n - 1);
        assert(formula_of(items[(n - 2) + 1]) == Ok::<Formula, Fault>(formulas[n - 2]));
        assert(formulas.take(n - 1) =~= formulas.take(n - 2).push(formulas[n - 2]));
    } else {
        assert(formulas.take(0) =~= Seq::<Formula>::empty());
    }
}

/// The conditions of a phase that the formulas of literals under temporal
/// operators list: those of the literals, where the operator is that of the
/// phase, and none, where it is not.
pub proof fn lemma_phase_of_timed(
    given: Phase,
    literals: Seq<Literal>,
    phase: Phase,
    n: int,
)
    requires
        writable_literals(literals),
        0 <= n <= literals.len(),
    ensures
        phase_conditions_of_parts(timed_formulas(given, literals), n, phase) == (if given == phase {
            literals.take(n)
        } else {
            Seq::empty()
        }),
        given != Phase::OverAll ==> phase_effects_of_parts(timed_formulas(given, literals), n, phase)
            == (if given == phase {
            literals.take(n)
        } else {
            Seq::empty()
        }),
        conditions_of_parts(timed_formulas(given, literals), n) == literals.take(n),
        given != Phase::OverAll ==> effects_of_parts(timed_formulas(given, literals), n)
            == literals.take(n),
    decreases n,
{
    let parts = timed_formulas(given, literals);
    if n > 0 {
        lemma_phase_of_timed(given, literals, phase, n - 1);
        let l = literals[n - 1];
        lemma_literal_tree_formula(l);
        assert(parts[n - 1] == timed_formula(given, l));
        let own = phase_conditions(parts[n - 1], phase);
        let own_effects = phase_effects(parts[n - 1], phase);
        assert(own == (if given == phase {
            seq![l]
        } else {
            Seq::empty()
        }));
        assert(phase_conditions_of_parts(parts, n, phase) == phase_conditions_of_parts(
            parts,
            n - 1,
            phase,
        ) + own);
        assert(phase_effects_of_parts(parts, n, phase) == phase_effects_of_parts(parts, n - 1, phase)
            + own_effects);
        assert(literals.take(n) =~= literals.take(n - 1) + seq![l]);
        assert(Seq::<Literal>::empty() + Seq::<Literal>::empty() =~= Seq::<Literal>::empty());
        assert(condition_literals(parts[n - 1]) == seq![l]);
        assert(conditions_of_parts(parts, n) == conditions_of_parts(parts, n - 1)
            + condition_literals(parts[n - 1]));
        if given != Phase::OverAll {
            assert(effect_literals(parts[n - 1]) == seq![l]);
            assert(effects_of_parts(parts, n) == effects_of_parts(parts, n - 1) + effect_literals(
                parts[n - 1],
            ));
            assert(own_effects == (if given == phase {
                seq![l]
            } else {
                Seq::empty()
            }));
        }
    } else {
        assert(literals.take(0) =~= Seq::<Literal>::empty());
    }
}

/// The conditions of a phase that the parts of two conjunctions list, one
/// behind the other, are those of the first and then those of the second.
pub proof fn lemma_phase_of_concat(a: Seq<Formula>, b: Seq<Formula>, phase: Phase, n: int)
    requires
        0 <= n <= b.len(),
    ensures
        phase_conditions_of_parts(a + b, a.len() + n, phase) == phase_conditions_of_parts(
            a,
            a.len() as int,
            phase,
        ) + phase_conditions_of_parts(b, n, phase),
        phase_effects_of_parts(a + b, a.len() + n, phase) == phase_effects_of_parts(
            a,
            a.len() as int,
            phase,
        ) + phase_effects_of_parts(b, n, phase),
        conditions_of_parts(a + b, a.len() + n) == conditions_of_parts(a, a.len() as int)
            + conditions_of_parts(b, n),
        effects_of_parts(a + b, a.len() + n) == effects_of_parts(a, a.len() as int)
            + effects_of_parts(b, n),
    decreases n,
{
    if n > 0 {
        lemma_phase_of_concat(a, b, phase, n - 1);
        assert((a + b)[a.len() + n - 1] == b[n - 1]);
        assert(conditions_of_parts(a, a.len() as int) + conditions_of_parts(b, n - 1)
            + condition_literals(b[n - 1]) =~= conditions_of_parts(a, a.len() as int)
            + conditions_of_parts(b, n));
        assert(effects_of_parts(a, a.len() as int) + effects_of_parts(b, n - 1) + effect_literals(
            b[n - 1],
        ) =~= effects_of_parts(a, a.len() as int) + effects_of_parts(b, n));
        assert(phase_conditions_of_parts(a, a.len() as int, phase) + phase_conditions_of_parts(
            b,
            n - 1,
            phase,
        ) + phase_conditions(b[n - 1], phase) =~= phase_conditions_of_parts(
            a,
            a.len() as int,
            phase,
        ) + phase_conditions_of_parts(b, n, phase));
        assert(phase_effects_of_parts(a, a.len() as int, phase) + phase_effects_of_parts(
            b,
            n - 1,
            phase,
        ) + phase_effects(b[n - 1], phase) =~= phase_effects_of_parts(a, a.len() as int, phase)
            + phase_effects_of_parts(b, n, phase));
    } else {
        lemma_parts_of_longer(a, b, phase, a.len() as int);
        assert(phase_conditions_of_parts(a, a.len() as int, phase) + Seq::<Literal>::empty()
            =~= phase_conditions_of_parts(a, a.len() as int, phase));
        assert(phase_effects_of_parts(a, a.len() as int, phase) + Seq::<Literal>::empty()
            =~= phase_effects_of_parts(a, a.len() as int, phase));
        assert(conditions_of_parts(a, a.len() as int) + Seq::<Literal>::empty()
            =~= conditions_of_parts(a, a.len() as int));
        assert(effects_of_parts(a, a.len() as int) + Seq::<Literal>::empty() =~= effects_of_parts(
            a,
            a.len() as int,
        ));
    }
}

pub proof fn lemma_parts_of_longer(a: Seq<Formula>, b: Seq<Formula>, phase: Phase, n: int)
    requires
        0 <= n <= a.len(),
    ensures
        phase_conditions_of_parts(a + b, n, phase) == phase_conditions_of_parts(a, n, phase),
        phase_effects_of_parts(a + b, n, phase) == phase_effects_of_parts(a, n, phase),
        conditions_of_parts(a + b, n) == conditions_of_parts(a, n),
        effects_of_parts(a + b, n) == effects_of_parts(a, n),
    decreases n,
{
    if n > 0 {
        lemma_parts_of_longer(a, b, phase, n - 1);
        assert((a + b)[n - 1] == a[n - 1]);
    }
}

/// The formulas of the condition of an action that is written: those at the
/// start, those over all and those at the end, each under its operator.
pub open spec fn condition_parts(
    at_start: Seq<Literal>,
    over_all: Seq<Literal>,
    at_end: Seq<Literal>,
) -> Seq<Formula> {
    timed_formulas(Phase::Start, at_start) + timed_formulas(Phase::OverAll, over_all)
        + timed_formulas(Phase::End, at_end)
}

/// The trees of the condition of an action that is written.
pub open spec fn condition_trees(
    at_start: Seq<Literal>,
    over_all: Seq<Literal>,
    at_end: Seq<Literal>,
) -> Seq<Tree> {
    timed_trees("at"@, "start"@, at_start) + timed_trees("over"@, "all"@, over_all) + timed_trees(
        "at"@,
        "end"@,
        at_end,
    )
}

/// The condition of an action that is written is read as the conjunction of
/// its parts, and the parts list in each phase the conditions of that phase,
/// and none over all where no conditions over all are written.
pub proof fn lemma_condition_is_read_back(
    at_start: Seq<Literal>,
    over_all: Seq<Literal>,
    at_end: Seq<Literal>,
)
    requires
        writable_literals(at_start),
        writable_literals(over_all),
        writable_literals(at_end),
    ensures
        ({
            let parts = condition_parts(at_start, over_all, at_end);
            let f = Formula::And(parts);
            &&& formula_of(section_tree("and"@, condition_trees(at_start, over_all, at_end)))
                == Ok::<Formula, Fault>(f)
            &&& phase_conditions(f, Phase::Start) == at_start
            &&& phase_conditions(f, Phase::OverAll) == over_all
            &&& phase_conditions(f, Phase::End) == at_end
            &&& condition_literals(f) == at_start + over_all + at_end
            &&& over_all.len() == 0 ==> {
                &&& phase_effects(f, Phase::Start) == at_start
                &&& phase_effects(f, Phase::End) == at_end
                &&& effect_literals(f) == at_start + at_end
            }
        }),
{
    lemma_formula_words();
    let a = timed_formulas(Phase::Start, at_start);
    let b = timed_formulas(Phase::OverAll, over_all);
    let c = timed_formulas(Phase::End, at_end);
    let ab = a + b;
    let parts = ab + c;
    let trees = condition_trees(at_start, over_all, at_end);
    let items = seq![Tree::Atom("and"@)] + trees;
    assert(items[0] == Tree::Atom("and"@));
    assert forall|i: int| 0 <= i < parts.len() implies formula_of(#[trigger] items[i + 1])
        == Ok::<Formula, Fault>(parts[i]) by {
        if i < a.len() {
            lemma_timed_tree_formula(Phase::Start, at_start[i]);
            assert(items[i + 1] == timed_tree("at"@, "start"@, at_start[i]));
        } else if i < a.len() + b.len() {
            lemma_timed_tree_formula(Phase::OverAll, over_all[i - a.len()]);
            assert(items[i + 1] == timed_tree("over"@, "all"@, over_all[i - a.len()]));
        } else {
            lemma_timed_tree_formula(Phase::End, at_end[i - a.len() - b.len()]);
            assert(items[i + 1] == timed_tree("at"@, "end"@, at_end[i - a.len() - b.len()]));
        }
    }
    lemma_formulas_of_items(items, parts, items.len() as int);
    assert(parts.take(parts.len() as int) =~= parts);
    assert(at_start.take(at_start.len() as int) =~= at_start);
    assert(over_all.take(over_all.len() as int) =~= over_all);
    assert(at_end.take(at_end.len() as int) =~= at_end);
    let none = Seq::<Literal>::empty();
    assert forall|phase: Phase| true implies {
        &&& #[trigger] phase_conditions_of_parts(parts, parts.len() as int, phase) == (
        if phase == Phase::Start {
            at_start
        } else if phase == Phase::OverAll {
            over_all
        } else {
            at_end
        })
        &&& over_all.len() == 0 ==> phase_effects_of_parts(parts, parts.len() as int, phase) == (
        if phase == Phase::Start {
            at_start
        } else if phase == Phase::OverAll {
            none
        } else {
            at_end
        })
    } by {
        lemma_phase_of_timed(Phase::Start, at_start, phase, at_start.len() as int);
        lemma_phase_of_timed(Phase::OverAll, over_all, phase, over_all.len() as int);
        lemma_phase_of_timed(Phase::End, at_end, phase, at_end.len() as int);
        lemma_phase_of_concat(a, b, phase, b.len() as int);
        lemma_phase_of_concat(ab, c, phase, c.len() as int);
        assert(none + none =~= none);
        assert(at_start + none =~= at_start);
        assert(none + over_all =~= over_all);
        assert(none + at_end =~= at_end);
        assert(over_all + none =~= over_all);
        if over_all.len() == 0 {
            assert(b =~= Seq::<Formula>::empty());
            assert(phase_effects_of_parts(b, 0, phase) =~= none);
        }
    }
    lemma_phase_of_timed(Phase::Start, at_start, Phase::Start, at_start.len() as int);
    lemma_phase_of_timed(Phase::OverAll, over_all, Phase::Start, over_all.len() as int);
    lemma_phase_of_timed(Phase::End, at_end, Phase::Start, at_end.len() as int);
    lemma_phase_of_concat(a, b, Phase::Start, b.len() as int);
    lemma_phase_of_concat(ab, c, Phase::Start, c.len() as int);
    assert(phase_conditions_of_parts(parts, parts.len() as int, Phase::Start) == at_start);
    assert(phase_conditions_of_parts(parts, parts.len() as int, Phase::OverAll) == over_all);
    assert(phase_conditions_of_parts(parts, parts.len() as int, Phase::End) == at_end);
    if over_all.len() == 0 {
        assert(b =~= Seq::<Formula>::empty());
        assert(effects_of_parts(b, 0) =~= none);
        assert(phase_effects_of_parts(parts, parts.len() as int, Phase::Start) == at_start);
        assert(phase_effects_of_parts(parts, parts.len() as int, Phase::End) == at_end);
        assert(at_start + none + at_end =~= at_start + at_end);
    }
}

/// A parameter that can be written: its name starts with `?`.
pub open spec fn writable_parameter(p: ParameterView) -> bool {
    p.name.len() > 0 && p.name[0] == '?'
}

pub open spec fn writable_parameters(parameters: Seq<ParameterView>) -> bool {
    forall|i: int| 0 <= i < parameters.len() ==> writable_parameter(#[trigger] parameters[i])
}

/// The number of trees that declare the first `n` parameters.
pub proof fn lemma_parameter_trees_grow(parameters: Seq<ParameterView>, n: int, m: int)
    requires
        0 <= n <= m <= parameters.len(),
    ensures
        parameter_trees(parameters, n).len() <= parameter_trees(parameters, m).len(),
        parameter_trees(parameters, m).take(parameter_trees(parameters, n).len() as int)
            == parameter_trees(parameters, n),
    decreases m - n,
{
    if n < m {
        lemma_parameter_trees_grow(parameters, n, m - 1);
        let shorter = parameter_trees(parameters, m - 1);
        let longer = parameter_trees(parameters, m);
        let k = parameter_trees(parameters, n).len() as int;
        assert(longer.take(shorter.len() as int) =~= shorter);
        assert(longer.take(k) =~= longer.take(shorter.len() as int).take(k));
    } else {
        assert(parameter_trees(parameters, m).take(parameter_trees(parameters, m).len() as int)
            =~= parameter_trees(parameters, m));
    }
}

/// The parameters that are written behind a head are read back, from the
/// parameter `k` on.
pub proof fn lemma_parameters_from(head: Seq<Tree>, parameters: Seq<ParameterView>, k: int)
    requires
        writable_parameters(parameters),
        0 <= k <= parameters.len(),
    ensures
        parameters_from(
            head + parameter_trees(parameters, parameters.len() as int),
            head.len() as int + parameter_trees(parameters, k).len() as int,
        ) == parameters.skip(k),
    decreases parameters.len() - k,
{
    let all = parameter_trees(parameters, parameters.len() as int);
    let items = head + all;
    let b = parameter_trees(parameters, k).len() as int;
    let at = head.len() as int + b;
    if k == parameters.len() {
        assert(parameters.skip(k) =~= Seq::<ParameterView>::empty());
    } else {
        lemma_parameters_from(head, parameters, k + 1);
        lemma_parameter_trees_grow(parameters, k + 1, parameters.len() as int);
        let with_own = parameter_trees(parameters, k + 1);
        let p = parameters[k];
        assert(writable_parameter(p));
        assert(all.take(with_own.len() as int) == with_own);
        assert(items[at] == all[b]);
        assert(all[b] == with_own[b]);
        assert(with_own[b] == Tree::Atom(p.name));
        assert(is_variable(items[at]));
        assert(parameters.skip(k) =~= seq![p] + parameters.skip(k + 1));
        match p.type_tag {
            Some(t) => {
                assert(items[at + 1] == all[b + 1]);
                assert(all[b + 1] == with_own[b + 1]);
                assert(items[at + 2] == all[b + 2]);
                assert(all[b + 2] == with_own[b + 2]);
                assert(is_dash(items[at + 1]));
            },
            None => {
                if at + 2 < items.len() {
                    lemma_parameter_trees_grow(parameters, k + 2, parameters.len() as int);
                    let next = parameter_trees(parameters, k + 2);
                    assert(writable_parameter(parameters[k + 1]));
                    assert(all.take(next.len() as int) == next);
                    assert(items[at + 1] == all[b + 1]);
                    assert(all[b + 1] == next[b + 1]);
                    assert(next[b + 1] == Tree::Atom(parameters[k + 1].name));
                    assert(!is_dash(items[at + 1])) by {
                        if is_dash(items[at + 1]) {
                            assert(parameters[k + 1].name[0] == '-');
                        }
                    }
                }
            },
        }
    }
}

/// The parameters that are written behind a head are read back.
pub proof fn lemma_parameters_are_read_back(head: Seq<Tree>, parameters: Seq<ParameterView>)
    requires
        writable_parameters(parameters),
    ensures
        parameters_from(
            head + parameter_trees(parameters, parameters.len() as int),
            head.len() as int,
        ) == parameters,
{
    lemma_parameters_from(head, parameters, 0);
    assert(parameters.skip(0) =~= parameters);
}

/// Whether every literal applies a declared predicate.
pub open spec fn all_declared(literals: Seq<Literal>, predicates: Seq<PredicateView>) -> bool {
    forall|i: int|
        0 <= i < literals.len() ==> is_declared(
            predicates,
            (#[trigger] literals[i]).predicate,
            literals[i].args.len() as int,
        )
}

pub proof fn lemma_none_undeclared(literals: Seq<Literal>, predicates: Seq<PredicateView>, n: int)
    requires
        all_declared(literals, predicates),
        0 <= n <= literals.len(),
    ensures
        undeclared_in(literals, predicates, n) is None,
    decreases n,
{
    if n > 0 {
        lemma_none_undeclared(literals, predicates, n - 1);
        assert(is_declared(predicates, literals[n - 1].predicate, literals[n - 1].args.len() as int));
    }
}

pub proof fn lemma_all_declared_concat(
    a: Seq<Literal>,
    b: Seq<Literal>,
    predicates: Seq<PredicateView>,
)
    requires
        all_declared(a, predicates),
        all_declared(b, predicates),
    ensures
        all_declared(a + b, predicates),
{
    let s = a + b;
    assert forall|i: int| 0 <= i < s.len() implies is_declared(
        predicates,
        (#[trigger] s[i]).predicate,
        s[i].args.len() as int,
    ) by {
        if i < a.len() {
            assert(s[i] == a[i]);
        } else {
            assert(s[i] == b[i - a.len()]);
        }
    }
}

/// An action that can be written: its name is plain, its parameters start
/// with `?`, its duration is below ten to the eighteenth ticks, and its
/// literals can be written and apply declared predicates.
pub open spec fn writable_action(a: ActionView, predicates: Seq<PredicateView>) -> bool {
    &&& plain_atom(a.name)
    &&& writable_parameters(a.parameters)
    &&& a.duration < 1_000_000_000_000_000_000
    &&& writable_literals(a.conditions_start)
    &&& writable_literals(a.conditions_over_all)
    &&& writable_literals(a.conditions_end)
    &&& writable_literals(a.effects_start)
    &&& writable_literals(a.effects_end)
    &&& all_declared(a.conditions_start, predicates)
    &&& all_declared(a.conditions_over_all, predicates)
    &&& all_declared(a.conditions_end, predicates)
    &&& all_declared(a.effects_start, predicates)
    &&& all_declared(a.effects_end, predicates)
}

/// What holds of the words of action blocks.
pub proof fn lemma_action_words()
    ensures
        same_symbol(":durative-action"@, ":durative-action"@),
        same_symbol(":parameters"@, ":parameters"@),
        same_symbol(":duration"@, ":duration"@),
        same_symbol(":condition"@, ":condition"@),
        same_symbol(":effect"@, ":effect"@),
        same_symbol("?duration"@, "?duration"@),
        !same_symbol(":durative-action"@, ":action"@),
        !same_symbol(":parameters"@, ":duration"@),
        !same_symbol(":parameters"@, ":condition"@),
        !same_symbol(":parameters"@, ":effect"@),
        !same_symbol(":duration"@, ":condition"@),
        !same_symbol(":duration"@, ":effect"@),
        !same_symbol(":condition"@, ":effect"@),
        !same_symbol("="@, "and"@),
        !same_symbol("="@, "or"@),
        !same_symbol("="@, "not"@),
        !same_symbol("="@, "at"@),
        !same_symbol("="@, "over"@),
        relation_of("="@) == Some(Relation::Equal),
{
    reveal_strlit(":durative-action");
    reveal_strlit(":action");
    reveal_strlit(":parameters");
    reveal_strlit(":duration");
    reveal_strlit(":condition");
    reveal_strlit(":effect");
    reveal_strlit("?duration");
    reveal_strlit("=");
    reveal_strlit("and");
    reveal_strlit("or");
    reveal_strlit("not");
    reveal_strlit("at");
    reveal_strlit("over");
    assert("="@ =~= seq!['=']);
}

/// The action as it is read from its tree, before its literals are sorted by
/// phase.
pub open spec fn written_raw(a: ActionView, unsupported: bool) -> RawAction {
    RawAction {
        name: a.name,
        parameters: a.parameters,
        precondition: Some(
            Formula::And(condition_parts(a.conditions_start, a.conditions_over_all, a.conditions_end)),
        ),
        effect: Some(Formula::And(condition_parts(a.effects_start, Seq::empty(), a.effects_end))),
        duration: Some(
            if unsupported {
                PDDLDuration::Unsupported
            } else {
                PDDLDuration::Fixed(a.duration as u64)
            },
        ),
        is_durative: true,
    }
}

/// An action that is written is read back as it was. Where its duration is
/// written as no constant, it is read as the default.
pub proof fn lemma_action_is_read_back(
    a: ActionView,
    unsupported: bool,
    predicates: Seq<PredicateView>,
)
    requires
        writable_action(a, predicates),
        unsupported ==> a.duration == DEFAULT_DURATION,
    ensures
        has_head(action_tree(a, unsupported), ":durative-action"@),
        !has_head(action_tree(a, unsupported), ":action"@),
        raw_action_of(action_tree(a, unsupported), true) == Ok::<RawAction, Fault>(
            written_raw(a, unsupported),
        ),
        converted(written_raw(a, unsupported), predicates) == Ok::<ActionView, Fault>(a),
{
    lemma_action_words();
    lemma_formula_words();
    let items = action_tree(a, unsupported)->List_0;
    let none = Seq::<Literal>::empty();
    assert(items.len() == 10);
    assert(items[0] == Tree::Atom(":durative-action"@));
    assert(items[1] == Tree::Atom(a.name));
    assert(items[2] == Tree::Atom(":parameters"@));
    assert(items[4] == Tree::Atom(":duration"@));
    assert(items[5] == duration_tree(a.duration, unsupported));
    assert(items[6] == Tree::Atom(":condition"@));
    assert(items[8] == Tree::Atom(":effect"@));
    assert(items[3] is List && items[5] is List && items[7] is List && items[9] is List);
    // the keywords are found where they were written
    assert(keyword_index(items, ":parameters"@, 2) == 2);
    assert(keyword_index(items, ":duration"@, 2) == 4) by {
        assert(keyword_index(items, ":duration"@, 4) == 4);
        assert(keyword_index(items, ":duration"@, 3) == 4);
    }
    assert(keyword_index(items, ":condition"@, 2) == 6) by {
        assert(keyword_index(items, ":condition"@, 6) == 6);
        assert(keyword_index(items, ":condition"@, 5) == 6);
        assert(keyword_index(items, ":condition"@, 4) == 6);
        assert(keyword_index(items, ":condition"@, 3) == 6);
    }
    assert(keyword_index(items, ":effect"@, 2) == 8) by {
        assert(keyword_index(items, ":effect"@, 8) == 8);
        assert(keyword_index(items, ":effect"@, 7) == 8);
        assert(keyword_index(items, ":effect"@, 6) == 8);
        assert(keyword_index(items, ":effect"@, 5) == 8);
        assert(keyword_index(items, ":effect"@, 4) == 8);
        assert(keyword_index(items, ":effect"@, 3) == 8);
    }
    // the parameters
    lemma_parameters_are_read_back(Seq::empty(), a.parameters);
    assert(Seq::<Tree>::empty() + parameter_trees(a.parameters, a.parameters.len() as int)
        =~= parameter_trees(a.parameters, a.parameters.len() as int));
    // the duration
    if unsupported {
        assert(formula_of(items[5]) == Ok::<Formula, Fault>(Formula::And(Seq::empty())));
    } else {
        let stated = items[5]->List_0;
        assert(stated[0] == Tree::Atom("="@));
        assert(stated[1] == Tree::Atom("?duration"@));
        assert(stated[2] == Tree::Atom(duration_text(a.duration as u64)));
        lemma_duration_text_is_read_back(a.duration as u64);
        assert(!is_temporal_shape(stated));
        assert(duration_constant(stated) == Some(a.duration));
        assert(formula_of(items[5]) == Ok::<Formula, Fault>(
            Formula::DurationConstraint { relation: Relation::Equal, constant: Some(a.duration) },
        ));
    }
    // the condition and the effect
    lemma_condition_is_read_back(a.conditions_start, a.conditions_over_all, a.conditions_end);
    lemma_condition_is_read_back(a.effects_start, none, a.effects_end);
    assert(items[7]->List_0 =~= section_tree(
        "and"@,
        condition_trees(a.conditions_start, a.conditions_over_all, a.conditions_end),
    )->List_0);
    assert(timed_trees("over"@, "all"@, none) =~= Seq::<Tree>::empty());
    assert(items[9]->List_0 =~= section_tree(
        "and"@,
        condition_trees(a.effects_start, none, a.effects_end),
    )->List_0);
    assert(raw_action_of(action_tree(a, unsupported), true) == Ok::<RawAction, Fault>(
        written_raw(a, unsupported),
    ));
    // nothing is undeclared
    let raw = written_raw(a, unsupported);
    lemma_all_declared_concat(a.conditions_start, a.conditions_over_all, predicates);
    lemma_all_declared_concat(
        a.conditions_start + a.conditions_over_all,
        a.conditions_end,
        predicates,
    );
    lemma_all_declared_concat(a.effects_start, a.effects_end, predicates);
    lemma_none_undeclared(raw_conditions(raw), predicates, raw_conditions(raw).len() as int);
    lemma_none_undeclared(raw_effects(raw), predicates, raw_effects(raw).len() as int);
}

/// What holds of the words of a domain's sections.
pub proof fn lemma_domain_words()
    ensures
        same_symbol("define"@, "define"@),
        same_symbol("domain"@, "domain"@),
        same_symbol(":requirements"@, ":requirements"@),
        same_symbol(":types"@, ":types"@),
        same_symbol(":predicates"@, ":predicates"@),
        !same_symbol("domain"@, ":requirements"@),
        !same_symbol("domain"@, ":types"@),
        !same_symbol("domain"@, ":predicates"@),
        !same_symbol("domain"@, ":action"@),
        !same_symbol("domain"@, ":durative-action"@),
        !same_symbol(":requirements"@, ":types"@),
        !same_symbol(":requirements"@, ":predicates"@),
        !same_symbol(":requirements"@, ":action"@),
        !same_symbol(":requirements"@, ":durative-action"@),
        !same_symbol(":types"@, ":predicates"@),
        !same_symbol(":types"@, ":action"@),
        !same_symbol(":types"@, ":durative-action"@),
        !same_symbol(":predicates"@, ":action"@),
        !same_symbol(":predicates"@, ":durative-action"@),
        !same_symbol(":durative-action"@, "domain"@),
        !same_symbol(":durative-action"@, ":requirements"@),
        !same_symbol(":durative-action"@, ":types"@),
        !same_symbol(":durative-action"@, ":predicates"@),
{
    reveal_strlit("define");
    reveal_strlit("domain");
    reveal_strlit(":requirements");
    reveal_strlit(":types");
    reveal_strlit(":predicates");
    reveal_strlit(":action");
    reveal_strlit(":durative-action");
    assert(fold_case("domain"@[0]) != fold_case(":types"@[0]));
}

/// A section that is written starts with its head.
pub proof fn lemma_section_head(head: Seq<char>, items: Seq<Tree>, word: Seq<char>)
    ensures
        has_head(section_tree(head, items), word) == same_symbol(head, word),
        section_tree(head, items)->List_0[0] == Tree::Atom(head),
        section_tree(head, items)->List_0.len() == items.len() + 1,
        forall|i: int|
            0 <= i < items.len() ==> #[trigger] section_tree(head, items)->List_0[i + 1]
                == items[i],
{
    let all = seq![Tree::Atom(head)] + items;
    assert(all[0] == Tree::Atom(head));
}

/// The requirement flags that are written are read back, where the planner
/// implements each of them.
pub proof fn lemma_requirements_are_read_back(flags: Seq<Seq<char>>, n: int)
    requires
        forall|i: int| 0 <= i < flags.len() ==> is_supported_requirement(#[trigger] flags[i]),
        0 <= n <= flags.len(),
    ensures
        requirements_of(section_tree(":requirements"@, atoms_of(flags))->List_0, n + 1) == Ok::<
            Seq<Seq<char>>,
            Fault,
        >(flags.take(n)),
    decreases n,
{
    lemma_section_head(":requirements"@, atoms_of(flags), ":requirements"@);
    let section = section_tree(":requirements"@, atoms_of(flags))->List_0;
    if n > 0 {
        lemma_requirements_are_read_back(flags, n - 1);
        assert(section[(n - 1) + 1] == atoms_of(flags)[n - 1]);
        assert(is_supported_requirement(flags[n - 1]));
        assert(flags.take(n) =~= flags.take(n - 1).push(flags[n - 1]));
    } else {
        assert(flags.take(0) =~= Seq::<Seq<char>>::empty());
    }
}

/// The type names that are written are read back, where none of them starts
/// with `-`.
pub proof fn lemma_types_are_read_back(types: Seq<Seq<char>>, n: int)
    requires
        forall|i: int|
            0 <= i < types.len() ==> !((#[trigger] types[i]).len() > 0 && types[i][0] == '-'),
        0 <= n <= types.len(),
    ensures
        types_of(section_tree(":types"@, atoms_of(types))->List_0, n + 1) == types.take(n),
    decreases n,
{
    lemma_section_head(":types"@, atoms_of(types), ":types"@);
    let section = section_tree(":types"@, atoms_of(types))->List_0;
    if n > 0 {
        lemma_types_are_read_back(types, n - 1);
        assert(section[(n - 1) + 1] == atoms_of(types)[n - 1]);
        assert(!(types[n - 1].len() > 0 && types[n - 1][0] == '-'));
        assert(types.take(n) =~= types.take(n - 1).push(types[n - 1]));
    } else {
        assert(types.take(0) =~= Seq::<Seq<char>>::empty());
    }
}

/// A predicate that can be written: its parameters start with `?`.
pub open spec fn writable_predicates(predicates: Seq<PredicateView>) -> bool {
    forall|i: int|
        0 <= i < predicates.len() ==> writable_parameters((#[trigger] predicates[i]).parameters)
}

/// The predicates that are written are read back.
pub proof fn lemma_predicates_are_read_back(predicates: Seq<PredicateView>, n: int)
    requires
        writable_predicates(predicates),
        0 <= n <= predicates.len(),
    ensures
        predicates_of(section_tree(":predicates"@, predicate_trees(predicates))->List_0, n + 1)
            == Ok::<Seq<PredicateView>, Fault>(predicates.take(n)),
    decreases n,
{
    lemma_section_head(":predicates"@, predicate_trees(predicates), ":predicates"@);
    let section = section_tree(":predicates"@, predicate_trees(predicates))->List_0;
    if n > 0 {
        lemma_predicates_are_read_back(predicates, n - 1);
        let p = predicates[n - 1];
        assert(section[(n - 1) + 1] == predicate_tree(p));
        assert(writable_parameters(p.parameters));
        lemma_parameters_are_read_back(seq![Tree::Atom(p.name)], p.parameters);
        let items = seq![Tree::Atom(p.name)] + parameter_trees(
            p.parameters,
            p.parameters.len() as int,
        );
        assert(items[0] == Tree::Atom(p.name));
        assert(predicate_of(predicate_tree(p)) == Ok::<PredicateView, Fault>(p));
        assert(predicates.take(n) =~= predicates.take(n - 1).push(p));
    } else {
        assert(predicates.take(0) =~= Seq::<PredicateView>::empty());
    }
}

pub open spec fn writable_actions(actions: Seq<ActionView>, predicates: Seq<PredicateView>) -> bool {
    forall|i: int| 0 <= i < actions.len() ==> writable_action(#[trigger] actions[i], predicates)
}

/// The actions of a task as they are read from their trees.
pub open spec fn written_raws(task: TaskView) -> Seq<RawAction> {
    Seq::new(
        task.actions.len(),
        |i: int|
            written_raw(task.actions[i], warned(task.warnings, i, task.warnings.len() as int)),
    )
}

/// Whether every action that a warning is about has the default duration.
pub open spec fn warned_are_defaulted(task: TaskView) -> bool {
    forall|k: int|
        0 <= k < task.actions.len() && warned(task.warnings, k, task.warnings.len() as int) ==> (
        #[trigger] task.actions[k]).duration == DEFAULT_DURATION
}

/// The items of the `define` form of a domain that is written.
pub open spec fn domain_items(task: TaskView) -> Seq<Tree> {
    domain_tree(task)->List_0
}

pub proof fn lemma_domain_items(task: TaskView)
    ensures
        domain_items(task).len() == 5 + task.actions.len(),
        domain_items(task)[0] == Tree::Atom("define"@),
        domain_items(task)[1] == section_tree("domain"@, name_items(task.domain_name)),
        domain_items(task)[2] == section_tree(":requirements"@, atoms_of(task.requirements)),
        domain_items(task)[3] == section_tree(":types"@, atoms_of(task.types)),
        domain_items(task)[4] == section_tree(":predicates"@, predicate_trees(task.predicates)),
        forall|k: int|
            0 <= k < task.actions.len() ==> #[trigger] domain_items(task)[5 + k] == action_tree(
                task.actions[k],
                warned(task.warnings, k, task.warnings.len() as int),
            ),
{
    let items = domain_items(task);
    assert forall|k: int| 0 <= k < task.actions.len() implies #[trigger] items[5 + k]
        == action_tree(task.actions[k], warned(task.warnings, k, task.warnings.len() as int)) by {
        assert(items[5 + k] == action_trees(task.actions, task.warnings)[k]);
    }
}

/// The actions of a domain that is written are read back, one for each
/// block, and their templates are the actions that were written.
pub proof fn lemma_actions_are_read_back(task: TaskView, n: int)
    requires
        writable_actions(task.actions, task.predicates),
        warned_are_defaulted(task),
        0 <= n <= task.actions.len(),
    ensures
        raw_actions_of(domain_items(task), 5 + n) == Ok::<Seq<RawAction>, Fault>(
            written_raws(task).take(n),
        ),
        converted_all(written_raws(task), task.predicates, n) == Ok::<Seq<ActionView>, Fault>(
            task.actions.take(n),
        ),
    decreases n,
{
    lemma_domain_words();
    lemma_domain_items(task);
    let items = domain_items(task);
    let raws = written_raws(task);
    if n > 0 {
        lemma_actions_are_read_back(task, n - 1);
        let a = task.actions[n - 1];
        let flag = warned(task.warnings, n - 1, task.warnings.len() as int);
        assert(writable_action(a, task.predicates));
        lemma_action_is_read_back(a, flag, task.predicates);
        assert(items[5 + (n - 1)] == action_tree(a, flag));
        assert(raws[n - 1] == written_raw(a, flag));
        assert(raws.take(n) =~= raws.take(n - 1).push(raws[n - 1]));
        assert(task.actions.take(n) =~= task.actions.take(n - 1).push(a));
    } else {
        lemma_section_head("domain"@, name_items(task.domain_name), ":action"@);
        lemma_section_head("domain"@, name_items(task.domain_name), ":durative-action"@);
        lemma_section_head(":requirements"@, atoms_of(task.requirements), ":action"@);
        lemma_section_head(":requirements"@, atoms_of(task.requirements), ":durative-action"@);
        lemma_section_head(":types"@, atoms_of(task.types), ":action"@);
        lemma_section_head(":types"@, atoms_of(task.types), ":durative-action"@);
        lemma_section_head(":predicates"@, predicate_trees(task.predicates), ":action"@);
        lemma_section_head(":predicates"@, predicate_trees(task.predicates), ":durative-action"@);
        assert(raw_actions_of(items, 1) == Ok::<Seq<RawAction>, Fault>(Seq::empty()));
        assert(raw_actions_of(items, 2) == Ok::<Seq<RawAction>, Fault>(Seq::empty()));
        assert(raw_actions_of(items, 3) == Ok::<Seq<RawAction>, Fault>(Seq::empty()));
        assert(raw_actions_of(items, 4) == Ok::<Seq<RawAction>, Fault>(Seq::empty()));
        assert(raw_actions_of(items, 5) == Ok::<Seq<RawAction>, Fault>(Seq::empty()));
        assert(raws.take(0) =~= Seq::<RawAction>::empty());
        assert(task.actions.take(0) =~= Seq::<ActionView>::empty());
    }
}

/// A domain that can be written: the planner implements its requirement
/// flags, none of its types starts with `-`, and its predicates and actions
/// can be written.
pub open spec fn writable_domain(task: TaskView) -> bool {
    &&& forall|i: int|
        0 <= i < task.requirements.len() ==> is_supported_requirement(#[trigger] task.requirements[i])
    &&& forall|i: int|
        0 <= i < task.types.len() ==> !((#[trigger] task.types[i]).len() > 0 && task.types[i][0]
            == '-')
    &&& writable_predicates(task.predicates)
    &&& writable_actions(task.actions, task.predicates)
    &&& warned_are_defaulted(task)
}

/// The domain of a task as it is read from the domain that is written.
pub open spec fn written_domain(task: TaskView) -> DomainView {
    DomainView {
        name: task.domain_name,
        requirements: task.requirements,
        types: task.types,
        predicates: task.predicates,
        actions: written_raws(task),
    }
}

/// The tree of a domain that is written is read as the domain that was
/// written.
pub proof fn lemma_domain_is_read_back(task: TaskView)
    requires
        writable_domain(task),
    ensures
        define_items(seq![domain_tree(task)]) == Ok::<Seq<Tree>, Fault>(domain_items(task)),
        domain_of(domain_items(task)) == Ok::<DomainView, Fault>(written_domain(task)),
        converted_all(written_raws(task), task.predicates, written_raws(task).len() as int) == Ok::<
            Seq<ActionView>,
            Fault,
        >(task.actions),
{
    lemma_domain_words();
    lemma_domain_items(task);
    let items = domain_items(task);
    let name = name_items(task.domain_name);
    lemma_section_head("domain"@, name, "domain"@);
    lemma_section_head("domain"@, name, ":requirements"@);
    lemma_section_head("domain"@, name, ":types"@);
    lemma_section_head("domain"@, name, ":predicates"@);
    lemma_section_head(":requirements"@, atoms_of(task.requirements), ":requirements"@);
    lemma_section_head(":requirements"@, atoms_of(task.requirements), ":types"@);
    lemma_section_head(":requirements"@, atoms_of(task.requirements), ":predicates"@);
    lemma_section_head(":types"@, atoms_of(task.types), ":types"@);
    lemma_section_head(":types"@, atoms_of(task.types), ":predicates"@);
    lemma_section_head(":predicates"@, predicate_trees(task.predicates), ":predicates"@);
    assert(has_head(domain_tree(task), "define"@));
    assert(section_index(items, "domain"@, 1) == 1);
    assert(section_index(items, ":requirements"@, 1) == 2) by {
        assert(section_index(items, ":requirements"@, 2) == 2);
    }
    assert(section_index(items, ":types"@, 1) == 3) by {
        assert(section_index(items, ":types"@, 3) == 3);
        assert(section_index(items, ":types"@, 2) == 3);
    }
    assert(section_index(items, ":predicates"@, 1) == 4) by {
        assert(section_index(items, ":predicates"@, 4) == 4);
        assert(section_index(items, ":predicates"@, 3) == 4);
        assert(section_index(items, ":predicates"@, 2) == 4);
    }
    assert(name_in(items, "domain"@) == task.domain_name) by {
        if task.domain_name.len() > 0 {
            assert(items[1]->List_0[1] == name[0]);
        } else {
            assert(task.domain_name =~= Seq::<char>::empty());
        }
    }
    lemma_requirements_are_read_back(task.requirements, task.requirements.len() as int);
    assert(task.requirements.take(task.requirements.len() as int) =~= task.requirements);
    lemma_types_are_read_back(task.types, task.types.len() as int);
    assert(task.types.take(task.types.len() as int) =~= task.types);
    lemma_predicates_are_read_back(task.predicates, task.predicates.len() as int);
    assert(task.predicates.take(task.predicates.len() as int) =~= task.predicates);
    lemma_actions_are_read_back(task, task.actions.len() as int);
    assert(task.actions.take(task.actions.len() as int) =~= task.actions);
    let raws = written_raws(task);
    assert(raws.take(task.actions.len() as int) =~= raws);
}

/// What holds of the words of a problem's sections.
pub proof fn lemma_problem_words()
    ensures
        same_symbol("problem"@, "problem"@),
        same_symbol(":objects"@, ":objects"@),
        same_symbol(":init"@, ":init"@),
        same_symbol(":goal"@, ":goal"@),
        !same_symbol("problem"@, ":objects"@),
        !same_symbol("problem"@, ":init"@),
        !same_symbol("problem"@, ":goal"@),
        !same_symbol(":domain"@, "problem"@),
        !same_symbol(":domain"@, ":objects"@),
        !same_symbol(":domain"@, ":init"@),
        !same_symbol(":domain"@, ":goal"@),
        !same_symbol(":objects"@, ":init"@),
        !same_symbol(":objects"@, ":goal"@),
        !same_symbol(":init"@, ":goal"@),
        !is_dash(Tree::Atom(":objects"@)),
{
    reveal_strlit("problem");
    reveal_strlit(":domain");
    reveal_strlit(":objects");
    reveal_strlit(":init");
    reveal_strlit(":goal");
    assert(fold_case(":domain"@[0]) != fold_case("problem"@[0]));
    assert(fold_case(":init"@[1]) != fold_case(":goal"@[1]));
    assert(":objects"@.len() == 8);
}

/// Objects that can be written: no name and no type is `-`, and no typed
/// object stands behind an untyped one.
pub open spec fn writable_objects(objects: Seq<ParameterView>) -> bool {
    &&& forall|i: int| 0 <= i < objects.len() ==> (#[trigger] objects[i]).name != seq!['-']
    &&& forall|i: int|
        0 <= i < objects.len() && (#[trigger] objects[i]).type_tag is Some ==> objects[i].type_tag->0
            != seq!['-']
    &&& forall|i: int, j: int|
        0 <= i <= j < objects.len() && (#[trigger] objects[i]).type_tag is None ==> (
        #[trigger] objects[j]).type_tag is None
}

/// No type is given from a place on behind which no `-` stands.
pub proof fn lemma_no_type_after(items: Seq<Tree>, from: int)
    requires
        0 <= from,
        forall|q: int| from <= q < items.len() ==> !is_dash(#[trigger] items[q]),
    ensures
        type_after(items, from) is None,
    decreases items.len() - from,
{
    if from + 1 < items.len() {
        lemma_no_type_after(items, from + 1);
    }
}

/// Behind an untyped object, where all objects behind it are untyped too,
/// stand only names.
pub proof fn lemma_untyped_tail(objects: Seq<ParameterView>, k: int, j: int)
    requires
        writable_objects(objects),
        0 <= k <= j <= objects.len(),
        k < objects.len() ==> objects[k].type_tag is None,
    ensures
        parameter_trees(objects, j).len() == parameter_trees(objects, k).len() + (j - k),
        forall|q: int|
            parameter_trees(objects, k).len() <= q < parameter_trees(objects, j).len() ==> !is_dash(
                #[trigger] parameter_trees(objects, j)[q],
            ),
    decreases j - k,
{
    if k < j {
        lemma_untyped_tail(objects, k, j - 1);
        assert(objects[j - 1].type_tag is None);
        let shorter = parameter_trees(objects, j - 1);
        let longer = parameter_trees(objects, j);
        assert(longer =~= shorter + seq![Tree::Atom(objects[j - 1].name)]);
        assert forall|q: int|
            parameter_trees(objects, k).len() <= q < longer.len() implies !is_dash(
            #[trigger] longer[q],
        ) by {
            if q < shorter.len() {
                assert(longer[q] == shorter[q]);
            } else {
                assert(longer[q] == Tree::Atom(objects[j - 1].name));
                assert(objects[j - 1].name != seq!['-']);
            }
        }
    }
}

/// The item that stands last before the item of the object `k` is no `-`.
pub proof fn lemma_last_is_no_dash(objects: Seq<ParameterView>, k: int)
    requires
        writable_objects(objects),
        0 < k <= objects.len(),
    ensures
        parameter_trees(objects, k).len() > 0,
        !is_dash(parameter_trees(objects, k).last()),
{
    let p = objects[k - 1];
    assert(p.name != seq!['-']);
    match p.type_tag {
        Some(t) => {
            assert(objects[k - 1].type_tag->0 != seq!['-']);
            assert(parameter_trees(objects, k).last() == Tree::Atom(t));
        },
        None => {
            assert(parameter_trees(objects, k).last() == Tree::Atom(p.name));
        },
    }
}

/// The objects that are written are read back.
pub proof fn lemma_objects_are_read_back(objects: Seq<ParameterView>, k: int)
    requires
        writable_objects(objects),
        0 <= k <= objects.len(),
    ensures
        objects_of(
            section_tree(":objects"@, parameter_trees(objects, objects.len() as int))->List_0,
            1 + parameter_trees(objects, k).len() as int,
        ) == objects.take(k),
    decreases k,
{
    lemma_problem_words();
    let all = parameter_trees(objects, objects.len() as int);
    lemma_section_head(":objects"@, all, ":objects"@);
    let section = section_tree(":objects"@, all)->List_0;
    if k == 0 {
        assert(objects.take(0) =~= Seq::<ParameterView>::empty());
    } else {
        lemma_objects_are_read_back(objects, k - 1);
        lemma_parameter_trees_grow(objects, k, objects.len() as int);
        lemma_parameter_trees_grow(objects, k - 1, k);
        let before = parameter_trees(objects, k - 1);
        let with_own = parameter_trees(objects, k);
        let b = before.len() as int;
        let p = objects[k - 1];
        let at = 1 + b;
        assert(all.take(with_own.len() as int) == with_own);
        assert(with_own.take(b) == before);
        assert(section[at] == all[b]);
        assert(all[b] == with_own[b]);
        assert(with_own[b] == Tree::Atom(p.name));
        assert(p.name != seq!['-']);
        assert(!is_dash(section[at - 1])) by {
            if k - 1 > 0 {
                lemma_last_is_no_dash(objects, k - 1);
                assert(section[at - 1] == all[b - 1]);
                assert(all[b - 1] == with_own[b - 1]);
                assert(with_own[b - 1] == before[b - 1]);
            } else {
                assert(b == 0);
            }
        }
        assert(is_name_position(section, at));
        assert(objects.take(k) =~= objects.take(k - 1).push(p));
        match p.type_tag {
            Some(t) => {
                assert(section[at + 1] == all[b + 1]);
                assert(all[b + 1] == with_own[b + 1]);
                assert(section[at + 2] == all[b + 2]);
                assert(all[b + 2] == with_own[b + 2]);
                assert(is_dash(section[at + 1]));
                assert(type_after(section, at + 1) == Some(t));
                assert(!is_name_position(section, at + 1));
                assert(!is_name_position(section, at + 2));
                assert(objects_of(section, at + 1) == objects.take(k));
                assert(objects_of(section, at + 2) == objects.take(k));
                assert(objects_of(section, at + 3) == objects.take(k));
            },
            None => {
                lemma_untyped_tail(objects, k - 1, objects.len() as int);
                assert forall|q: int| at + 1 <= q < section.len() implies !is_dash(
                    #[trigger] section[q],
                ) by {
                    assert(section[q] == all[q - 1]);
                }
                lemma_no_type_after(section, at + 1);
                assert(objects_of(section, at + 1) == objects.take(k));
            },
        }
    }
}

/// The atoms of the facts among the first `n` that hold, in the order of
/// their numbers.
pub open spec fn held_atoms(facts: Seq<GroundAtom>, bits: Seq<bool>, n: int) -> Seq<GroundAtom>
    decreases n,
{
    if n <= 0 || n > facts.len() {
        Seq::empty()
    } else if n <= bits.len() && bits[n - 1] {
        held_atoms(facts, bits, n - 1).push(facts[n - 1])
    } else {
        held_atoms(facts, bits, n - 1)
    }
}

pub open spec fn atom_trees(atoms: Seq<GroundAtom>) -> Seq<Tree> {
    Seq::new(atoms.len(), |i: int| atom_tree(atoms[i].predicate, atoms[i].args))
}

pub proof fn lemma_holding_trees(facts: Seq<GroundAtom>, bits: Seq<bool>, n: int)
    ensures
        holding(facts, bits, n) == atom_trees(held_atoms(facts, bits, n)),
    decreases n,
{
    if !(n <= 0 || n > facts.len()) {
        lemma_holding_trees(facts, bits, n - 1);
        assert(holding(facts, bits, n) =~= atom_trees(held_atoms(facts, bits, n)));
    } else {
        assert(holding(facts, bits, n) =~= atom_trees(held_atoms(facts, bits, n)));
    }
}

/// Atoms that can be written in an initial state: their predicates are
/// plain, no `=`, and declared.
pub open spec fn writable_atoms(atoms: Seq<GroundAtom>, predicates: Seq<PredicateView>) -> bool {
    forall|i: int|
        0 <= i < atoms.len() ==> plain_atom((#[trigger] atoms[i]).predicate) && relation_of(
            atoms[i].predicate,
        ) != Some(Relation::Equal) && is_declared(
            predicates,
            atoms[i].predicate,
            atoms[i].args.len() as int,
        )
}

/// Fluents that can be written: their values are below ten to the
/// eighteenth ticks either way.
pub open spec fn writable_fluents(fluents: Seq<FluentView>) -> bool {
    forall|i: int|
        0 <= i < fluents.len() ==> -1_000_000_000_000_000_000 < (#[trigger] fluents[i]).value
            < 1_000_000_000_000_000_000
}

/// An atom that is written in an initial state is read as the atom.
pub proof fn lemma_init_atom(atom: GroundAtom, predicates: Seq<PredicateView>)
    requires
        relation_of(atom.predicate) != Some(Relation::Equal),
        is_declared(predicates, atom.predicate, atom.args.len() as int),
    ensures
        init_entry_of(atom_tree(atom.predicate, atom.args), predicates) == Ok::<InitEntry, Fault>(
            InitEntry::Holds(atom),
        ),
{
    let items = seq![Tree::Atom(atom.predicate)] + atoms_of(atom.args);
    assert(items[0] == Tree::Atom(atom.predicate));
    assert(all_atoms(items)) by {
        assert forall|i: int| 0 <= i < items.len() implies #[trigger] items[i] is Atom by {
            if i > 0 {
                assert(items[i] == atoms_of(atom.args)[i - 1]);
            }
        }
    }
    assert(atom_texts(items.skip(1)) =~= atom.args) by {
        assert forall|i: int| 0 <= i < atom.args.len() implies atom_texts(items.skip(1))[i]
            == atom.args[i] by {
            assert(items.skip(1)[i] == atoms_of(atom.args)[i]);
        }
    }
}

/// A fluent that is written is read as the fluent.
pub proof fn lemma_init_fluent(f: FluentView, predicates: Seq<PredicateView>)
    requires
        -1_000_000_000_000_000_000 < f.value < 1_000_000_000_000_000_000,
    ensures
        init_entry_of(fluent_tree(f), predicates) == Ok::<InitEntry, Fault>(InitEntry::Assigns(f)),
{
    lemma_action_words();
    let items = fluent_tree(f)->List_0;
    assert(items[0] == Tree::Atom("="@));
    assert(items[1] == atom_tree(f.function, f.args));
    assert(items[2] == Tree::Atom(signed_text(f.value as i64)));
    lemma_signed_text_is_read_back(f.value as i64);
    let target = seq![Tree::Atom(f.function)] + atoms_of(f.args);
    assert(target[0] == Tree::Atom(f.function));
    assert(all_atoms(target)) by {
        assert forall|i: int| 0 <= i < target.len() implies #[trigger] target[i] is Atom by {
            if i > 0 {
                assert(target[i] == atoms_of(f.args)[i - 1]);
            }
        }
    }
    assert(atom_texts(target.skip(1)) =~= f.args) by {
        assert forall|i: int| 0 <= i < f.args.len() implies atom_texts(target.skip(1))[i]
            == f.args[i] by {
            assert(target.skip(1)[i] == atoms_of(f.args)[i]);
        }
    }
    assert(assignment_of(items) == Ok::<FluentView, Fault>(f));
}

/// The initial state that is written is read back: first the atoms that
/// hold, then the fluents.
pub proof fn lemma_init_is_read_back(
    atoms: Seq<GroundAtom>,
    fluents: Seq<FluentView>,
    predicates: Seq<PredicateView>,
    n: int,
)
    requires
        writable_atoms(atoms, predicates),
        writable_fluents(fluents),
        0 <= n <= atoms.len() + fluents.len(),
    ensures
        ({
            let section = section_tree(":init"@, atom_trees(atoms) + fluent_trees(fluents))->List_0;
            &&& init_atoms_of(section, predicates, 1 + n) == Ok::<Seq<GroundAtom>, Fault>(
                if n <= atoms.len() {
                    atoms.take(n)
                } else {
                    atoms
                },
            )
            &&& init_fluents_of(section, predicates, 1 + n) == (if n <= atoms.len() {
                Seq::empty()
            } else {
                fluents.take(n - atoms.len())
            })
        }),
    decreases n,
{
    let entries = atom_trees(atoms) + fluent_trees(fluents);
    lemma_section_head(":init"@, entries, ":init"@);
    let section = section_tree(":init"@, entries)->List_0;
    if n > 0 {
        lemma_init_is_read_back(atoms, fluents, predicates, n - 1);
        assert(section[(n - 1) + 1] == entries[n - 1]);
        if n <= atoms.len() {
            let a = atoms[n - 1];
            assert(entries[n - 1] == atom_tree(a.predicate, a.args));
            lemma_init_atom(a, predicates);
            assert(atoms.take(n) =~= atoms.take(n - 1).push(a));
        } else {
            let k = n - 1 - atoms.len();
            let f = fluents[k];
            assert(entries[n - 1] == fluent_tree(f));
            lemma_init_fluent(f, predicates);
            assert(atoms.take(atoms.len() as int) =~= atoms);
            assert(fluents.take(k + 1) =~= fluents.take(k).push(f));
            assert(fluents.take(0) =~= Seq::<FluentView>::empty());
        }
    } else {
        assert(atoms.take(0) =~= Seq::<GroundAtom>::empty());
    }
}

/// The conditions that the formulas of literals list are the literals.
pub proof fn lemma_conditions_of_literals(literals: Seq<Literal>, n: int)
    requires
        writable_literals(literals),
        0 <= n <= literals.len(),
    ensures
        conditions_of_parts(literal_formulas(literals), n) == literals.take(n),
    decreases n,
{
    if n > 0 {
        lemma_conditions_of_literals(literals, n - 1);
        lemma_literal_tree_formula(literals[n - 1]);
        assert(literal_formulas(literals)[n - 1] == literal_formula(literals[n - 1]));
        assert(literals.take(n) =~= literals.take(n - 1) + seq![literals[n - 1]]);
    } else {
        assert(literals.take(0) =~= Seq::<Literal>::empty());
    }
}

/// The goal that is written is read back.
pub proof fn lemma_goal_is_read_back(goal: Seq<Literal>, predicates: Seq<PredicateView>)
    requires
        writable_literals(goal),
        all_declared(goal, predicates),
    ensures
        ({
            let written = section_tree("and"@, literal_trees(goal));
            &&& formula_of(written) == Ok::<Formula, Fault>(Formula::And(literal_formulas(goal)))
            &&& condition_literals(Formula::And(literal_formulas(goal))) == goal
            &&& undeclared_in(goal, predicates, goal.len() as int) is None
        }),
{
    lemma_formula_words();
    let parts = literal_formulas(goal);
    let items = seq![Tree::Atom("and"@)] + literal_trees(goal);
    assert(items[0] == Tree::Atom("and"@));
    assert forall|i: int| 0 <= i < parts.len() implies formula_of(#[trigger] items[i + 1])
        == Ok::<Formula, Fault>(parts[i]) by {
        lemma_literal_tree_formula(goal[i]);
        assert(items[i + 1] == literal_tree(goal[i]));
    }
    lemma_formulas_of_items(items, parts, items.len() as int);
    assert(parts.take(parts.len() as int) =~= parts);
    lemma_conditions_of_literals(goal, goal.len() as int);
    assert(goal.take(goal.len() as int) =~= goal);
    lemma_none_undeclared(goal, predicates, goal.len() as int);
}

/// The items of the `define` form of a problem that is written.
pub open spec fn problem_items(task: TaskView) -> Seq<Tree> {
    problem_tree(task)->List_0
}

/// The atoms that hold in the initial state of a task, in the order of their
/// numbers.
pub open spec fn held(task: TaskView) -> Seq<GroundAtom> {
    held_atoms(task.facts, task.initial_state.facts, task.facts.len() as int)
}

/// The problem of a task as it is read from the problem that is written.
pub open spec fn written_problem(task: TaskView) -> ProblemView {
    ProblemView {
        name: "task"@,
        objects: task.objects,
        init_atoms: held(task),
        init_fluents: task.initial_state.numeric_values,
        goal: task.goal_conditions,
    }
}

/// A problem that can be written.
pub open spec fn writable_problem(task: TaskView) -> bool {
    &&& writable_objects(task.objects)
    &&& writable_atoms(held(task), task.predicates)
    &&& writable_fluents(task.initial_state.numeric_values)
    &&& writable_literals(task.goal_conditions)
    &&& all_declared(task.goal_conditions, task.predicates)
}

/// The tree of a problem that is written is read as the problem that was
/// written.
pub proof fn lemma_problem_is_read_back(task: TaskView)
    requires
        writable_problem(task),
    ensures
        define_items(seq![problem_tree(task)]) == Ok::<Seq<Tree>, Fault>(problem_items(task)),
        problem_of(problem_items(task), task.predicates) == Ok::<ProblemView, Fault>(
            written_problem(task),
        ),
{
    lemma_problem_words();
    lemma_domain_words();
    let items = problem_items(task);
    let name = seq![Tree::Atom("task"@)];
    let domain = name_items(task.domain_name);
    let objects = parameter_trees(task.objects, task.objects.len() as int);
    lemma_holding_trees(task.facts, task.initial_state.facts, task.facts.len() as int);
    let entries = atom_trees(held(task)) + fluent_trees(task.initial_state.numeric_values);
    let wanted = seq![section_tree("and"@, literal_trees(task.goal_conditions))];
    assert(items.len() == 6);
    assert(items[0] == Tree::Atom("define"@));
    assert(items[1] == section_tree("problem"@, name));
    assert(items[2] == section_tree(":domain"@, domain));
    assert(items[3] == section_tree(":objects"@, objects));
    assert(items[4] == section_tree(":init"@, entries));
    assert(items[5] == section_tree(":goal"@, wanted));
    assert(has_head(problem_tree(task), "define"@));
    lemma_section_head("problem"@, name, "problem"@);
    lemma_section_head("problem"@, name, ":objects"@);
    lemma_section_head("problem"@, name, ":init"@);
    lemma_section_head("problem"@, name, ":goal"@);
    lemma_section_head(":domain"@, domain, ":objects"@);
    lemma_section_head(":domain"@, domain, ":init"@);
    lemma_section_head(":domain"@, domain, ":goal"@);
    lemma_section_head(":objects"@, objects, ":objects"@);
    lemma_section_head(":objects"@, objects, ":init"@);
    lemma_section_head(":objects"@, objects, ":goal"@);
    lemma_section_head(":init"@, entries, ":init"@);
    lemma_section_head(":init"@, entries, ":goal"@);
    lemma_section_head(":goal"@, wanted, ":goal"@);
    assert(section_index(items, "problem"@, 1) == 1);
    assert(section_index(items, ":objects"@, 1) == 3) by {
        assert(section_index(items, ":objects"@, 3) == 3);
        assert(section_index(items, ":objects"@, 2) == 3);
    }
    assert(section_index(items, ":init"@, 1) == 4) by {
        assert(section_index(items, ":init"@, 4) == 4);
        assert(section_index(items, ":init"@, 3) == 4);
        assert(section_index(items, ":init"@, 2) == 4);
    }
    assert(section_index(items, ":goal"@, 1) == 5) by {
        assert(section_index(items, ":goal"@, 5) == 5);
        assert(section_index(items, ":goal"@, 4) == 5);
        assert(section_index(items, ":goal"@, 3) == 5);
        assert(section_index(items, ":goal"@, 2) == 5);
    }
    assert(name_in(items, "problem"@) == "task"@) by {
        assert(items[1]->List_0[1] == name[0]);
    }
    lemma_objects_are_read_back(task.objects, task.objects.len() as int);
    assert(task.objects.take(task.objects.len() as int) =~= task.objects);
    let total = held(task).len() + task.initial_state.numeric_values.len();
    lemma_init_is_read_back(
        held(task),
        task.initial_state.numeric_values,
        task.predicates,
        total as int,
    );
    assert(held(task).take(held(task).len() as int) =~= held(task));
    assert(task.initial_state.numeric_values.take(
        task.initial_state.numeric_values.len() as int,
    ) =~= task.initial_state.numeric_values);
    assert(task.initial_state.numeric_values.take(0) =~= Seq::<FluentView>::empty());
    lemma_goal_is_read_back(task.goal_conditions, task.predicates);
    assert(items[5]->List_0[1] == wanted[0]);
}

/// The text of a duration is a plain atom.
pub proof fn lemma_duration_text_is_plain(ticks: u64)
    ensures
        simple_atom(duration_text(ticks)),
        plain_atom(duration_text(ticks)),
{
    let w = (ticks / 1_000_000) as nat;
    let f = (ticks % 1_000_000) as nat;
    lemma_digits_of(w);
    lemma_padded(f, 6);
    lemma_trimmed(padded(f, 6));
    let whole = digits_of(w);
    let fraction = trimmed(padded(f, 6));
    let s = duration_text(ticks);
    assert forall|i: int| 0 <= i < s.len() implies plain_char(#[trigger] s[i]) by {
        if i < whole.len() {
            assert(s[i] == whole[i]);
            assert(is_digit(whole[i]));
        } else if i == whole.len() {
            assert(s[i] == '.');
        } else {
            assert(s[i] == fraction[i - whole.len() - 1]);
            assert(is_digit(fraction[i - whole.len() - 1]));
        }
    }
    lemma_simple_is_plain(s);
}

/// The text of a value is a plain atom.
pub proof fn lemma_signed_text_is_plain(ticks: i64)
    ensures
        plain_atom(signed_text(ticks)),
{
    if ticks < 0 {
        let size = (-(ticks as int)) as u64;
        lemma_duration_text_is_plain(size);
        let s = signed_text(ticks);
        assert forall|i: int| 0 <= i < s.len() implies plain_char(#[trigger] s[i]) by {
            if i > 0 {
                assert(s[i] == duration_text(size)[i - 1]);
                assert(plain_char(duration_text(size)[i - 1]));
            }
        }
        lemma_simple_is_plain(s);
    } else {
        lemma_duration_text_is_plain(ticks as u64);
    }
}

pub open spec fn plain_atoms(names: Seq<Seq<char>>) -> bool {
    forall|i: int| 0 <= i < names.len() ==> plain_atom(#[trigger] names[i])
}

pub open spec fn printable_all(items: Seq<Tree>) -> bool {
    forall|i: int| 0 <= i < items.len() ==> printable(#[trigger] items[i])
}

pub proof fn lemma_printable_concat(a: Seq<Tree>, b: Seq<Tree>)
    requires
        printable_all(a),
        printable_all(b),
    ensures
        printable_all(a + b),
{
    let s = a + b;
    assert forall|i: int| 0 <= i < s.len() implies printable(#[trigger] s[i]) by {
        if i < a.len() {
            assert(s[i] == a[i]);
        } else {
            assert(s[i] == b[i - a.len()]);
        }
    }
}

pub proof fn lemma_printable_section(head: Seq<char>, items: Seq<Tree>)
    requires
        plain_atom(head),
        printable_all(items),
    ensures
        printable(section_tree(head, items)),
{
    lemma_printable_concat(seq![Tree::Atom(head)], items);
}

pub proof fn lemma_printable_atoms(names: Seq<Seq<char>>)
    requires
        plain_atoms(names),
    ensures
        printable_all(atoms_of(names)),
{
    assert forall|i: int| 0 <= i < names.len() implies printable(#[trigger] atoms_of(names)[i]) by {
        assert(plain_atom(names[i]));
    }
}

pub proof fn lemma_printable_literal(l: Literal)
    requires
        writable_literal(l),
    ensures
        printable(literal_tree(l)),
        printable(atom_tree(l.predicate, l.args)),
{
    lemma_formula_words();
    lemma_printable_atoms(l.args);
    lemma_printable_section(l.predicate, atoms_of(l.args));
    if l.negated {
        let items = seq![Tree::Atom("not"@), atom_tree(l.predicate, l.args)];
        assert forall|i: int| 0 <= i < items.len() implies printable(#[trigger] items[i]) by {}
    }
}

pub proof fn lemma_printable_timed(phase: Phase, literals: Seq<Literal>)
    requires
        writable_literals(literals),
    ensures
        printable_all(timed_trees(first_word(phase), second_word(phase), literals)),
{
    lemma_formula_words();
    let trees = timed_trees(first_word(phase), second_word(phase), literals);
    assert forall|i: int| 0 <= i < trees.len() implies printable(#[trigger] trees[i]) by {
        lemma_printable_literal(literals[i]);
        let items = seq![
            Tree::Atom(first_word(phase)),
            Tree::Atom(second_word(phase)),
            literal_tree(literals[i]),
        ];
        assert forall|k: int| 0 <= k < items.len() implies printable(#[trigger] items[k]) by {}
    }
}

/// Parameters and objects whose names and types are plain.
pub open spec fn plain_parameters(parameters: Seq<ParameterView>) -> bool {
    forall|i: int|
        0 <= i < parameters.len() ==> plain_atom((#[trigger] parameters[i]).name) && (
        parameters[i].type_tag is Some ==> plain_atom(parameters[i].type_tag->0))
}

pub proof fn lemma_printable_parameters(parameters: Seq<ParameterView>, n: int)
    requires
        plain_parameters(parameters),
        0 <= n <= parameters.len(),
    ensures
        printable_all(parameter_trees(parameters, n)),
    decreases n,
{
    if n > 0 {
        lemma_printable_parameters(parameters, n - 1);
        let p = parameters[n - 1];
        assert(plain_atom(p.name));
        let dash = seq!['-'];
        lemma_simple_is_plain(dash);
        let own = match p.type_tag {
            Some(t) => seq![Tree::Atom(p.name), Tree::Atom(dash), Tree::Atom(t)],
            None => seq![Tree::Atom(p.name)],
        };
        assert forall|k: int| 0 <= k < own.len() implies printable(#[trigger] own[k]) by {}
        lemma_printable_concat(parameter_trees(parameters, n - 1), own);
    }
}

/// What holds of the words by which texts are written: they are plain.
pub proof fn lemma_words_are_plain()
    ensures
        plain_atom("define"@),
        plain_atom("domain"@),
        plain_atom("problem"@),
        plain_atom("task"@),
        plain_atom(":domain"@),
        plain_atom(":requirements"@),
        plain_atom(":types"@),
        plain_atom(":predicates"@),
        plain_atom(":durative-action"@),
        plain_atom(":parameters"@),
        plain_atom(":duration"@),
        plain_atom(":condition"@),
        plain_atom(":effect"@),
        plain_atom(":objects"@),
        plain_atom(":init"@),
        plain_atom(":goal"@),
        plain_atom("="@),
        plain_atom("?duration"@),
{
    reveal_strlit("define");
    reveal_strlit("domain");
    reveal_strlit("problem");
    reveal_strlit("task");
    reveal_strlit(":domain");
    reveal_strlit(":requirements");
    reveal_strlit(":types");
    reveal_strlit(":predicates");
    reveal_strlit(":durative-action");
    reveal_strlit(":parameters");
    reveal_strlit(":duration");
    reveal_strlit(":condition");
    reveal_strlit(":effect");
    reveal_strlit(":objects");
    reveal_strlit(":init");
    reveal_strlit(":goal");
    reveal_strlit("=");
    reveal_strlit("?duration");
    lemma_simple_is_plain("define"@);
    lemma_simple_is_plain("domain"@);
    lemma_simple_is_plain("problem"@);
    lemma_simple_is_plain("task"@);
    lemma_simple_is_plain(":domain"@);
    lemma_simple_is_plain(":requirements"@);
    lemma_simple_is_plain(":types"@);
    lemma_simple_is_plain(":predicates"@);
    lemma_simple_is_plain(":durative-action"@);
    lemma_simple_is_plain(":parameters"@);
    lemma_simple_is_plain(":duration"@);
    lemma_simple_is_plain(":condition"@);
    lemma_simple_is_plain(":effect"@);
    lemma_simple_is_plain(":objects"@);
    lemma_simple_is_plain(":init"@);
    lemma_simple_is_plain(":goal"@);
    lemma_simple_is_plain("="@);
    lemma_simple_is_plain("?duration"@);
}

pub proof fn lemma_printable_action(
    a: ActionView,
    unsupported: bool,
    predicates: Seq<PredicateView>,
)
    requires
        writable_action(a, predicates),
        plain_parameters(a.parameters),
    ensures
        printable(action_tree(a, unsupported)),
{
    lemma_words_are_plain();
    lemma_formula_words();
    lemma_printable_parameters(a.parameters, a.parameters.len() as int);
    lemma_duration_text_is_plain(a.duration as u64);
    lemma_printable_timed(Phase::Start, a.conditions_start);
    lemma_printable_timed(Phase::OverAll, a.conditions_over_all);
    lemma_printable_timed(Phase::End, a.conditions_end);
    lemma_printable_timed(Phase::Start, a.effects_start);
    lemma_printable_timed(Phase::End, a.effects_end);
    let items = action_tree(a, unsupported)->List_0;
    assert(items[5] == duration_tree(a.duration, unsupported));
    let stated = items[5]->List_0;
    assert forall|k: int| 0 <= k < stated.len() implies printable(#[trigger] stated[k]) by {}
    let and_word = seq![Tree::Atom("and"@)];
    assert(printable_all(and_word));
    lemma_printable_concat(and_word, timed_trees("at"@, "start"@, a.conditions_start));
    lemma_printable_concat(
        and_word + timed_trees("at"@, "start"@, a.conditions_start),
        timed_trees("over"@, "all"@, a.conditions_over_all),
    );
    lemma_printable_concat(
        and_word + timed_trees("at"@, "start"@, a.conditions_start) + timed_trees(
            "over"@,
            "all"@,
            a.conditions_over_all,
        ),
        timed_trees("at"@, "end"@, a.conditions_end),
    );
    lemma_printable_concat(and_word, timed_trees("at"@, "start"@, a.effects_start));
    lemma_printable_concat(
        and_word + timed_trees("at"@, "start"@, a.effects_start),
        timed_trees("at"@, "end"@, a.effects_end),
    );
    assert forall|k: int| 0 <= k < items.len() implies printable(#[trigger] items[k]) by {}
}

/// A task whose names are plain.
pub open spec fn plain_names(task: TaskView) -> bool {
    &&& (task.domain_name.len() > 0 ==> plain_atom(task.domain_name))
    &&& plain_atoms(task.requirements)
    &&& plain_atoms(task.types)
    &&& forall|i: int|
        0 <= i < task.predicates.len() ==> plain_atom((#[trigger] task.predicates[i]).name)
            && plain_parameters(task.predicates[i].parameters)
    &&& forall|i: int|
        0 <= i < task.actions.len() ==> plain_parameters((#[trigger] task.actions[i]).parameters)
    &&& plain_parameters(task.objects)
    &&& forall|i: int| 0 <= i < held(task).len() ==> plain_atoms((#[trigger] held(task)[i]).args)
    &&& forall|i: int|
        0 <= i < task.initial_state.numeric_values.len() ==> plain_atom(
            (#[trigger] task.initial_state.numeric_values[i]).function,
        ) && plain_atoms(task.initial_state.numeric_values[i].args)
}

pub proof fn lemma_printable_domain(task: TaskView)
    requires
        plain_names(task),
        writable_domain(task),
    ensures
        printable(domain_tree(task)),
{
    lemma_words_are_plain();
    lemma_domain_items(task);
    let items = domain_items(task);
    lemma_printable_atoms(task.requirements);
    lemma_printable_atoms(task.types);
    let name = name_items(task.domain_name);
    assert(printable_all(name));
    lemma_printable_section("domain"@, name);
    lemma_printable_section(":requirements"@, atoms_of(task.requirements));
    lemma_printable_section(":types"@, atoms_of(task.types));
    let declared = predicate_trees(task.predicates);
    assert forall|i: int| 0 <= i < declared.len() implies printable(#[trigger] declared[i]) by {
        let p = task.predicates[i];
        assert(plain_atom(p.name) && plain_parameters(p.parameters));
        lemma_printable_parameters(p.parameters, p.parameters.len() as int);
        lemma_printable_section(p.name, parameter_trees(p.parameters, p.parameters.len() as int));
    }
    lemma_printable_section(":predicates"@, declared);
    assert forall|k: int| 0 <= k < items.len() implies printable(#[trigger] items[k]) by {
        if k >= 5 {
            let a = task.actions[k - 5];
            let flag = warned(task.warnings, k - 5, task.warnings.len() as int);
            assert(items[5 + (k - 5)] == action_tree(a, flag));
            assert(writable_action(a, task.predicates));
            assert(plain_parameters(a.parameters));
            lemma_printable_action(a, flag, task.predicates);
        }
    }
}

pub proof fn lemma_printable_problem(task: TaskView)
    requires
        plain_names(task),
        writable_problem(task),
    ensures
        printable(problem_tree(task)),
{
    lemma_words_are_plain();
    lemma_formula_words();
    let items = problem_items(task);
    let name = seq![Tree::Atom("task"@)];
    let domain = name_items(task.domain_name);
    assert(printable_all(name));
    assert(printable_all(domain));
    lemma_printable_section("problem"@, name);
    lemma_printable_section(":domain"@, domain);
    lemma_printable_parameters(task.objects, task.objects.len() as int);
    lemma_printable_section(
        ":objects"@,
        parameter_trees(task.objects, task.objects.len() as int),
    );
    lemma_holding_trees(task.facts, task.initial_state.facts, task.facts.len() as int);
    let atoms = atom_trees(held(task));
    assert forall|i: int| 0 <= i < atoms.len() implies printable(#[trigger] atoms[i]) by {
        let a = held(task)[i];
        assert(plain_atom(a.predicate));
        assert(plain_atoms(a.args));
        lemma_printable_atoms(a.args);
        lemma_printable_section(a.predicate, atoms_of(a.args));
    }
    let fluents = fluent_trees(task.initial_state.numeric_values);
    assert forall|i: int| 0 <= i < fluents.len() implies printable(#[trigger] fluents[i]) by {
        let f = task.initial_state.numeric_values[i];
        assert(plain_atom(f.function) && plain_atoms(f.args));
        lemma_printable_atoms(f.args);
        lemma_printable_section(f.function, atoms_of(f.args));
        lemma_signed_text_is_plain(f.value as i64);
        let parts = fluent_tree(f)->List_0;
        assert forall|k: int| 0 <= k < parts.len() implies printable(#[trigger] parts[k]) by {}
    }
    lemma_printable_concat(atoms, fluents);
    lemma_printable_section(":init"@, atoms + fluents);
    let wanted = literal_trees(task.goal_conditions);
    assert forall|i: int| 0 <= i < wanted.len() implies printable(#[trigger] wanted[i]) by {
        lemma_printable_literal(task.goal_conditions[i]);
    }
    lemma_printable_section("and"@, wanted);
    let goal = seq![section_tree("and"@, wanted)];
    assert(printable_all(goal));
    lemma_printable_section(":goal"@, goal);
    assert forall|k: int| 0 <= k < items.len() implies printable(#[trigger] items[k]) by {}
}

/// A task that can be written and read back: its names are plain, its domain
/// and its problem can be written, its fact table is the one that numbering
/// the atoms of its initial state, of its goal and of its actions gives, the
/// facts that hold are those of its initial state, it has no mutex groups,
/// its warnings are those that its actions raise as they are written, and
/// every type it uses is declared.
pub open spec fn writable(task: TaskView) -> bool {
    &&& plain_names(task)
    &&& writable_domain(task)
    &&& writable_problem(task)
    &&& task.facts == fact_table(written_problem(task), task.actions)
    &&& task.initial_state.facts == Seq::new(
        task.facts.len(),
        |i: int| i < initial_count(written_problem(task)),
    )
    &&& task.mutex_groups.len() == 0
    &&& task.warnings == duration_warnings(written_raws(task), task.actions.len() as int)
    &&& unknown_type_of(task) is None
}

/// Compiling the texts that are written of a task gives the task again.
pub proof fn lemma_written_task_compiles(task: TaskView)
    requires
        writable(task),
    ensures
        task_of(domain_text(task), problem_text(task)) == Ok::<TaskView, Fault>(task),
{
    lemma_printable_domain(task);
    lemma_printable_problem(task);
    lemma_printed_tree_is_read_back(domain_tree(task));
    lemma_printed_tree_is_read_back(problem_tree(task));
    lemma_domain_is_read_back(task);
    lemma_problem_is_read_back(task);
    let domain = written_domain(task);
    let problem = written_problem(task);
    assert(domain_of_text(domain_text(task)) == Ok::<DomainView, Fault>(domain));
    assert(problem_of_text(problem_text(task), task.predicates) == Ok::<ProblemView, Fault>(
        problem,
    ));
    let again = assembled(domain, task.actions, problem);
    assert(again.mutex_groups =~= task.mutex_groups);
    assert(again.warnings == task.warnings);
    assert(again.initial_state == task.initial_state);
    assert(again == task);
}

} // verus!
