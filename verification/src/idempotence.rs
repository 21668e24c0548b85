//! The law of compiling twice: what a compiled task is written as compiles
//! to the task again.

use vstd::prelude::*;
use crate::actions::{
    conditions_at, converted, converted_all, duration_warnings, effects_at, is_declared,
    raw_conditions, raw_effects, undeclared_in,
};
use crate::compile::{
    atoms_interned, fact_index, fact_table, initial_count, interned, same_atom, task_of,
    lemma_fact_index_bounds, lemma_numbering_is_stable,
};
use crate::domain::{
    DEFAULT_DURATION, PDDLDuration, RawAction, action_parameters_of, domain_of_text, formula_under,
    has_head, is_dash, is_supported_requirement, is_variable, keyword_index, keyword_value,
    parameters_from, predicates_of, raw_action_of, raw_actions_of, requirements_of, section_index,
    section_of, types_of,
};
use crate::error::{Fault, WarningView};
use crate::formula::{
    Formula, Relation, all_atoms, atom_texts, duration_constant, formula_of, formulas_of,
    is_temporal_shape, relation_of,
};
use crate::lexer::{
    TokenKind, TokenView, in_comment, is_atom_char, lex, lex_prefix, quoted, strip_comments,
};
use crate::problem::{
    InitEntry, init_atoms_of, init_entry_of, init_fluents_of, is_name_position, objects_of,
    problem_of_text, type_after,
};
use crate::reading::{plain_atom, printable, lemma_atom_char_of_longer, lemma_quoted_of_longer};
use crate::serialise::{domain_text, problem_text, warned};
use crate::sexpr::{FrameView, Tree, shift, stack_after, text_trees};
use crate::temporal_task::{
    GroundAtom, Literal, ParameterView, Phase, PredicateView, TaskView, condition_literals,
    conditions_of_parts, effect_literals, effects_of_parts, phase_conditions,
    phase_conditions_of_parts, phase_effects, phase_effects_of_parts, lemma_conditions_partitioned,
    lemma_effects_partitioned,
};
use crate::text::{signed_decimal_ticks, lemma_decimal_ticks_bound};
use crate::writing::{
    all_declared, held, held_atoms, ordinary, plain_atoms, plain_parameters, printable_all,
    warned_are_defaulted, writable, writable_action, writable_actions, writable_atoms,
    writable_fluents, writable_literal, writable_literals, writable_objects, writable_parameter,
    writable_parameters, writable_predicates, writable_problem, written_problem, written_raws,
    lemma_written_task_compiles,
};

verus! {

/// A table in which no fact has two numbers.
pub open spec fn distinct(table: Seq<GroundAtom>) -> bool {
    forall|i: int, j: int|
        0 <= i < j < table.len() ==> !same_atom(#[trigger] table[i], #[trigger] table[j])
}

/// An atom that no fact of the table is has no number.
pub proof fn lemma_fact_index_none(table: Seq<GroundAtom>, atom: GroundAtom, from: int)
    requires
        0 <= from,
    ensures
        (forall|i: int| from <= i < table.len() ==> !same_atom(#[trigger] table[i], atom))
            <==> fact_index(table, atom, from) == -1,
    decreases table.len() - from,
{
    if from < table.len() {
        lemma_fact_index_none(table, atom, from + 1);
        lemma_fact_index_bounds(table, atom, from + 1);
        if fact_index(table, atom, from) == -1 {
            assert(!same_atom(table[from], atom));
            assert forall|i: int| from <= i < table.len() implies !same_atom(
                #[trigger] table[i],
                atom,
            ) by {
                if i > from {
                }
            }
        }
    }
}

pub proof fn lemma_interned_distinct(table: Seq<GroundAtom>, atom: GroundAtom)
    requires
        distinct(table),
    ensures
        distinct(interned(table, atom)),
{
    lemma_fact_index_none(table, atom, 0);
    lemma_fact_index_bounds(table, atom, 0);
    let after = interned(table, atom);
    assert forall|i: int, j: int| 0 <= i < j < after.len() implies !same_atom(
        #[trigger] after[i],
        #[trigger] after[j],
    ) by {
        if j < table.len() {
            assert(!same_atom(table[i], table[j]));
        } else {
            assert(!same_atom(table[i], atom));
        }
    }
}

/// Numbering atoms gives a table in which no fact has two numbers.
pub proof fn lemma_atoms_interned_distinct(atoms: Seq<GroundAtom>, n: int)
    ensures
        distinct(atoms_interned(Seq::empty(), atoms, n)),
    decreases n,
{
    if !(n <= 0 || n > atoms.len()) {
        lemma_atoms_interned_distinct(atoms, n - 1);
        lemma_interned_distinct(atoms_interned(Seq::empty(), atoms, n - 1), atoms[n - 1]);
    }
}

/// Numbering the facts of a table in which no fact has two numbers gives the
/// table.
pub proof fn lemma_renumbering(table: Seq<GroundAtom>, n: int)
    requires
        distinct(table),
        0 <= n <= table.len(),
    ensures
        atoms_interned(Seq::empty(), table, n) == table.take(n),
    decreases n,
{
    if n > 0 {
        lemma_renumbering(table, n - 1);
        let before = table.take(n - 1);
        assert forall|i: int| 0 <= i < before.len() implies !same_atom(
            #[trigger] before[i],
            table[n - 1],
        ) by {
            assert(before[i] == table[i]);
            assert(!same_atom(table[i], table[n - 1]));
        }
        lemma_fact_index_none(before, table[n - 1], 0);
        assert(table.take(n) =~= before.push(table[n - 1]));
    } else {
        assert(table.take(0) =~= Seq::<GroundAtom>::empty());
    }
}

/// Where the facts that hold are the first `c` of the table, the atoms that
/// hold are the first `c` facts.
pub proof fn lemma_held_prefix(facts: Seq<GroundAtom>, c: int, n: int)
    requires
        0 <= c <= facts.len(),
        0 <= n <= facts.len(),
    ensures
        held_atoms(facts, Seq::new(facts.len(), |i: int| i < c), n) == facts.take(
            if n < c {
                n
            } else {
                c
            },
        ),
    decreases n,
{
    let bits = Seq::new(facts.len(), |i: int| i < c);
    if n > 0 {
        lemma_held_prefix(facts, c, n - 1);
        if n <= c {
            assert(bits[n - 1]);
            assert(facts.take(n) =~= facts.take(n - 1).push(facts[n - 1]));
        } else {
            assert(!bits[n - 1]);
        }
    } else {
        assert(facts.take(0) =~= Seq::<GroundAtom>::empty());
    }
}

/// A text whose comments are blanked has no `;`.
pub proof fn lemma_cleaned_has_no_semicolon(s: Seq<char>)
    ensures
        forall|i: int| 0 <= i < strip_comments(s).len() ==> #[trigger] strip_comments(s)[i] != ';',
{
    let cleaned = strip_comments(s);
    assert forall|i: int| 0 <= i < cleaned.len() implies #[trigger] cleaned[i] != ';' by {
        if s[i] == ';' {
            assert(in_comment(s, i));
        }
    }
}

/// Behind a character that is none of an atom, a text is outside quotes.
pub proof fn lemma_outside_after_gap(s: Seq<char>, n: int)
    requires
        0 <= n <= s.len(),
        !is_atom_char(s, n - 1),
    ensures
        !quoted(s, n),
{
}

/// An atom under way: it is not empty, every character of it is one of an
/// atom, none is a `;`, and it ends inside quotes or outside as said.
pub open spec fn atom_so_far(a: Seq<char>, inside: bool) -> bool {
    &&& a.len() > 0
    &&& quoted(a, a.len() as int) == inside
    &&& forall|i: int| 0 <= i < a.len() ==> is_atom_char(a, i) && #[trigger] a[i] != ';'
}

/// Tokens all of whose atoms are read back as they are written, but for the
/// last, where it is under way.
pub open spec fn sound_tokens(tokens: Seq<TokenView>, under_way: bool, inside: bool) -> bool {
    forall|i: int|
        0 <= i < tokens.len() && (#[trigger] tokens[i]).kind == TokenKind::Atom ==> (if under_way
            && i == tokens.len() - 1 {
            atom_so_far(tokens[i].text, inside)
        } else {
            plain_atom(tokens[i].text)
        })
}

/// Tokens all of whose atoms are read back as they are written.
pub open spec fn plain_tokens(tokens: Seq<TokenView>) -> bool {
    forall|i: int|
        0 <= i < tokens.len() && (#[trigger] tokens[i]).kind == TokenKind::Atom ==> plain_atom(
            tokens[i].text,
        )
}

/// One more character of an atom under way.
pub proof fn lemma_atom_grows(a: Seq<char>, inside: bool, c: char)
    requires
        atom_so_far(a, inside),
        c != ';',
        inside || c == '"' || !(crate::text::is_space(c) || c == '(' || c == ')'),
    ensures
        atom_so_far(a.push(c), inside != (c == '"')),
{
    let longer = a.push(c);
    assert(longer =~= a + seq![c]);
    lemma_quoted_of_longer(a, seq![c], a.len() as int);
    assert forall|i: int| 0 <= i < longer.len() implies is_atom_char(longer, i)
        && #[trigger] longer[i] != ';' by {
        if i < a.len() {
            lemma_atom_char_of_longer(a, seq![c], i);
            assert(longer[i] == a[i]);
        }
    }
}

/// The atoms of a text without `;` are read back as they are written, but
/// for the last, where it is under way.
pub proof fn lemma_tokens_are_sound(s: Seq<char>, n: int)
    requires
        forall|i: int| 0 <= i < s.len() ==> #[trigger] s[i] != ';',
        0 <= n <= s.len(),
    ensures
        sound_tokens(lex_prefix(s, n), is_atom_char(s, n - 1), quoted(s, n)),
        is_atom_char(s, n - 1) ==> lex_prefix(s, n).len() > 0 && lex_prefix(s, n).last().kind
            == TokenKind::Atom,
    decreases n,
{
    if n > 0 {
        lemma_tokens_are_sound(s, n - 1);
        let before = lex_prefix(s, n - 1);
        let after = lex_prefix(s, n);
        let c = s[n - 1];
        assert(c != ';');
        if is_atom_char(s, n - 1) {
            if is_atom_char(s, n - 2) && before.len() > 0 {
                let old = before.last().text;
                lemma_atom_grows(old, quoted(s, n - 1), c);
                assert forall|i: int|
                    0 <= i < after.len() && (#[trigger] after[i]).kind
                        == TokenKind::Atom implies (if i == after.len() - 1 {
                    atom_so_far(after[i].text, quoted(s, n))
                } else {
                    plain_atom(after[i].text)
                }) by {
                    if i < after.len() - 1 {
                        assert(after[i] == before[i]);
                    }
                }
            } else {
                lemma_outside_after_gap(s, n - 1);
                let own = seq![c];
                assert(quoted(own, 1) == (quoted(own, 0) != (own[0] == '"')));
                assert(atom_so_far(own, quoted(s, n))) by {
                    assert forall|i: int| 0 <= i < own.len() implies is_atom_char(own, i)
                        && #[trigger] own[i] != ';' by {}
                }
                assert forall|i: int|
                    0 <= i < after.len() && (#[trigger] after[i]).kind
                        == TokenKind::Atom implies (if i == after.len() - 1 {
                    atom_so_far(after[i].text, quoted(s, n))
                } else {
                    plain_atom(after[i].text)
                }) by {
                    if i < after.len() - 1 {
                        assert(after[i] == before[i]);
                    } else {
                        assert(after[i].text =~= own);
                    }
                }
            }
        } else {
            lemma_outside_after_gap(s, n);
            assert(!quoted(s, n - 1));
            assert forall|i: int|
                0 <= i < after.len() && (#[trigger] after[i]).kind == TokenKind::Atom implies plain_atom(
                after[i].text,
            ) by {
                if i < before.len() {
                    assert(after[i] == before[i]);
                }
            }
        }
    }
}

/// A stack all of whose trees are printable.
pub open spec fn printable_stack(stack: Seq<FrameView>) -> bool {
    forall|f: int| 0 <= f < stack.len() ==> printable_all((#[trigger] stack[f]).items)
}

pub proof fn lemma_shift_keeps_printable(stack: Seq<FrameView>, t: TokenView)
    requires
        printable_stack(stack),
        stack.len() >= 1,
        t.kind == TokenKind::Atom ==> plain_atom(t.text),
        shift(stack, t) is Ok,
    ensures
        printable_stack(shift(stack, t)->Ok_0),
        shift(stack, t)->Ok_0.len() >= 1,
{
    let after = shift(stack, t)->Ok_0;
    match t.kind {
        TokenKind::Open => {
            assert forall|f: int| 0 <= f < after.len() implies printable_all(
                (#[trigger] after[f]).items,
            ) by {
                if f < stack.len() {
                    assert(after[f] == stack[f]);
                }
            }
        },
        TokenKind::Atom => {
            let top = stack.last().items;
            let grown = top.push(Tree::Atom(t.text));
            assert(printable_all(top));
            assert forall|k: int| 0 <= k < grown.len() implies printable(#[trigger] grown[k]) by {
                if k < top.len() {
                    assert(grown[k] == top[k]);
                }
            }
            assert forall|f: int| 0 <= f < after.len() implies printable_all(
                (#[trigger] after[f]).items,
            ) by {
                if f < stack.len() - 1 {
                    assert(after[f] == stack[f]);
                }
            }
        },
        TokenKind::Close => {
            let done = stack.last().items;
            let within = stack.drop_last();
            let top = within.last().items;
            let grown = top.push(Tree::List(done));
            assert(printable_all(done));
            assert(within.last() == stack[stack.len() - 2]);
            assert(printable_all(top));
            assert(printable(Tree::List(done)));
            assert forall|k: int| 0 <= k < grown.len() implies printable(#[trigger] grown[k]) by {
                if k < top.len() {
                    assert(grown[k] == top[k]);
                }
            }
            assert forall|f: int| 0 <= f < after.len() implies printable_all(
                (#[trigger] after[f]).items,
            ) by {
                if f < stack.len() - 2 {
                    assert(after[f] == stack[f]);
                }
            }
        },
    }
}

pub proof fn lemma_stack_is_printable(tokens: Seq<TokenView>, n: int)
    requires
        plain_tokens(tokens),
        stack_after(tokens, n) is Ok,
    ensures
        printable_stack(stack_after(tokens, n)->Ok_0),
        stack_after(tokens, n)->Ok_0.len() >= 1,
    decreases n,
{
    if !(n <= 0 || n > tokens.len()) {
        lemma_stack_is_printable(tokens, n - 1);
        lemma_shift_keeps_printable(stack_after(tokens, n - 1)->Ok_0, tokens[n - 1]);
    }
}

/// The trees that are read from a text are printable.
pub proof fn lemma_trees_are_printable(s: Seq<char>)
    requires
        text_trees(s) is Ok,
    ensures
        printable_all(text_trees(s)->Ok_0),
{
    let cleaned = strip_comments(s);
    lemma_cleaned_has_no_semicolon(s);
    lemma_tokens_are_sound(cleaned, cleaned.len() as int);
    let tokens = lex(cleaned)->Ok_0;
    assert(!quoted(cleaned, cleaned.len() as int));
    assert(plain_tokens(tokens));
    lemma_stack_is_printable(tokens, tokens.len() as int);
}

/// A formula all of whose predicates have ordinary names and plain
/// arguments.
pub open spec fn good_formula(f: Formula) -> bool
    decreases f,
{
    match f {
        Formula::Predicate { name, args, negated } => ordinary(name) && plain_atoms(args),
        Formula::And(parts) => forall|i: int|
            0 <= i < parts.len() ==> good_formula(#[trigger] parts[i]),
        Formula::Or(parts) => forall|i: int|
            0 <= i < parts.len() ==> good_formula(#[trigger] parts[i]),
        Formula::Not(inner) => good_formula(*inner),
        Formula::AtStart(inner) => good_formula(*inner),
        Formula::AtEnd(inner) => good_formula(*inner),
        Formula::OverAll(inner) => good_formula(*inner),
        Formula::DurationConstraint { .. } => true,
    }
}

pub open spec fn good_formulas(parts: Seq<Formula>) -> bool {
    forall|i: int| 0 <= i < parts.len() ==> good_formula(#[trigger] parts[i])
}

/// The formula that is read from a printable tree is good.
pub proof fn lemma_formula_is_good(t: Tree)
    requires
        printable(t),
        formula_of(t) is Ok,
    ensures
        good_formula(formula_of(t)->Ok_0),
    decreases t, 0nat,
{
    match t {
        Tree::Atom(_) => {},
        Tree::List(items) => {
            if items.len() > 0 {
                match items[0] {
                    Tree::List(_) => {},
                    Tree::Atom(head) => {
                        assert(printable(items[0]));
                        if crate::text::same_symbol(head, "and"@) || crate::text::same_symbol(
                            head,
                            "or"@,
                        ) {
                            lemma_formulas_are_good(items, items.len() as int);
                        } else if crate::text::same_symbol(head, "not"@) {
                            if items.len() == 2 {
                                assert(printable(items[1]));
                                lemma_formula_is_good(items[1]);
                            }
                        } else if is_temporal_shape(items) {
                            assert(printable(items[2]));
                            if formula_of(items[2]) is Ok {
                                lemma_formula_is_good(items[2]);
                            }
                        } else if relation_of(head) is Some {
                        } else if all_atoms(items) {
                            let args = atom_texts(items.skip(1));
                            assert forall|i: int| 0 <= i < args.len() implies plain_atom(
                                #[trigger] args[i],
                            ) by {
                                assert(items.skip(1)[i] == items[i + 1]);
                                assert(items[i + 1] is Atom);
                                assert(printable(items[i + 1]));
                            }
                        }
                    },
                }
            }
        },
    }
}

pub proof fn lemma_formulas_are_good(items: Seq<Tree>, n: int)
    requires
        printable_all(items),
        formulas_of(items, n) is Ok,
    ensures
        good_formulas(formulas_of(items, n)->Ok_0),
    decreases items, n,
{
    if !(n <= 1 || n > items.len()) {
        lemma_formulas_are_good(items, n - 1);
        assert(printable(items[n - 1]));
        lemma_formula_is_good(items[n - 1]);
        let before = formulas_of(items, n - 1)->Ok_0;
        let after = formulas_of(items, n)->Ok_0;
        assert forall|i: int| 0 <= i < after.len() implies good_formula(#[trigger] after[i]) by {
            if i < before.len() {
                assert(after[i] == before[i]);
            }
        }
    }
}

pub proof fn lemma_writable_concat(a: Seq<Literal>, b: Seq<Literal>)
    requires
        writable_literals(a),
        writable_literals(b),
    ensures
        writable_literals(a + b),
{
    let s = a + b;
    assert forall|i: int| 0 <= i < s.len() implies writable_literal(#[trigger] s[i]) by {
        if i < a.len() {
            assert(s[i] == a[i]);
        } else {
            assert(s[i] == b[i - a.len()]);
        }
    }
}

/// The literals that a good formula lists can be written.
pub proof fn lemma_good_literals(f: Formula)
    requires
        good_formula(f),
    ensures
        writable_literals(condition_literals(f)),
        writable_literals(effect_literals(f)),
        forall|phase: Phase| writable_literals(#[trigger] phase_conditions(f, phase)),
        forall|phase: Phase| writable_literals(#[trigger] phase_effects(f, phase)),
    decreases f, 0nat,
{
    let none = Seq::<Literal>::empty();
    assert(writable_literals(none));
    reveal_with_fuel(good_formula, 2);
    match f {
        Formula::Predicate { name, args, negated } => {
            let l = Literal { predicate: name, args, negated };
            assert(writable_literal(l));
            assert(writable_literals(seq![l]));
            lemma_untimed(f);
            assert forall|phase: Phase| writable_literals(#[trigger] phase_conditions(f, phase)) by {
                assert(phase_conditions(f, phase) == none || phase_conditions(f, phase)
                    == condition_literals(f));
            }
            assert forall|phase: Phase| writable_literals(#[trigger] phase_effects(f, phase)) by {
                assert(phase_effects(f, phase) == none || phase_effects(f, phase)
                    == effect_literals(f));
            }
        },
        Formula::And(parts) => {
            lemma_good_parts(parts, parts.len() as int);
            assert forall|phase: Phase| writable_literals(#[trigger] phase_conditions(f, phase)) by {
                assert(phase_conditions(f, phase) == phase_conditions_of_parts(
                    parts,
                    parts.len() as int,
                    phase,
                ));
            }
            assert forall|phase: Phase| writable_literals(#[trigger] phase_effects(f, phase)) by {
                assert(phase_effects(f, phase) == phase_effects_of_parts(
                    parts,
                    parts.len() as int,
                    phase,
                ));
            }
        },
        Formula::Or(parts) => {
            lemma_good_parts(parts, parts.len() as int);
            lemma_untimed(f);
            assert forall|phase: Phase| writable_literals(#[trigger] phase_conditions(f, phase)) by {
                assert(phase_conditions(f, phase) == none || phase_conditions(f, phase)
                    == condition_literals(f));
            }
            assert forall|phase: Phase| writable_literals(#[trigger] phase_effects(f, phase)) by {
                assert(phase_effects(f, phase) == none || phase_effects(f, phase)
                    == effect_literals(f));
            }
        },
        Formula::Not(inner) => {
            lemma_good_literals(*inner);
            match *inner {
                Formula::Predicate { name, args, negated } => {
                    let l = Literal { predicate: name, args, negated: true };
                    assert(writable_literal(l));
                    assert(writable_literals(seq![l]));
                },
                _ => {},
            }
            lemma_untimed(f);
            assert forall|phase: Phase| writable_literals(#[trigger] phase_conditions(f, phase)) by {
                assert(phase_conditions(f, phase) == none || phase_conditions(f, phase)
                    == condition_literals(f));
            }
            assert forall|phase: Phase| writable_literals(#[trigger] phase_effects(f, phase)) by {
                assert(phase_effects(f, phase) == none || phase_effects(f, phase)
                    == effect_literals(f));
            }
        },
        Formula::AtStart(inner) => {
            lemma_good_literals(*inner);
            assert forall|phase: Phase| writable_literals(#[trigger] phase_conditions(f, phase)) by {
                assert(phase_conditions(f, phase) == none || phase_conditions(f, phase)
                    == condition_literals(*inner));
            }
            assert forall|phase: Phase| writable_literals(#[trigger] phase_effects(f, phase)) by {
                assert(phase_effects(f, phase) == none || phase_effects(f, phase)
                    == effect_literals(*inner));
            }
        },
        Formula::AtEnd(inner) => {
            lemma_good_literals(*inner);
            assert forall|phase: Phase| writable_literals(#[trigger] phase_conditions(f, phase)) by {
                assert(phase_conditions(f, phase) == none || phase_conditions(f, phase)
                    == condition_literals(*inner));
            }
            assert forall|phase: Phase| writable_literals(#[trigger] phase_effects(f, phase)) by {
                assert(phase_effects(f, phase) == none || phase_effects(f, phase)
                    == effect_literals(*inner));
            }
        },
        Formula::OverAll(inner) => {
            lemma_good_literals(*inner);
            assert forall|phase: Phase| writable_literals(#[trigger] phase_conditions(f, phase)) by {
                assert(phase_conditions(f, phase) == none || phase_conditions(f, phase)
                    == condition_literals(*inner));
            }
            assert forall|phase: Phase| writable_literals(#[trigger] phase_effects(f, phase)) by {
                assert(phase_effects(f, phase) == none);
            }
        },
        Formula::DurationConstraint { .. } => {
            lemma_untimed(f);
            assert forall|phase: Phase| writable_literals(#[trigger] phase_conditions(f, phase)) by {
                assert(phase_conditions(f, phase) == none || phase_conditions(f, phase)
                    == condition_literals(f));
            }
            assert forall|phase: Phase| writable_literals(#[trigger] phase_effects(f, phase)) by {
                assert(phase_effects(f, phase) == none || phase_effects(f, phase)
                    == effect_literals(f));
            }
        },
    }
}

/// A formula without a temporal operator at its top that is no conjunction
/// lists its conditions at the start and its effects at the end.
pub proof fn lemma_untimed(f: Formula)
    requires
        !(f is And) && !(f is AtStart) && !(f is AtEnd) && !(f is OverAll),
    ensures
        forall|phase: Phase| #[trigger]
            phase_conditions(f, phase) == (if phase == Phase::Start {
                condition_literals(f)
            } else {
                Seq::empty()
            }),
        forall|phase: Phase| #[trigger]
            phase_effects(f, phase) == (if phase == Phase::End {
                effect_literals(f)
            } else {
                Seq::empty()
            }),
{
}

pub proof fn lemma_good_parts(parts: Seq<Formula>, n: int)
    requires
        good_formulas(parts),
        0 <= n <= parts.len(),
    ensures
        writable_literals(conditions_of_parts(parts, n)),
        writable_literals(effects_of_parts(parts, n)),
        forall|phase: Phase| writable_literals(#[trigger] phase_conditions_of_parts(parts, n, phase)),
        forall|phase: Phase| writable_literals(#[trigger] phase_effects_of_parts(parts, n, phase)),
    decreases parts, n,
{
    if n > 0 {
        lemma_good_parts(parts, n - 1);
        assert(good_formula(parts[n - 1]));
        lemma_good_literals(parts[n - 1]);
        lemma_writable_concat(conditions_of_parts(parts, n - 1), condition_literals(parts[n - 1]));
        lemma_writable_concat(effects_of_parts(parts, n - 1), effect_literals(parts[n - 1]));
        assert forall|phase: Phase| writable_literals(
            #[trigger] phase_conditions_of_parts(parts, n, phase),
        ) by {
            lemma_writable_concat(
                phase_conditions_of_parts(parts, n - 1, phase),
                phase_conditions(parts[n - 1], phase),
            );
        }
        assert forall|phase: Phase| writable_literals(
            #[trigger] phase_effects_of_parts(parts, n, phase),
        ) by {
            lemma_writable_concat(
                phase_effects_of_parts(parts, n - 1, phase),
                phase_effects(parts[n - 1], phase),
            );
        }
    }
}

/// Where no literal is undeclared, every literal is declared.
pub proof fn lemma_all_are_declared(literals: Seq<Literal>, predicates: Seq<PredicateView>, n: int)
    requires
        0 <= n <= literals.len(),
        undeclared_in(literals, predicates, n) is None,
    ensures
        all_declared(literals.take(n), predicates),
    decreases n,
{
    if n > 0 {
        lemma_all_are_declared(literals, predicates, n - 1);
        let shorter = literals.take(n - 1);
        let longer = literals.take(n);
        assert forall|i: int| 0 <= i < longer.len() implies is_declared(
            predicates,
            (#[trigger] longer[i]).predicate,
            longer[i].args.len() as int,
        ) by {
            if i < n - 1 {
                assert(longer[i] == shorter[i]);
            }
        }
    }
}

/// Where every literal of a list is declared, so is every literal of a list
/// that holds nothing else.
pub proof fn lemma_declared_within(
    part: Seq<Literal>,
    whole: Seq<Literal>,
    predicates: Seq<PredicateView>,
)
    requires
        all_declared(whole, predicates),
        forall|x: Literal| part.to_multiset().count(x) > 0 ==> whole.to_multiset().count(x) > 0,
    ensures
        all_declared(part, predicates),
{
    part.to_multiset_ensures();
    whole.to_multiset_ensures();
    assert forall|i: int| 0 <= i < part.len() implies is_declared(
        predicates,
        (#[trigger] part[i]).predicate,
        part[i].args.len() as int,
    ) by {
        let x = part[i];
        assert(part.contains(x));
        assert(part.to_multiset().count(x) > 0);
        assert(whole.to_multiset().count(x) > 0);
        assert(whole.contains(x));
        let j = choose|j: int| 0 <= j < whole.len() && whole[j] == x;
        assert(is_declared(predicates, whole[j].predicate, whole[j].args.len() as int));
    }
}

/// Where every condition that a formula lists is declared, so is every
/// condition of each phase; and likewise for effects.
pub proof fn lemma_phases_are_declared(f: Formula, predicates: Seq<PredicateView>)
    ensures
        all_declared(condition_literals(f), predicates) ==> forall|phase: Phase|
            all_declared(#[trigger] phase_conditions(f, phase), predicates),
        all_declared(effect_literals(f), predicates) ==> forall|phase: Phase|
            all_declared(#[trigger] phase_effects(f, phase), predicates),
{
    broadcast use vstd::multiset::group_multiset_axioms;

    lemma_conditions_partitioned(f);
    lemma_effects_partitioned(f);
    let cs = phase_conditions(f, Phase::Start).to_multiset();
    let co = phase_conditions(f, Phase::OverAll).to_multiset();
    let ce = phase_conditions(f, Phase::End).to_multiset();
    let es = phase_effects(f, Phase::Start).to_multiset();
    let ee = phase_effects(f, Phase::End).to_multiset();
    if all_declared(condition_literals(f), predicates) {
        let whole = condition_literals(f).to_multiset();
        assert forall|phase: Phase| all_declared(
            #[trigger] phase_conditions(f, phase),
            predicates,
        ) by {
            let part = phase_conditions(f, phase);
            assert forall|x: Literal| part.to_multiset().count(x) > 0 implies whole.count(x)
                > 0 by {
                assert(cs.add(co).add(ce).count(x) == cs.count(x) + co.count(x) + ce.count(x));
                assert(whole.count(x) == cs.add(co).add(ce).count(x));
            }
            lemma_declared_within(part, condition_literals(f), predicates);
        }
    }
    if all_declared(effect_literals(f), predicates) {
        let whole = effect_literals(f).to_multiset();
        assert forall|phase: Phase| all_declared(#[trigger] phase_effects(f, phase), predicates) by {
            let part = phase_effects(f, phase);
            assert forall|x: Literal| part.to_multiset().count(x) > 0 implies whole.count(x)
                > 0 by {
                assert(es.add(ee).count(x) == es.count(x) + ee.count(x));
                assert(whole.count(x) == es.add(ee).count(x));
                if phase == Phase::OverAll {
                    assert(part =~= Seq::<Literal>::empty());
                    part.to_multiset_ensures();
                    assert(part.to_multiset().len() == 0);
                }
            }
            lemma_declared_within(part, effect_literals(f), predicates);
        }
    }
}

/// The requirement flags that are read from a printable section are plain,
/// and the planner implements them.
pub proof fn lemma_requirements_are_good(section: Seq<Tree>, n: int)
    requires
        printable_all(section),
        requirements_of(section, n) is Ok,
    ensures
        plain_atoms(requirements_of(section, n)->Ok_0),
        forall|i: int|
            0 <= i < requirements_of(section, n)->Ok_0.len() ==> is_supported_requirement(
                #[trigger] requirements_of(section, n)->Ok_0[i],
            ),
    decreases n,
{
    if !(n <= 1 || n > section.len()) {
        lemma_requirements_are_good(section, n - 1);
        assert(printable(section[n - 1]));
        let before = requirements_of(section, n - 1)->Ok_0;
        let after = requirements_of(section, n)->Ok_0;
        assert forall|i: int| 0 <= i < after.len() implies plain_atom(#[trigger] after[i])
            && is_supported_requirement(after[i]) by {
            if i < before.len() {
                assert(after[i] == before[i]);
            }
        }
    }
}

/// The type names that are read from a printable section are plain, and
/// none of them starts with `-`.
pub proof fn lemma_types_are_good(section: Seq<Tree>, n: int)
    requires
        printable_all(section),
    ensures
        plain_atoms(types_of(section, n)),
        forall|i: int|
            0 <= i < types_of(section, n).len() ==> !((#[trigger] types_of(section, n)[i]).len() > 0
                && types_of(section, n)[i][0] == '-'),
    decreases n,
{
    if !(n <= 1 || n > section.len()) {
        lemma_types_are_good(section, n - 1);
        assert(printable(section[n - 1]));
        let before = types_of(section, n - 1);
        let after = types_of(section, n);
        assert forall|i: int| 0 <= i < after.len() implies plain_atom(#[trigger] after[i]) && !(
        after[i].len() > 0 && after[i][0] == '-') by {
            if i < before.len() {
                assert(after[i] == before[i]);
            }
        }
    }
}

/// The parameters that are read from printable items start with `?`, and
/// their names and types are plain.
pub proof fn lemma_parameters_are_good(items: Seq<Tree>, i: int)
    requires
        printable_all(items),
    ensures
        writable_parameters(parameters_from(items, i)),
        plain_parameters(parameters_from(items, i)),
    decreases items.len() - i,
{
    if !(i < 0 || i >= items.len()) {
        assert(printable(items[i]));
        if is_variable(items[i]) {
            if i + 2 < items.len() && is_dash(items[i + 1]) && items[i + 2] is Atom {
                lemma_parameters_are_good(items, i + 3);
                assert(printable(items[i + 2]));
                let rest = parameters_from(items, i + 3);
                let all = parameters_from(items, i);
                assert forall|k: int| 0 <= k < all.len() implies writable_parameter(
                    #[trigger] all[k],
                ) && plain_atom(all[k].name) && (all[k].type_tag is Some ==> plain_atom(
                    all[k].type_tag->0,
                )) by {
                    if k > 0 {
                        assert(all[k] == rest[k - 1]);
                    }
                }
            } else {
                lemma_parameters_are_good(items, i + 1);
                let rest = parameters_from(items, i + 1);
                let all = parameters_from(items, i);
                assert forall|k: int| 0 <= k < all.len() implies writable_parameter(
                    #[trigger] all[k],
                ) && plain_atom(all[k].name) && (all[k].type_tag is Some ==> plain_atom(
                    all[k].type_tag->0,
                )) by {
                    if k > 0 {
                        assert(all[k] == rest[k - 1]);
                    }
                }
            }
        } else {
            lemma_parameters_are_good(items, i + 1);
        }
    }
}

/// The predicates that are read from a printable section have plain names
/// and parameters that can be written.
pub proof fn lemma_predicates_are_good(section: Seq<Tree>, n: int)
    requires
        printable_all(section),
        predicates_of(section, n) is Ok,
    ensures
        writable_predicates(predicates_of(section, n)->Ok_0),
        forall|i: int|
            0 <= i < predicates_of(section, n)->Ok_0.len() ==> plain_atom(
                (#[trigger] predicates_of(section, n)->Ok_0[i]).name,
            ) && plain_parameters(predicates_of(section, n)->Ok_0[i].parameters),
    decreases n,
{
    if !(n <= 1 || n > section.len()) {
        lemma_predicates_are_good(section, n - 1);
        let t = section[n - 1];
        assert(printable(t));
        let items = t->List_0;
        assert(printable(items[0]));
        lemma_parameters_are_good(items, 1);
        let before = predicates_of(section, n - 1)->Ok_0;
        let after = predicates_of(section, n)->Ok_0;
        assert forall|i: int| 0 <= i < after.len() implies writable_parameters(
            (#[trigger] after[i]).parameters,
        ) && plain_atom(after[i].name) && plain_parameters(after[i].parameters) by {
            if i < before.len() {
                assert(after[i] == before[i]);
            }
        }
    }
}

/// The value of a keyword is one of the items.
pub proof fn lemma_keyword_value_is_item(items: Seq<Tree>, key: Seq<char>, from: int)
    requires
        0 <= from,
    ensures
        keyword_index(items, key, from) == -1 || (from <= keyword_index(items, key, from)
            < items.len() - 1),
    decreases items.len() - from,
{
    if !(from + 1 >= items.len()) {
        if !(items[from] is Atom && crate::text::same_symbol(items[from]->Atom_0, key)) {
            lemma_keyword_value_is_item(items, key, from + 1);
        }
    }
}

/// An action as it is read, with what holds of it where it is read from a
/// printable tree: its name is plain, its parameters can be written, its
/// formulas are good, and its duration, where it is a constant, is below
/// ten to the eighteenth ticks.
pub open spec fn good_raw(raw: RawAction) -> bool {
    &&& plain_atom(raw.name)
    &&& writable_parameters(raw.parameters)
    &&& plain_parameters(raw.parameters)
    &&& (raw.precondition is Some ==> good_formula(raw.precondition->0))
    &&& (raw.effect is Some ==> good_formula(raw.effect->0))
    &&& (raw.duration matches Some(PDDLDuration::Fixed(c)) ==> c < 1_000_000_000_000_000_000)
}

pub proof fn lemma_formula_under_is_good(items: Seq<Tree>, key: Seq<char>)
    requires
        printable_all(items),
        formula_under(items, key) is Ok,
    ensures
        formula_under(items, key)->Ok_0 is Some ==> good_formula(formula_under(items, key)->Ok_0->0),
{
    lemma_keyword_value_is_item(items, key, 2);
    match keyword_value(items, key) {
        Some(t) => {
            assert(printable(items[keyword_index(items, key, 2) + 1]));
            lemma_formula_is_good(t);
        },
        None => {},
    }
}

pub proof fn lemma_raw_action_is_good(t: Tree, durative: bool)
    requires
        printable(t),
        raw_action_of(t, durative) is Ok,
    ensures
        good_raw(raw_action_of(t, durative)->Ok_0),
{
    let items = t->List_0;
    assert(printable(items[1]));
    lemma_keyword_value_is_item(items, ":parameters"@, 2);
    match keyword_value(items, ":parameters"@) {
        Some(Tree::List(declared)) => {
            assert(printable(items[keyword_index(items, ":parameters"@, 2) + 1]));
            lemma_parameters_are_good(declared, 0);
        },
        _ => {
            assert(action_parameters_of(items)->Ok_0 =~= Seq::<ParameterView>::empty());
        },
    }
    if durative {
        lemma_formula_under_is_good(items, ":condition"@);
        lemma_keyword_value_is_item(items, ":duration"@, 2);
        match keyword_value(items, ":duration"@) {
            Some(stated) => {
                match formula_of(stated) {
                    Ok(Formula::DurationConstraint { relation, constant }) => {
                        if constant is Some {
                            let inner = stated->List_0;
                            assert(constant == duration_constant(inner));
                            lemma_decimal_ticks_bound(inner[2]->Atom_0);
                        }
                    },
                    _ => {},
                }
            },
            None => {},
        }
    } else {
        lemma_formula_under_is_good(items, ":precondition"@);
    }
    lemma_formula_under_is_good(items, ":effect"@);
}

/// The template of an action that is good as it is read can be written.
pub proof fn lemma_converted_is_writable(raw: RawAction, predicates: Seq<PredicateView>)
    requires
        good_raw(raw),
        converted(raw, predicates) is Ok,
    ensures
        writable_action(converted(raw, predicates)->Ok_0, predicates),
        plain_parameters(converted(raw, predicates)->Ok_0.parameters),
{
    let a = converted(raw, predicates)->Ok_0;
    let none = Seq::<Literal>::empty();
    assert(writable_literals(none));
    assert(all_declared(none, predicates));
    let conditions = raw_conditions(raw);
    let effects = raw_effects(raw);
    lemma_all_are_declared(conditions, predicates, conditions.len() as int);
    lemma_all_are_declared(effects, predicates, effects.len() as int);
    assert(conditions.take(conditions.len() as int) =~= conditions);
    assert(effects.take(effects.len() as int) =~= effects);
    match raw.precondition {
        Some(f) => {
            lemma_good_literals(f);
            lemma_phases_are_declared(f, predicates);
            assert(writable_literals(phase_conditions(f, Phase::Start)));
            assert(writable_literals(phase_conditions(f, Phase::OverAll)));
            assert(writable_literals(phase_conditions(f, Phase::End)));
            assert(all_declared(phase_conditions(f, Phase::Start), predicates));
            assert(all_declared(phase_conditions(f, Phase::OverAll), predicates));
            assert(all_declared(phase_conditions(f, Phase::End), predicates));
        },
        None => {},
    }
    match raw.effect {
        Some(f) => {
            lemma_good_literals(f);
            lemma_phases_are_declared(f, predicates);
            assert(writable_literals(phase_effects(f, Phase::Start)));
            assert(writable_literals(phase_effects(f, Phase::End)));
            assert(all_declared(phase_effects(f, Phase::Start), predicates));
            assert(all_declared(phase_effects(f, Phase::End), predicates));
        },
        None => {},
    }
    assert(a.conditions_start == conditions_at(raw, Phase::Start));
    assert(a.conditions_over_all == conditions_at(raw, Phase::OverAll));
    assert(a.conditions_end == conditions_at(raw, Phase::End));
    assert(a.effects_start == effects_at(raw, Phase::Start));
    assert(a.effects_end == effects_at(raw, Phase::End));
}

/// The actions that are read from printable items are good as they are read.
pub proof fn lemma_raw_actions_are_good(items: Seq<Tree>, n: int)
    requires
        printable_all(items),
        raw_actions_of(items, n) is Ok,
    ensures
        forall|i: int|
            0 <= i < raw_actions_of(items, n)->Ok_0.len() ==> good_raw(
                #[trigger] raw_actions_of(items, n)->Ok_0[i],
            ),
    decreases n,
{
    if !(n <= 1 || n > items.len()) {
        lemma_raw_actions_are_good(items, n - 1);
        let t = items[n - 1];
        assert(printable(t));
        let before = raw_actions_of(items, n - 1)->Ok_0;
        let after = raw_actions_of(items, n)->Ok_0;
        if has_head(t, ":action"@) {
            lemma_raw_action_is_good(t, false);
        } else if has_head(t, ":durative-action"@) {
            lemma_raw_action_is_good(t, true);
        }
        assert forall|i: int| 0 <= i < after.len() implies good_raw(#[trigger] after[i]) by {
            if i < before.len() {
                assert(after[i] == before[i]);
            }
        }
    }
}

/// The templates of actions that are good as they are read can be written.
pub proof fn lemma_converted_are_writable(
    raws: Seq<RawAction>,
    predicates: Seq<PredicateView>,
    n: int,
)
    requires
        forall|i: int| 0 <= i < raws.len() ==> good_raw(#[trigger] raws[i]),
        converted_all(raws, predicates, n) is Ok,
    ensures
        writable_actions(converted_all(raws, predicates, n)->Ok_0, predicates),
        forall|i: int|
            0 <= i < converted_all(raws, predicates, n)->Ok_0.len() ==> plain_parameters(
                (#[trigger] converted_all(raws, predicates, n)->Ok_0[i]).parameters,
            ),
    decreases n,
{
    if !(n <= 0 || n > raws.len()) {
        lemma_converted_are_writable(raws, predicates, n - 1);
        assert(good_raw(raws[n - 1]));
        lemma_converted_is_writable(raws[n - 1], predicates);
        let before = converted_all(raws, predicates, n - 1)->Ok_0;
        let after = converted_all(raws, predicates, n)->Ok_0;
        assert forall|i: int| 0 <= i < after.len() implies writable_action(
            #[trigger] after[i],
            predicates,
        ) && plain_parameters(after[i].parameters) by {
            if i < before.len() {
                assert(after[i] == before[i]);
            }
        }
    }
}

/// A type that is given is a plain atom and no `-`.
pub proof fn lemma_type_after_is_good(section: Seq<Tree>, i: int)
    requires
        printable_all(section),
        type_after(section, i) is Some,
    ensures
        plain_atom(type_after(section, i)->0),
        type_after(section, i)->0 != seq!['-'],
    decreases section.len() - i,
{
    if !(i < 0 || i + 1 >= section.len()) {
        if is_dash(section[i]) && section[i + 1] is Atom && !is_dash(section[i + 1]) {
            assert(printable(section[i + 1]));
        } else {
            lemma_type_after_is_good(section, i + 1);
        }
    }
}

/// Where no type is given from a place on, none is given from a later place
/// on.
pub proof fn lemma_type_after_none(section: Seq<Tree>, q: int, r: int)
    requires
        0 <= q <= r,
        type_after(section, q) is None,
    ensures
        type_after(section, r) is None,
    decreases r - q,
{
    if q < r {
        if q + 1 < section.len() {
            lemma_type_after_none(section, q + 1, r);
        }
    }
}

/// The objects that are read from a printable section can be written, and
/// their names and types are plain.
pub proof fn lemma_objects_are_good(section: Seq<Tree>, n: int)
    requires
        printable_all(section),
    ensures
        plain_parameters(objects_of(section, n)),
        writable_objects(objects_of(section, n)),
        (exists|i: int|
            0 <= i < objects_of(section, n).len() && (#[trigger] objects_of(section, n)[i]).type_tag
                is None) ==> n >= 1 && type_after(section, n) is None,
    decreases n,
{
    if !(n <= 1 || n > section.len()) {
        lemma_objects_are_good(section, n - 1);
        let before = objects_of(section, n - 1);
        let after = objects_of(section, n);
        let untyped_before = exists|i: int|
            0 <= i < before.len() && (#[trigger] before[i]).type_tag is None;
        if untyped_before {
            lemma_type_after_none(section, n - 1, n);
        }
        if is_name_position(section, n - 1) {
            let o = after[after.len() - 1];
            assert(printable(section[n - 1]));
            assert(o.name == section[n - 1]->Atom_0);
            assert(o.name != seq!['-']);
            if o.type_tag is Some {
                lemma_type_after_is_good(section, n);
            }
            assert forall|i: int| 0 <= i < after.len() implies plain_atom((#[trigger] after[i]).name)
                && (after[i].type_tag is Some ==> plain_atom(after[i].type_tag->0)) by {
                if i < before.len() {
                    assert(after[i] == before[i]);
                }
            }
            assert forall|i: int| 0 <= i < after.len() implies (#[trigger] after[i]).name != seq![
                '-',
            ] by {
                if i < before.len() {
                    assert(after[i] == before[i]);
                }
            }
            assert forall|i: int|
                0 <= i < after.len() && (#[trigger] after[i]).type_tag is Some implies after[i].type_tag->0
                != seq!['-'] by {
                if i < before.len() {
                    assert(after[i] == before[i]);
                }
            }
            assert forall|i: int, j: int|
                0 <= i <= j < after.len() && (#[trigger] after[i]).type_tag is None implies (
            #[trigger] after[j]).type_tag is None by {
                if j < before.len() {
                    assert(after[i] == before[i]);
                    assert(after[j] == before[j]);
                } else if i < before.len() {
                    assert(after[i] == before[i]);
                    assert(untyped_before);
                }
            }
            if exists|i: int| 0 <= i < after.len() && (#[trigger] after[i]).type_tag is None {
                let w = choose|i: int| 0 <= i < after.len() && (#[trigger] after[i]).type_tag is None;
                if w < before.len() {
                    assert(after[w] == before[w]);
                    assert(untyped_before);
                }
            }
        } else {
            if exists|i: int| 0 <= i < after.len() && (#[trigger] after[i]).type_tag is None {
                assert(untyped_before);
            }
        }
    } else {
        assert(objects_of(section, n) =~= Seq::<ParameterView>::empty());
    }
}

pub proof fn lemma_signed_bound(s: Seq<char>)
    ensures
        signed_decimal_ticks(s) is Some ==> -1_000_000_000_000_000_000 < signed_decimal_ticks(s)->0
            < 1_000_000_000_000_000_000,
{
    if s.len() > 0 && s[0] == '-' {
        lemma_decimal_ticks_bound(s.drop_first());
    } else {
        lemma_decimal_ticks_bound(s);
    }
}

/// What an entry of an initial state says, read from a printable tree, can
/// be written.
pub proof fn lemma_init_entry_is_good(t: Tree, predicates: Seq<PredicateView>)
    requires
        printable(t),
        init_entry_of(t, predicates) is Ok,
    ensures
        match init_entry_of(t, predicates)->Ok_0 {
            InitEntry::Holds(a) => plain_atom(a.predicate) && relation_of(a.predicate) != Some(
                Relation::Equal,
            ) && is_declared(predicates, a.predicate, a.args.len() as int) && plain_atoms(a.args),
            InitEntry::Assigns(f) => plain_atom(f.function) && plain_atoms(f.args)
                && -1_000_000_000_000_000_000 < f.value < 1_000_000_000_000_000_000,
        },
{
    let items = t->List_0;
    let head = items[0]->Atom_0;
    assert(printable(items[0]));
    if relation_of(head) == Some(Relation::Equal) {
        assert(printable(items[1]));
        lemma_signed_bound(items[2]->Atom_0);
        match items[1] {
            Tree::Atom(function) => {},
            Tree::List(target) => {
                assert(printable(target[0]));
                let args = atom_texts(target.skip(1));
                assert forall|i: int| 0 <= i < args.len() implies plain_atom(#[trigger] args[i]) by {
                    assert(target.skip(1)[i] == target[i + 1]);
                    assert(target[i + 1] is Atom);
                    assert(printable(target[i + 1]));
                }
            },
        }
    } else {
        let args = atom_texts(items.skip(1));
        assert forall|i: int| 0 <= i < args.len() implies plain_atom(#[trigger] args[i]) by {
            assert(items.skip(1)[i] == items[i + 1]);
            assert(items[i + 1] is Atom);
            assert(printable(items[i + 1]));
        }
    }
}

/// The initial state that is read from a printable section can be written.
pub proof fn lemma_init_is_good(section: Seq<Tree>, predicates: Seq<PredicateView>, n: int)
    requires
        printable_all(section),
        init_atoms_of(section, predicates, n) is Ok,
    ensures
        ({
            let atoms = init_atoms_of(section, predicates, n)->Ok_0;
            let fluents = init_fluents_of(section, predicates, n);
            &&& writable_atoms(atoms, predicates)
            &&& forall|i: int| 0 <= i < atoms.len() ==> plain_atoms((#[trigger] atoms[i]).args)
            &&& writable_fluents(fluents)
            &&& forall|i: int|
                0 <= i < fluents.len() ==> plain_atom((#[trigger] fluents[i]).function)
                    && plain_atoms(fluents[i].args)
        }),
    decreases n,
{
    if !(n <= 1 || n > section.len()) {
        lemma_init_is_good(section, predicates, n - 1);
        assert(printable(section[n - 1]));
        lemma_init_entry_is_good(section[n - 1], predicates);
        let atoms_before = init_atoms_of(section, predicates, n - 1)->Ok_0;
        let atoms = init_atoms_of(section, predicates, n)->Ok_0;
        let fluents_before = init_fluents_of(section, predicates, n - 1);
        let fluents = init_fluents_of(section, predicates, n);
        assert forall|i: int| 0 <= i < atoms.len() implies plain_atom((#[trigger] atoms[i]).predicate)
            && relation_of(atoms[i].predicate) != Some(Relation::Equal) && is_declared(
            predicates,
            atoms[i].predicate,
            atoms[i].args.len() as int,
        ) && plain_atoms(atoms[i].args) by {
            if i < atoms_before.len() {
                assert(atoms[i] == atoms_before[i]);
            }
        }
        assert forall|i: int| 0 <= i < fluents.len() implies plain_atom(
            (#[trigger] fluents[i]).function,
        ) && plain_atoms(fluents[i].args) && -1_000_000_000_000_000_000 < fluents[i].value
            < 1_000_000_000_000_000_000 by {
            if i < fluents_before.len() {
                assert(fluents[i] == fluents_before[i]);
            }
        }
    }
}

/// A section that is found is one of the items.
pub proof fn lemma_section_is_item(items: Seq<Tree>, word: Seq<char>, from: int)
    requires
        0 <= from,
    ensures
        section_index(items, word, from) == -1 || (from <= section_index(items, word, from)
            < items.len() && items[section_index(items, word, from)] is List),
    decreases items.len() - from,
{
    if from < items.len() && !has_head(items[from], word) {
        lemma_section_is_item(items, word, from + 1);
    }
}

pub proof fn lemma_section_is_printable(items: Seq<Tree>, word: Seq<char>)
    requires
        printable_all(items),
    ensures
        section_of(items, word) is Some ==> printable_all(section_of(items, word)->0),
{
    lemma_section_is_item(items, word, 1);
    if section_of(items, word) is Some {
        assert(printable(items[section_index(items, word, 1)]));
    }
}

/// Every fact that numbering atoms gives a number is one of the atoms.
pub proof fn lemma_interned_members(atoms: Seq<GroundAtom>, n: int)
    requires
        0 <= n <= atoms.len(),
    ensures
        forall|k: int|
            0 <= k < atoms_interned(Seq::empty(), atoms, n).len() ==> exists|j: int|
                0 <= j < n && atoms[j] == #[trigger] atoms_interned(Seq::empty(), atoms, n)[k],
    decreases n,
{
    if n > 0 {
        lemma_interned_members(atoms, n - 1);
        let before = atoms_interned(Seq::empty(), atoms, n - 1);
        let after = atoms_interned(Seq::empty(), atoms, n);
        assert forall|k: int| 0 <= k < after.len() implies exists|j: int|
            0 <= j < n && atoms[j] == #[trigger] after[k] by {
            if k < before.len() {
                let j = choose|j: int| 0 <= j < n - 1 && atoms[j] == before[k];
                assert(atoms[j] == after[k]);
            } else {
                assert(atoms[n - 1] == after[k]);
            }
        }
    }
}

/// Whether a warning among the first is about an action does not depend on
/// the warnings behind them.
pub proof fn lemma_warned_of_longer(warnings: Seq<WarningView>, more: Seq<WarningView>, k: int, n: int)
    requires
        0 <= n <= warnings.len(),
    ensures
        warned(warnings + more, k, n) == warned(warnings, k, n),
    decreases n,
{
    if n > 0 {
        lemma_warned_of_longer(warnings, more, k, n - 1);
        assert((warnings + more)[n - 1] == warnings[n - 1]);
    }
}

/// The warnings that actions raise are about exactly the actions whose
/// duration is no constant.
pub proof fn lemma_warned_iff_unsupported(raws: Seq<RawAction>, n: int, k: int)
    requires
        0 <= n <= raws.len(),
    ensures
        warned(duration_warnings(raws, n), k, duration_warnings(raws, n).len() as int) <==> (0 <= k
            < n && raws[k].duration == Some(PDDLDuration::Unsupported)),
    decreases n,
{
    if n > 0 {
        lemma_warned_iff_unsupported(raws, n - 1, k);
        let before = duration_warnings(raws, n - 1);
        if raws[n - 1].duration == Some(PDDLDuration::Unsupported) {
            let w = duration_warnings(raws, n).last();
            let after = duration_warnings(raws, n);
            assert(after =~= before + seq![w]);
            lemma_warned_of_longer(before, seq![w], k, before.len() as int);
            assert(w.action_index == n - 1);
        }
    }
}

/// The template of each action is among the templates, at its place.
pub proof fn lemma_converted_at(raws: Seq<RawAction>, predicates: Seq<PredicateView>, n: int, k: int)
    requires
        0 <= k < n <= raws.len(),
        converted_all(raws, predicates, n) is Ok,
    ensures
        converted_all(raws, predicates, n)->Ok_0.len() == n,
        converted(raws[k], predicates) is Ok,
        converted_all(raws, predicates, n)->Ok_0[k] == converted(raws[k], predicates)->Ok_0,
    decreases n,
{
    crate::actions::lemma_converted_count(raws, predicates, n);
    crate::actions::lemma_converted_count(raws, predicates, n - 1);
    if k < n - 1 {
        lemma_converted_at(raws, predicates, n - 1, k);
    }
}

/// Actions with the same names, of which the same have a duration that is no
/// constant, raise the same warnings.
pub proof fn lemma_same_warnings(a: Seq<RawAction>, b: Seq<RawAction>, n: int)
    requires
        0 <= n <= a.len(),
        n <= b.len(),
        forall|k: int|
            0 <= k < n ==> (#[trigger] a[k]).name == b[k].name && (a[k].duration == Some(
                PDDLDuration::Unsupported,
            )) == (b[k].duration == Some(PDDLDuration::Unsupported)),
    ensures
        duration_warnings(a, n) == duration_warnings(b, n),
    decreases n,
{
    if n > 0 {
        lemma_same_warnings(a, b, n - 1);
        assert(a[n - 1].name == b[n - 1].name);
    }
}

/// A task that is compiled from texts can be written and read back.
pub proof fn lemma_compiled_task_is_writable(domain_content: Seq<char>, problem_content: Seq<char>)
    requires
        task_of(domain_content, problem_content) is Ok,
    ensures
        writable(task_of(domain_content, problem_content)->Ok_0),
{
    let task = task_of(domain_content, problem_content)->Ok_0;
    let domain = domain_of_text(domain_content)->Ok_0;
    let actions = converted_all(domain.actions, domain.predicates, domain.actions.len() as int)->Ok_0;
    let problem = problem_of_text(problem_content, domain.predicates)->Ok_0;
    let predicates = domain.predicates;
    lemma_compiled_domain_is_writable(domain_content, problem_content);
    lemma_compiled_problem_is_writable(domain_content, problem_content);
    lemma_compiled_warnings(domain_content, problem_content);
    assert(task.mutex_groups =~= Seq::<Seq<usize>>::empty());
}

/// What holds of the domain of a compiled task.
proof fn lemma_compiled_domain_is_writable(domain_content: Seq<char>, problem_content: Seq<char>)
    requires
        task_of(domain_content, problem_content) is Ok,
    ensures
        ({
            let task = task_of(domain_content, problem_content)->Ok_0;
            &&& (task.domain_name.len() > 0 ==> plain_atom(task.domain_name))
            &&& plain_atoms(task.requirements)
            &&& plain_atoms(task.types)
            &&& forall|i: int|
                0 <= i < task.predicates.len() ==> plain_atom((#[trigger] task.predicates[i]).name)
                    && plain_parameters(task.predicates[i].parameters)
            &&& forall|i: int|
                0 <= i < task.actions.len() ==> plain_parameters(
                    (#[trigger] task.actions[i]).parameters,
                )
            &&& forall|i: int|
                0 <= i < task.requirements.len() ==> is_supported_requirement(
                    #[trigger] task.requirements[i],
                )
            &&& forall|i: int|
                0 <= i < task.types.len() ==> !((#[trigger] task.types[i]).len() > 0
                    && task.types[i][0] == '-')
            &&& writable_predicates(task.predicates)
            &&& writable_actions(task.actions, task.predicates)
        }),
{
    let task = task_of(domain_content, problem_content)->Ok_0;
    let domain = domain_of_text(domain_content)->Ok_0;
    let predicates = domain.predicates;
    let domain_trees = text_trees(domain_content)->Ok_0;
    lemma_trees_are_printable(domain_content);
    let items = domain_trees[0]->List_0;
    assert(printable(domain_trees[0]));
    assert(printable_all(items));
    lemma_section_is_printable(items, "domain"@);
    lemma_section_is_printable(items, ":requirements"@);
    lemma_section_is_printable(items, ":types"@);
    lemma_section_is_printable(items, ":predicates"@);
    if task.domain_name.len() > 0 {
        let section = section_of(items, "domain"@)->0;
        assert(printable(section[1]));
    }
    match section_of(items, ":requirements"@) {
        Some(section) => {
            lemma_requirements_are_good(section, section.len() as int);
        },
        None => {},
    }
    match section_of(items, ":types"@) {
        Some(section) => {
            lemma_types_are_good(section, section.len() as int);
        },
        None => {},
    }
    match section_of(items, ":predicates"@) {
        Some(section) => {
            lemma_predicates_are_good(section, section.len() as int);
        },
        None => {},
    }
    lemma_raw_actions_are_good(items, items.len() as int);
    lemma_converted_are_writable(domain.actions, predicates, domain.actions.len() as int);
}

/// What holds of the warnings of a compiled task.
proof fn lemma_compiled_warnings(domain_content: Seq<char>, problem_content: Seq<char>)
    requires
        task_of(domain_content, problem_content) is Ok,
    ensures
        ({
            let task = task_of(domain_content, problem_content)->Ok_0;
            &&& warned_are_defaulted(task)
            &&& task.warnings == duration_warnings(written_raws(task), task.actions.len() as int)
        }),
{
    let task = task_of(domain_content, problem_content)->Ok_0;
    let domain = domain_of_text(domain_content)->Ok_0;
    let raws = domain.actions;
    let n = raws.len() as int;
    let predicates = domain.predicates;
    crate::actions::lemma_converted_count(raws, predicates, n);
    assert(task.actions.len() == n);
    assert(task.warnings == duration_warnings(raws, n));
    assert forall|k: int|
        0 <= k < task.actions.len() && warned(
            task.warnings,
            k,
            task.warnings.len() as int,
        ) implies (#[trigger] task.actions[k]).duration == DEFAULT_DURATION by {
        lemma_warned_iff_unsupported(raws, n, k);
        lemma_converted_at(raws, predicates, n, k);
    }
    let written = written_raws(task);
    assert forall|k: int| 0 <= k < n implies (#[trigger] raws[k]).name == written[k].name && (
    raws[k].duration == Some(PDDLDuration::Unsupported)) == (written[k].duration == Some(
        PDDLDuration::Unsupported,
    )) by {
        lemma_warned_iff_unsupported(raws, n, k);
        lemma_converted_at(raws, predicates, n, k);
    }
    lemma_same_warnings(raws, written, n);
}

/// What holds of the problem and the fact table of a compiled task.
proof fn lemma_compiled_problem_is_writable(domain_content: Seq<char>, problem_content: Seq<char>)
    requires
        task_of(domain_content, problem_content) is Ok,
    ensures
        ({
            let task = task_of(domain_content, problem_content)->Ok_0;
            &&& plain_parameters(task.objects)
            &&& forall|i: int|
                0 <= i < held(task).len() ==> plain_atoms((#[trigger] held(task)[i]).args)
            &&& forall|i: int|
                0 <= i < task.initial_state.numeric_values.len() ==> plain_atom(
                    (#[trigger] task.initial_state.numeric_values[i]).function,
                ) && plain_atoms(task.initial_state.numeric_values[i].args)
            &&& writable_problem(task)
            &&& task.facts == fact_table(written_problem(task), task.actions)
            &&& task.initial_state.facts == Seq::new(
                task.facts.len(),
                |i: int| i < initial_count(written_problem(task)),
            )
        }),
{
    let task = task_of(domain_content, problem_content)->Ok_0;
    let domain = domain_of_text(domain_content)->Ok_0;
    let actions = converted_all(domain.actions, domain.predicates, domain.actions.len() as int)->Ok_0;
    let problem = problem_of_text(problem_content, domain.predicates)->Ok_0;
    let predicates = domain.predicates;
    let problem_trees = text_trees(problem_content)->Ok_0;
    lemma_trees_are_printable(problem_content);
    let entries = problem_trees[0]->List_0;
    assert(printable(problem_trees[0]));
    assert(printable_all(entries));
    lemma_section_is_printable(entries, ":objects"@);
    lemma_section_is_printable(entries, ":init"@);
    lemma_section_is_printable(entries, ":goal"@);
    match section_of(entries, ":objects"@) {
        Some(section) => {
            lemma_objects_are_good(section, section.len() as int);
        },
        None => {
            assert(task.objects =~= Seq::<ParameterView>::empty());
        },
    }
    match section_of(entries, ":init"@) {
        Some(section) => {
            lemma_init_is_good(section, predicates, section.len() as int);
        },
        None => {},
    }
    match section_of(entries, ":goal"@) {
        Some(section) => {
            assert(printable(section[1]));
            let f = formula_of(section[1])->Ok_0;
            lemma_formula_is_good(section[1]);
            lemma_good_literals(f);
            let goal = condition_literals(f);
            lemma_all_are_declared(goal, predicates, goal.len() as int);
            assert(goal.take(goal.len() as int) =~= goal);
        },
        None => {},
    }
    let first = atoms_interned(Seq::empty(), problem.init_atoms, problem.init_atoms.len() as int);
    lemma_numbering_is_stable(problem, actions);
    lemma_atoms_interned_distinct(problem.init_atoms, problem.init_atoms.len() as int);
    lemma_renumbering(first, first.len() as int);
    assert(first.take(first.len() as int) =~= first);
    lemma_interned_members(problem.init_atoms, problem.init_atoms.len() as int);
    lemma_held_prefix(task.facts, first.len() as int, task.facts.len() as int);
    assert(held(task) == first);
    assert(written_problem(task).init_atoms == first);
    assert(fact_table(written_problem(task), task.actions) == task.facts);
    assert(initial_count(written_problem(task)) == first.len());
    assert forall|i: int| 0 <= i < first.len() implies plain_atom((#[trigger] first[i]).predicate)
        && relation_of(first[i].predicate) != Some(Relation::Equal) && is_declared(
        predicates,
        first[i].predicate,
        first[i].args.len() as int,
    ) && plain_atoms(first[i].args) by {
        let j = choose|j: int| 0 <= j < problem.init_atoms.len() && problem.init_atoms[j] == first[i];
        assert(plain_atom(problem.init_atoms[j].predicate));
    }
}

/// Compiling is idempotent: a task that is compiled from texts is written as
/// texts that compile to the same task.
pub proof fn lemma_compilation_is_idempotent(domain_content: Seq<char>, problem_content: Seq<char>)
    requires
        task_of(domain_content, problem_content) is Ok,
    ensures
        ({
            let task = task_of(domain_content, problem_content)->Ok_0;
            task_of(domain_text(task), problem_text(task)) == Ok::<TaskView, Fault>(task)
        }),
{
    let task = task_of(domain_content, problem_content)->Ok_0;
    lemma_compiled_task_is_writable(domain_content, problem_content);
    lemma_written_task_compiles(task);
}

} // verus!
