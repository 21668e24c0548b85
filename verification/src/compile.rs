//! The task compiler: it numbers the ground facts and puts a domain and a
//! problem together into a task.

use vstd::prelude::*;
use crate::actions::{
    collect_duration_warnings, convert_pddl_actions, converted_all, duration_warnings,
    lemma_converted_count,
};
use crate::domain::{
    DomainView, PDDLDomain, count_action_blocks, define_items, domain_of_text, parse_pddl_domain,
    lemma_one_action_per_block,
};
use crate::error::{ErrorKind, Fault, PlannerError, fault_about};
use crate::typing::{check_types, unknown_type_of};
use crate::problem::{PDDLProblem, ProblemView, parse_pddl_problem, problem_of_text};
use crate::sexpr::text_trees;
use crate::temporal_task::{
    ActionView, Condition, Effect, Fact, GroundAtom, Literal, MutexGroup, State, StateView,
    TaskView, TemporalAction, TemporalTask, conditions_view, effects_view,
};
use crate::text::{
    copy_names, names_match, names_view, same_symbol, view_all, lemma_view_all_empty,
    lemma_view_all_push,
};

verus! {

/// Two atoms are the same fact when their predicates and their arguments are
/// the same symbols.
pub open spec fn same_atom(a: GroundAtom, b: GroundAtom) -> bool {
    &&& same_symbol(a.predicate, b.predicate)
    &&& a.args.len() == b.args.len()
    &&& forall|i: int| 0 <= i < a.args.len() ==> same_symbol(#[trigger] a.args[i], b.args[i])
}

/// The number of the first fact at or after `from` that is the given atom,
/// or -1 if the table has none.
pub open spec fn fact_index(table: Seq<GroundAtom>, atom: GroundAtom, from: int) -> int
    decreases table.len() - from,
{
    if from < 0 || from >= table.len() {
        -1
    } else if same_atom(table[from], atom) {
        from
    } else {
        fact_index(table, atom, from + 1)
    }
}

pub proof fn lemma_fact_index_bounds(table: Seq<GroundAtom>, atom: GroundAtom, from: int)
    requires
        0 <= from,
    ensures
        fact_index(table, atom, from) == -1 || (from <= fact_index(table, atom, from) < table.len()
            && same_atom(table[fact_index(table, atom, from)], atom)),
    decreases table.len() - from,
{
    if from < table.len() && !same_atom(table[from], atom) {
        lemma_fact_index_bounds(table, atom, from + 1);
    }
}

/// The table with the atom numbered: an atom that has a number keeps it, a
/// new one gets the next.
pub open spec fn interned(table: Seq<GroundAtom>, atom: GroundAtom) -> Seq<GroundAtom> {
    if fact_index(table, atom, 0) >= 0 {
        table
    } else {
        table.push(atom)
    }
}

/// The table with the first `n` atoms numbered, in order.
pub open spec fn atoms_interned(table: Seq<GroundAtom>, atoms: Seq<GroundAtom>, n: int) -> Seq<
    GroundAtom,
>
    decreases n,
{
    if n <= 0 || n > atoms.len() {
        table
    } else {
        interned(atoms_interned(table, atoms, n - 1), atoms[n - 1])
    }
}

/// Whether a literal is ground: none of its arguments is a parameter.
pub open spec fn is_ground(literal: Literal) -> bool {
    forall|i: int|
        0 <= i < literal.args.len() ==> !((#[trigger] literal.args[i]).len() > 0
            && literal.args[i][0] == '?')
}

pub open spec fn atom_of(literal: Literal) -> GroundAtom {
    GroundAtom { predicate: literal.predicate, args: literal.args }
}

/// The table with the atoms of the ground ones among the first `n` literals
/// numbered, in order.
pub open spec fn literals_interned(table: Seq<GroundAtom>, literals: Seq<Literal>, n: int) -> Seq<
    GroundAtom,
>
    decreases n,
{
    if n <= 0 || n > literals.len() {
        table
    } else if is_ground(literals[n - 1]) {
        interned(literals_interned(table, literals, n - 1), atom_of(literals[n - 1]))
    } else {
        literals_interned(table, literals, n - 1)
    }
}

/// The table with the ground atoms of an action numbered: its conditions at
/// the start, over all and at the end, then its effects at the start and at
/// the end.
pub open spec fn action_interned(table: Seq<GroundAtom>, action: ActionView) -> Seq<GroundAtom> {
    let t1 = literals_interned(table, action.conditions_start, action.conditions_start.len() as int);
    let t2 = literals_interned(
        t1,
        action.conditions_over_all,
        action.conditions_over_all.len() as int,
    );
    let t3 = literals_interned(t2, action.conditions_end, action.conditions_end.len() as int);
    let t4 = literals_interned(t3, action.effects_start, action.effects_start.len() as int);
    literals_interned(t4, action.effects_end, action.effects_end.len() as int)
}

pub open spec fn actions_interned(table: Seq<GroundAtom>, actions: Seq<ActionView>, n: int) -> Seq<
    GroundAtom,
>
    decreases n,
{
    if n <= 0 || n > actions.len() {
        table
    } else {
        action_interned(actions_interned(table, actions, n - 1), actions[n - 1])
    }
}

/// Numbering never renumbers: the old table is a prefix of the new one.
pub proof fn lemma_interned_extends(table: Seq<GroundAtom>, atom: GroundAtom)
    ensures
        table.len() <= interned(table, atom).len(),
        interned(table, atom).take(table.len() as int) == table,
{
    assert(interned(table, atom).take(table.len() as int) =~= table);
}

pub proof fn lemma_literals_interned_extends(
    table: Seq<GroundAtom>,
    literals: Seq<Literal>,
    n: int,
)
    ensures
        table.len() <= literals_interned(table, literals, n).len(),
        literals_interned(table, literals, n).take(table.len() as int) == table,
    decreases n,
{
    if n <= 0 || n > literals.len() {
        assert(table.take(table.len() as int) =~= table);
    } else {
        lemma_literals_interned_extends(table, literals, n - 1);
        let before = literals_interned(table, literals, n - 1);
        if is_ground(literals[n - 1]) {
            lemma_interned_extends(before, atom_of(literals[n - 1]));
            let after = interned(before, atom_of(literals[n - 1]));
            assert(after.take(table.len() as int) =~= after.take(before.len() as int).take(
                table.len() as int,
            ));
        }
    }
}

pub proof fn lemma_action_interned_extends(table: Seq<GroundAtom>, action: ActionView)
    ensures
        table.len() <= action_interned(table, action).len(),
        action_interned(table, action).take(table.len() as int) == table,
{
    let t1 = literals_interned(table, action.conditions_start, action.conditions_start.len() as int);
    let t2 = literals_interned(
        t1,
        action.conditions_over_all,
        action.conditions_over_all.len() as int,
    );
    let t3 = literals_interned(t2, action.conditions_end, action.conditions_end.len() as int);
    let t4 = literals_interned(t3, action.effects_start, action.effects_start.len() as int);
    let t5 = literals_interned(t4, action.effects_end, action.effects_end.len() as int);
    lemma_literals_interned_extends(
        table,
        action.conditions_start,
        action.conditions_start.len() as int,
    );
    lemma_literals_interned_extends(
        t1,
        action.conditions_over_all,
        action.conditions_over_all.len() as int,
    );
    lemma_literals_interned_extends(t2, action.conditions_end, action.conditions_end.len() as int);
    lemma_literals_interned_extends(t3, action.effects_start, action.effects_start.len() as int);
    lemma_literals_interned_extends(t4, action.effects_end, action.effects_end.len() as int);
    let n = table.len() as int;
    assert(t2.take(n) =~= t2.take(t1.len() as int).take(n));
    assert(t3.take(n) =~= t3.take(t2.len() as int).take(n));
    assert(t4.take(n) =~= t4.take(t3.len() as int).take(n));
    assert(t5.take(n) =~= t5.take(t4.len() as int).take(n));
}

pub proof fn lemma_actions_interned_extends(
    table: Seq<GroundAtom>,
    actions: Seq<ActionView>,
    n: int,
)
    ensures
        table.len() <= actions_interned(table, actions, n).len(),
        actions_interned(table, actions, n).take(table.len() as int) == table,
    decreases n,
{
    if n <= 0 || n > actions.len() {
        assert(table.take(table.len() as int) =~= table);
    } else {
        lemma_actions_interned_extends(table, actions, n - 1);
        let before = actions_interned(table, actions, n - 1);
        lemma_action_interned_extends(before, actions[n - 1]);
        let after = action_interned(before, actions[n - 1]);
        assert(after.take(table.len() as int) =~= after.take(before.len() as int).take(
            table.len() as int,
        ));
    }
}

/// Whether two argument lists are the same symbols, one by one.
fn args_match(a: &Vec<String>, b: &Vec<String>) -> (r: bool)
    ensures
        r == (a.len() == b.len() && forall|i: int|
            0 <= i < a.len() ==> same_symbol(#[trigger] names_view(a@)[i], names_view(b@)[i])),
{
    if a.len() != b.len() {
        return false;
    }
    let mut i: usize = 0;
    while i < a.len()
        invariant
            i <= a.len(),
            a.len() == b.len(),
            forall|k: int| 0 <= k < i ==> same_symbol(#[trigger] names_view(a@)[k], names_view(b@)[k]),
        decreases a.len() - i,
    {
        if !names_match(&a[i], &b[i]) {
            assert(!same_symbol(names_view(a@)[i as int], names_view(b@)[i as int]));
            return false;
        }
        i = i + 1;
    }
    true
}

/// Finds the number of the fact that a predicate and its arguments make.
pub fn find_fact(table: &Vec<Fact>, predicate: &String, args: &Vec<String>) -> (r: Option<usize>)
    ensures
        match r {
            Some(i) => i < table.len() && i == fact_index(
                view_all(table@),
                GroundAtom { predicate: predicate@, args: names_view(args@) },
                0,
            ),
            None => fact_index(
                view_all(table@),
                GroundAtom { predicate: predicate@, args: names_view(args@) },
                0,
            ) == -1,
        },
{
    let ghost atoms = view_all(table@);
    let ghost atom = GroundAtom { predicate: predicate@, args: names_view(args@) };
    let mut i: usize = 0;
    while i < table.len()
        invariant
            i <= table.len(),
            atoms == view_all(table@),
            atom == (GroundAtom { predicate: predicate@, args: names_view(args@) }),
            fact_index(atoms, atom, 0) == fact_index(atoms, atom, i as int),
        decreases table.len() - i,
    {
        assert(atoms[i as int] == table@[i as int]@);
        if names_match(&table[i].predicate, predicate) && args_match(&table[i].args, args) {
            return Some(i);
        }
        i = i + 1;
    }
    None
}

/// Numbers an atom in the table.
fn intern_atom(table: &mut Vec<Fact>, predicate: &String, args: &Vec<String>)
    ensures
        view_all(final(table)@) == interned(
            view_all(old(table)@),
            GroundAtom { predicate: predicate@, args: names_view(args@) },
        ),
{
    if find_fact(table, predicate, args).is_none() {
        let f = Fact { predicate: predicate.clone(), args: copy_names(args) };
        proof {
            lemma_view_all_push(table@, f);
        }
        table.push(f);
    }
}

fn has_no_parameter(args: &Vec<String>) -> (r: bool)
    ensures
        r == forall|i: int|
            0 <= i < args.len() ==> !((#[trigger] names_view(args@)[i]).len() > 0 && names_view(
                args@,
            )[i][0] == '?'),
{
    let mut i: usize = 0;
    while i < args.len()
        invariant
            i <= args.len(),
            forall|k: int|
                0 <= k < i ==> !((#[trigger] names_view(args@)[k]).len() > 0 && names_view(
                    args@,
                )[k][0] == '?'),
        decreases args.len() - i,
    {
        let a = args[i].as_str();
        assert(a@ == names_view(args@)[i as int]);
        if a.unicode_len() > 0 && a.get_char(0) == '?' {
            return false;
        }
        i = i + 1;
    }
    true
}

fn intern_conditions(table: &mut Vec<Fact>, conditions: &Vec<Condition>)
    ensures
        view_all(final(table)@) == literals_interned(
            view_all(old(table)@),
            conditions_view(conditions@),
            conditions.len() as int,
        ),
{
    let ghost start = view_all(table@);
    let ghost literals = conditions_view(conditions@);
    let mut i: usize = 0;
    while i < conditions.len()
        invariant
            i <= conditions.len(),
            literals == conditions_view(conditions@),
            view_all(table@) == literals_interned(start, literals, i as int),
        decreases conditions.len() - i,
    {
        assert(literals[i as int] == conditions@[i as int]@);
        if has_no_parameter(&conditions[i].args) {
            intern_atom(table, &conditions[i].predicate, &conditions[i].args);
        }
        i = i + 1;
    }
}

fn intern_effects(table: &mut Vec<Fact>, effects: &Vec<Effect>)
    ensures
        view_all(final(table)@) == literals_interned(
            view_all(old(table)@),
            effects_view(effects@),
            effects.len() as int,
        ),
{
    let ghost start = view_all(table@);
    let ghost literals = effects_view(effects@);
    let mut i: usize = 0;
    while i < effects.len()
        invariant
            i <= effects.len(),
            literals == effects_view(effects@),
            view_all(table@) == literals_interned(start, literals, i as int),
        decreases effects.len() - i,
    {
        assert(literals[i as int] == effects@[i as int]@);
        if has_no_parameter(&effects[i].args) {
            intern_atom(table, &effects[i].predicate, &effects[i].args);
        }
        i = i + 1;
    }
}

fn intern_actions(table: &mut Vec<Fact>, actions: &Vec<TemporalAction>)
    ensures
        view_all(final(table)@) == actions_interned(
            view_all(old(table)@),
            view_all(actions@),
            actions.len() as int,
        ),
{
    let ghost start = view_all(table@);
    let ghost views = view_all(actions@);
    let mut i: usize = 0;
    while i < actions.len()
        invariant
            i <= actions.len(),
            views == view_all(actions@),
            view_all(table@) == actions_interned(start, views, i as int),
        decreases actions.len() - i,
    {
        assert(views[i as int] == actions@[i as int]@);
        let a = &actions[i];
        intern_conditions(table, &a.conditions_start);
        intern_conditions(table, &a.conditions_over_all);
        intern_conditions(table, &a.conditions_end);
        intern_effects(table, &a.effects_start);
        intern_effects(table, &a.effects_end);
        i = i + 1;
    }
}

/// The fact table of a task: the atoms of the initial state first, then the
/// new ones among the goal's, then the new ones among the actions'.
pub open spec fn fact_table(problem: ProblemView, actions: Seq<ActionView>) -> Seq<GroundAtom> {
    actions_interned(
        literals_interned(
            atoms_interned(Seq::empty(), problem.init_atoms, problem.init_atoms.len() as int),
            problem.goal,
            problem.goal.len() as int,
        ),
        actions,
        actions.len() as int,
    )
}

/// The number of facts that hold initially: those the initial state numbers.
pub open spec fn initial_count(problem: ProblemView) -> nat {
    atoms_interned(Seq::empty(), problem.init_atoms, problem.init_atoms.len() as int).len()
}

/// The task that a domain, its action templates and a problem make.
pub open spec fn assembled(domain: DomainView, actions: Seq<ActionView>, problem: ProblemView) -> TaskView {
    TaskView {
        domain_name: domain.name,
        requirements: domain.requirements,
        types: domain.types,
        predicates: domain.predicates,
        objects: problem.objects,
        actions,
        facts: fact_table(problem, actions),
        initial_state: StateView {
            facts: Seq::new(
                fact_table(problem, actions).len(),
                |i: int| i < initial_count(problem),
            ),
            numeric_values: problem.init_fluents,
        },
        goal_conditions: problem.goal,
        mutex_groups: Seq::empty(),
        warnings: duration_warnings(domain.actions, domain.actions.len() as int),
    }
}

/// The task that a domain text and a problem text compile to, or the first
/// fault: of the domain text, of its actions' literals, of the problem text,
/// and last that of a type that is used and not declared.
pub open spec fn task_of(domain_content: Seq<char>, problem_content: Seq<char>) -> Result<
    TaskView,
    Fault,
> {
    match domain_of_text(domain_content) {
        Err(f) => Err(f),
        Ok(domain) => match converted_all(
            domain.actions,
            domain.predicates,
            domain.actions.len() as int,
        ) {
            Err(f) => Err(f),
            Ok(actions) => match problem_of_text(problem_content, domain.predicates) {
                Err(f) => Err(f),
                Ok(problem) => match unknown_type_of(assembled(domain, actions, problem)) {
                    Some(t) => Err(fault_about(ErrorKind::UnknownSymbol, t)),
                    None => Ok(assembled(domain, actions, problem)),
                },
            },
        },
    }
}

impl TemporalTask {
    /// The empty task.
    pub fn new() -> (task: TemporalTask)
        ensures
            task@.actions.len() == 0,
            task@.facts.len() == 0,
            task@.predicates.len() == 0,
            task@.objects.len() == 0,
            task@.goal_conditions.len() == 0,
            task@.initial_state.facts.len() == 0,
            task@.initial_state.numeric_values.len() == 0,
            task@.mutex_groups.len() == 0,
            task@.warnings.len() == 0,
            task@.requirements.len() == 0,
            task@.types.len() == 0,
            task@.domain_name.len() == 0,
    {
        TemporalTask {
            domain_name: String::new(),
            requirements: Vec::new(),
            types: Vec::new(),
            predicates: Vec::new(),
            objects: Vec::new(),
            actions: Vec::new(),
            facts: Vec::new(),
            initial_state: State { facts: Vec::new(), numeric_values: Vec::new() },
            goal_conditions: Vec::new(),
            mutex_groups: Vec::new(),
            warnings: Vec::new(),
        }
    }

    /// Compiles a domain text and a problem text into a task.
    pub fn from_pddl(domain_content: &str, problem_content: &str) -> (r: Result<
        TemporalTask,
        PlannerError,
    >)
        ensures
            match task_of(domain_content@, problem_content@) {
                Ok(task) => r is Ok && r->Ok_0@ == task,
                Err(f) => r is Err && r->Err_0@ == f,
            },
    {
        let domain = match parse_pddl_domain(domain_content) {
            Ok(d) => d,
            Err(e) => {
                return Err(e);
            },
        };
        let actions = match convert_pddl_actions(&domain.actions, &domain.predicates) {
            Ok(a) => a,
            Err(e) => {
                return Err(e);
            },
        };
        let problem = match parse_pddl_problem(problem_content, &domain.predicates) {
            Ok(p) => p,
            Err(e) => {
                return Err(e);
            },
        };
        let warnings = collect_duration_warnings(&domain.actions);
        let mut facts: Vec<Fact> = Vec::new();
        proof {
            lemma_view_all_empty::<Fact>();
        }
        let mut i: usize = 0;
        while i < problem.init_atoms.len()
            invariant
                i <= problem.init_atoms.len(),
                view_all(facts@) == atoms_interned(
                    Seq::empty(),
                    view_all(problem.init_atoms@),
                    i as int,
                ),
            decreases problem.init_atoms.len() - i,
        {
            assert(view_all(problem.init_atoms@)[i as int] == problem.init_atoms@[i as int]@);
            intern_atom(&mut facts, &problem.init_atoms[i].predicate, &problem.init_atoms[i].args);
            i = i + 1;
        }
        let initial = facts.len();
        intern_conditions(&mut facts, &problem.goal);
        intern_actions(&mut facts, &actions);
        let mut bits: Vec<bool> = Vec::new();
        let mut k: usize = 0;
        while k < facts.len()
            invariant
                k <= facts.len(),
                bits.len() == k,
                forall|j: int| 0 <= j < k ==> bits@[j] == (j < initial),
            decreases facts.len() - k,
        {
            bits.push(k < initial);
            k = k + 1;
        }
        let ghost expected = assembled(domain@, view_all(actions@), problem@);
        proof {
            assert(bits@ =~= expected.initial_state.facts);
            lemma_view_all_empty::<MutexGroup>();
        }
        let PDDLDomain { name, requirements, types, predicates, actions: _ } = domain;
        let PDDLProblem { name: _, objects, init_atoms: _, init_fluents, goal } = problem;
        let task = TemporalTask {
            domain_name: name,
            requirements,
            types,
            predicates,
            objects,
            actions,
            facts,
            initial_state: State { facts: bits, numeric_values: init_fluents },
            goal_conditions: goal,
            mutex_groups: Vec::new(),
            warnings,
        };
        assert(task@ == expected);
        match check_types(&task) {
            Some(t) => Err(PlannerError::about(ErrorKind::UnknownSymbol, t)),
            None => Ok(task),
        }
    }
}

/// The number of `:action` and `:durative-action` blocks of a domain text
/// that can be read.
pub open spec fn action_blocks_in(domain_content: Seq<char>) -> nat {
    let items = define_items(text_trees(domain_content)->Ok_0)->Ok_0;
    count_action_blocks(items, items.len() as int)
}

/// A compiled task has as many actions as its domain has `:action` and
/// `:durative-action` blocks.
pub proof fn lemma_action_count(domain_content: Seq<char>, problem_content: Seq<char>)
    requires
        task_of(domain_content, problem_content) is Ok,
    ensures
        task_of(domain_content, problem_content)->Ok_0.actions.len() == action_blocks_in(
            domain_content,
        ),
{
    let items = define_items(text_trees(domain_content)->Ok_0)->Ok_0;
    lemma_one_action_per_block(items, items.len() as int);
    let domain = domain_of_text(domain_content)->Ok_0;
    lemma_converted_count(domain.actions, domain.predicates, domain.actions.len() as int);
}

/// Numbering is stable: the facts of the initial state keep their numbers
/// whatever the goal and the actions add to the table.
pub proof fn lemma_numbering_is_stable(problem: ProblemView, actions: Seq<ActionView>)
    ensures
        initial_count(problem) <= fact_table(problem, actions).len(),
        fact_table(problem, actions).take(initial_count(problem) as int) == atoms_interned(
            Seq::empty(),
            problem.init_atoms,
            problem.init_atoms.len() as int,
        ),
{
    let first = atoms_interned(Seq::empty(), problem.init_atoms, problem.init_atoms.len() as int);
    let second = literals_interned(first, problem.goal, problem.goal.len() as int);
    let third = actions_interned(second, actions, actions.len() as int);
    lemma_literals_interned_extends(first, problem.goal, problem.goal.len() as int);
    lemma_actions_interned_extends(second, actions, actions.len() as int);
    assert(third.take(first.len() as int) =~= third.take(second.len() as int).take(
        first.len() as int,
    ));
}

} // verus!
