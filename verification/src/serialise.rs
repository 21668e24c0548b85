//! Writing a task back as a domain text and a problem text.

use vstd::prelude::*;
use crate::error::{ErrorKind, Warning, WarningView};
use crate::output::{duration_text, write_duration};
use crate::sexpr::{SExpr, Tree, trees_view, lemma_list_view, lemma_trees_view_push};
use crate::temporal_task::{
    ActionView, Condition, Effect, FluentView, GroundAtom, Literal, PDDLParameter, PDDLPredicate,
    ParameterView, PredicateView, TaskView, TemporalAction, TemporalTask, conditions_view,
    effects_view,
};
use crate::text::{chars_of, names_view, string_of, view_all};

verus! {

/// The text of a tree: an atom as it is, a list in parentheses with one
/// space between every two items.
pub open spec fn printed(t: Tree) -> Seq<char>
    decreases t, 0nat,
{
    match t {
        Tree::Atom(a) => a,
        Tree::List(items) => seq!['('] + printed_items(items, items.len() as int) + seq![')'],
    }
}

/// The text of the first `n` items, with one space between every two.
pub open spec fn printed_items(items: Seq<Tree>, n: int) -> Seq<char>
    decreases items, n,
{
    if n <= 0 || n > items.len() {
        Seq::empty()
    } else if n == 1 {
        printed(items[0])
    } else {
        printed_items(items, n - 1) + seq![' '] + printed(items[n - 1])
    }
}

fn append_text(out: &mut Vec<char>, more: &Vec<char>)
    ensures
        final(out)@ == old(out)@ + more@,
{
    let ghost start = out@;
    let mut i: usize = 0;
    while i < more.len()
        invariant
            i <= more.len(),
            out@ == start + more@.take(i as int),
        decreases more.len() - i,
    {
        out.push(more[i]);
        assert(start + more@.take(i + 1) =~= (start + more@.take(i as int)).push(more@[i as int]));
        i = i + 1;
    }
    assert(more@.take(more.len() as int) =~= more@);
}

fn print_items(items: &Vec<SExpr>, out: &mut Vec<char>)
    ensures
        final(out)@ == old(out)@ + printed_items(trees_view(items@), items.len() as int),
    decreases items, 1nat,
{
    let ghost start = out@;
    let ghost trees = trees_view(items@);
    let mut i: usize = 0;
    proof {
        assert(start + printed_items(trees, 0) =~= start);
    }
    while i < items.len()
        invariant
            i <= items.len(),
            trees == trees_view(items@),
            out@ == start + printed_items(trees, i as int),
        decreases items.len() - i,
    {
        let ghost before = out@;
        if i > 0 {
            out.push(' ');
        }
        print_tree(&items[i], out);
        proof {
            assert(trees[i as int] == items@[i as int]@);
            if i > 0 {
                assert(out@ =~= start + (printed_items(trees, i as int) + seq![' '] + printed(
                    trees[i as int],
                )));
            } else {
                assert(out@ =~= start + printed(trees[0]));
            }
        }
        i = i + 1;
    }
}

/// Writes a tree behind what is written already.
pub fn print_tree(e: &SExpr, out: &mut Vec<char>)
    ensures
        final(out)@ == old(out)@ + printed(e@),
    decreases e, 0nat,
{
    let ghost start = out@;
    match e {
        SExpr::Atom(a) => {
            append_text(out, a);
        },
        SExpr::List(items) => {
            proof {
                lemma_list_view(*items);
            }
            out.push('(');
            print_items(items, out);
            out.push(')');
            proof {
                assert(out@ =~= start + printed(e@));
            }
        },
    }
}

/// The atoms of a run of names.
pub open spec fn atoms_of(names: Seq<Seq<char>>) -> Seq<Tree> {
    Seq::new(names.len(), |i: int| Tree::Atom(names[i]))
}

fn atom_of_word(word: &str) -> (e: SExpr)
    ensures
        e@ == Tree::Atom(word@),
{
    SExpr::Atom(chars_of(word))
}

fn atom_of_name(name: &String) -> (e: SExpr)
    ensures
        e@ == Tree::Atom(name@),
{
    SExpr::Atom(chars_of(name.as_str()))
}

fn push_atoms(items: &mut Vec<SExpr>, names: &Vec<String>)
    ensures
        trees_view(final(items)@) == trees_view(old(items)@) + atoms_of(names_view(names@)),
{
    let ghost start = trees_view(items@);
    let ghost all = atoms_of(names_view(names@));
    let mut i: usize = 0;
    proof {
        assert(start + all.take(0) =~= start);
    }
    while i < names.len()
        invariant
            i <= names.len(),
            all == atoms_of(names_view(names@)),
            trees_view(items@) == start + all.take(i as int),
        decreases names.len() - i,
    {
        let a = atom_of_name(&names[i]);
        proof {
            lemma_trees_view_push(items@, a);
            assert(all[i as int] == a@);
            assert(start + all.take(i + 1) =~= (start + all.take(i as int)).push(a@));
        }
        items.push(a);
        i = i + 1;
    }
    proof {
        assert(all.take(names.len() as int) =~= all);
    }
}

/// The tree of an atom: the predicate and its arguments in a list.
pub open spec fn atom_tree(predicate: Seq<char>, args: Seq<Seq<char>>) -> Tree {
    Tree::List(seq![Tree::Atom(predicate)] + atoms_of(args))
}

fn build_atom(predicate: &String, args: &Vec<String>) -> (e: SExpr)
    ensures
        e@ == atom_tree(predicate@, names_view(args@)),
{
    let mut items: Vec<SExpr> = Vec::new();
    let head = atom_of_name(predicate);
    proof {
        lemma_trees_view_push(items@, head);
        assert(trees_view(Seq::<SExpr>::empty()) =~= Seq::<Tree>::empty());
    }
    items.push(head);
    push_atoms(&mut items, args);
    proof {
        lemma_list_view(items);
        assert(trees_view(items@) =~= seq![Tree::Atom(predicate@)] + atoms_of(names_view(args@)));
    }
    SExpr::List(items)
}

/// The tree of a literal: its atom, inside `not` where it is negated.
pub open spec fn literal_tree(l: Literal) -> Tree {
    if l.negated {
        Tree::List(seq![Tree::Atom("not"@), atom_tree(l.predicate, l.args)])
    } else {
        atom_tree(l.predicate, l.args)
    }
}

fn build_literal(predicate: &String, args: &Vec<String>, negated: bool) -> (e: SExpr)
    ensures
        e@ == literal_tree(
            Literal { predicate: predicate@, args: names_view(args@), negated },
        ),
{
    let atom = build_atom(predicate, args);
    if negated {
        let mut items: Vec<SExpr> = Vec::new();
        let head = atom_of_word("not");
        items.push(head);
        items.push(atom);
        proof {
            lemma_list_view(items);
            assert(trees_view(items@) =~= seq![Tree::Atom("not"@), atom@]);
        }
        SExpr::List(items)
    } else {
        atom
    }
}

/// The tree of a literal under a temporal operator of two words.
pub open spec fn timed_tree(first: Seq<char>, second: Seq<char>, l: Literal) -> Tree {
    Tree::List(seq![Tree::Atom(first), Tree::Atom(second), literal_tree(l)])
}

/// The trees of literals, each under the same temporal operator.
pub open spec fn timed_trees(first: Seq<char>, second: Seq<char>, literals: Seq<Literal>) -> Seq<
    Tree,
> {
    Seq::new(literals.len(), |i: int| timed_tree(first, second, literals[i]))
}

fn build_timed(first: &str, second: &str, literal: SExpr) -> (e: SExpr)
    ensures
        e@ == Tree::List(seq![Tree::Atom(first@), Tree::Atom(second@), literal@]),
{
    let mut items: Vec<SExpr> = Vec::new();
    items.push(atom_of_word(first));
    items.push(atom_of_word(second));
    items.push(literal);
    proof {
        lemma_list_view(items);
        assert(trees_view(items@) =~= seq![Tree::Atom(first@), Tree::Atom(second@), literal@]);
    }
    SExpr::List(items)
}

fn push_timed_conditions(
    items: &mut Vec<SExpr>,
    first: &str,
    second: &str,
    conditions: &Vec<Condition>,
)
    ensures
        trees_view(final(items)@) == trees_view(old(items)@) + timed_trees(
            first@,
            second@,
            conditions_view(conditions@),
        ),
{
    let ghost start = trees_view(items@);
    let ghost all = timed_trees(first@, second@, conditions_view(conditions@));
    let mut i: usize = 0;
    proof {
        assert(start + all.take(0) =~= start);
    }
    while i < conditions.len()
        invariant
            i <= conditions.len(),
            all == timed_trees(first@, second@, conditions_view(conditions@)),
            trees_view(items@) == start + all.take(i as int),
        decreases conditions.len() - i,
    {
        let c = &conditions[i];
        let e = build_timed(first, second, build_literal(&c.predicate, &c.args, c.is_negative));
        proof {
            lemma_trees_view_push(items@, e);
            assert(conditions_view(conditions@)[i as int] == c@);
            assert(all[i as int] == e@);
            assert(start + all.take(i + 1) =~= (start + all.take(i as int)).push(e@));
        }
        items.push(e);
        i = i + 1;
    }
    proof {
        assert(all.take(conditions.len() as int) =~= all);
    }
}

fn push_timed_effects(items: &mut Vec<SExpr>, first: &str, second: &str, effects: &Vec<Effect>)
    ensures
        trees_view(final(items)@) == trees_view(old(items)@) + timed_trees(
            first@,
            second@,
            effects_view(effects@),
        ),
{
    let ghost start = trees_view(items@);
    let ghost all = timed_trees(first@, second@, effects_view(effects@));
    let mut i: usize = 0;
    proof {
        assert(start + all.take(0) =~= start);
    }
    while i < effects.len()
        invariant
            i <= effects.len(),
            all == timed_trees(first@, second@, effects_view(effects@)),
            trees_view(items@) == start + all.take(i as int),
        decreases effects.len() - i,
    {
        let c = &effects[i];
        let e = build_timed(first, second, build_literal(&c.predicate, &c.args, c.is_delete));
        proof {
            lemma_trees_view_push(items@, e);
            assert(effects_view(effects@)[i as int] == c@);
            assert(all[i as int] == e@);
            assert(start + all.take(i + 1) =~= (start + all.take(i as int)).push(e@));
        }
        items.push(e);
        i = i + 1;
    }
    proof {
        assert(all.take(effects.len() as int) =~= all);
    }
}

/// The trees that declare the first `n` parameters: each name, and behind a
/// typed one `-` and its type.
pub open spec fn parameter_trees(parameters: Seq<ParameterView>, n: int) -> Seq<Tree>
    decreases n,
{
    if n <= 0 || n > parameters.len() {
        Seq::empty()
    } else {
        let p = parameters[n - 1];
        match p.type_tag {
            Some(t) => parameter_trees(parameters, n - 1) + seq![
                Tree::Atom(p.name),
                Tree::Atom(seq!['-']),
                Tree::Atom(t),
            ],
            None => parameter_trees(parameters, n - 1) + seq![Tree::Atom(p.name)],
        }
    }
}

fn push_parameters(items: &mut Vec<SExpr>, parameters: &Vec<PDDLParameter>)
    ensures
        trees_view(final(items)@) == trees_view(old(items)@) + parameter_trees(
            view_all(parameters@),
            parameters.len() as int,
        ),
{
    let ghost start = trees_view(items@);
    let ghost views = view_all(parameters@);
    let mut i: usize = 0;
    proof {
        assert(start + parameter_trees(views, 0) =~= start);
    }
    while i < parameters.len()
        invariant
            i <= parameters.len(),
            views == view_all(parameters@),
            trees_view(items@) == start + parameter_trees(views, i as int),
        decreases parameters.len() - i,
    {
        let p = &parameters[i];
        assert(views[i as int] == p@);
        let ghost so_far = trees_view(items@);
        let name = atom_of_name(&p.name);
        proof {
            lemma_trees_view_push(items@, name);
        }
        items.push(name);
        match &p.type_tag {
            Some(t) => {
                let mut dash: Vec<char> = Vec::new();
                dash.push('-');
                let dash = SExpr::Atom(dash);
                proof {
                    lemma_trees_view_push(items@, dash);
                    assert(dash@ == Tree::Atom(seq!['-']));
                }
                items.push(dash);
                let tag = atom_of_name(t);
                proof {
                    lemma_trees_view_push(items@, tag);
                }
                items.push(tag);
                proof {
                    assert(trees_view(items@) =~= so_far + seq![
                        Tree::Atom(p@.name),
                        Tree::Atom(seq!['-']),
                        Tree::Atom(t@),
                    ]);
                    assert(trees_view(items@) =~= start + parameter_trees(views, i + 1));
                }
            },
            None => {
                proof {
                    assert(trees_view(items@) =~= so_far + seq![Tree::Atom(p@.name)]);
                    assert(trees_view(items@) =~= start + parameter_trees(views, i + 1));
                }
            },
        }
        i = i + 1;
    }
}

/// The tree that declares a predicate.
pub open spec fn predicate_tree(p: PredicateView) -> Tree {
    Tree::List(
        seq![Tree::Atom(p.name)] + parameter_trees(p.parameters, p.parameters.len() as int),
    )
}

pub open spec fn predicate_trees(predicates: Seq<PredicateView>) -> Seq<Tree> {
    Seq::new(predicates.len(), |i: int| predicate_tree(predicates[i]))
}

fn build_predicate(p: &PDDLPredicate) -> (e: SExpr)
    ensures
        e@ == predicate_tree(p@),
{
    let mut items: Vec<SExpr> = Vec::new();
    let head = atom_of_name(&p.name);
    proof {
        lemma_trees_view_push(items@, head);
        assert(trees_view(Seq::<SExpr>::empty()) =~= Seq::<Tree>::empty());
    }
    items.push(head);
    push_parameters(&mut items, &p.parameters);
    proof {
        lemma_list_view(items);
        assert(trees_view(items@) =~= seq![Tree::Atom(p@.name)] + parameter_trees(
            p@.parameters,
            p@.parameters.len() as int,
        ));
    }
    SExpr::List(items)
}

/// Whether one of the first `n` warnings says of the action `k` that its
/// duration is no constant.
pub open spec fn warned(warnings: Seq<WarningView>, k: int, n: int) -> bool
    decreases n,
{
    if n <= 0 || n > warnings.len() {
        false
    } else {
        warned(warnings, k, n - 1) || (warnings[n - 1].kind
            == ErrorKind::UnsupportedDurationExpression && warnings[n - 1].action_index == k)
    }
}

fn is_warned(warnings: &Vec<Warning>, k: usize) -> (r: bool)
    ensures
        r == warned(view_all(warnings@), k as int, warnings.len() as int),
{
    let ghost views = view_all(warnings@);
    let mut found = false;
    let mut i: usize = 0;
    while i < warnings.len()
        invariant
            i <= warnings.len(),
            views == view_all(warnings@),
            found == warned(views, k as int, i as int),
        decreases warnings.len() - i,
    {
        assert(views[i as int] == warnings@[i as int]@);
        let same_kind = match warnings[i].kind {
            ErrorKind::UnsupportedDurationExpression => true,
            _ => false,
        };
        if same_kind && warnings[i].action_index == k {
            found = true;
        }
        i = i + 1;
    }
    found
}

/// The tree of the duration of an action: its constant, or the empty list
/// where its duration is no constant.
pub open spec fn duration_tree(duration: nat, unsupported: bool) -> Tree {
    if unsupported {
        Tree::List(Seq::empty())
    } else {
        Tree::List(
            seq![
                Tree::Atom("="@),
                Tree::Atom("?duration"@),
                Tree::Atom(duration_text(duration as u64)),
            ],
        )
    }
}

/// The tree of an action: a durative action whose conditions are a
/// conjunction of those at the start, those over all and those at the end,
/// and whose effects are a conjunction of those at the start and those at the
/// end.
pub open spec fn action_tree(a: ActionView, unsupported: bool) -> Tree {
    Tree::List(
        seq![
            Tree::Atom(":durative-action"@),
            Tree::Atom(a.name),
            Tree::Atom(":parameters"@),
            Tree::List(parameter_trees(a.parameters, a.parameters.len() as int)),
            Tree::Atom(":duration"@),
            duration_tree(a.duration, unsupported),
            Tree::Atom(":condition"@),
            Tree::List(
                seq![Tree::Atom("and"@)] + timed_trees("at"@, "start"@, a.conditions_start)
                    + timed_trees("over"@, "all"@, a.conditions_over_all) + timed_trees(
                    "at"@,
                    "end"@,
                    a.conditions_end,
                ),
            ),
            Tree::Atom(":effect"@),
            Tree::List(
                seq![Tree::Atom("and"@)] + timed_trees("at"@, "start"@, a.effects_start)
                    + timed_trees("at"@, "end"@, a.effects_end),
            ),
        ],
    )
}

/// The trees of the actions of a task; the duration of an action that a
/// warning is about is written as no constant.
pub open spec fn action_trees(actions: Seq<ActionView>, warnings: Seq<WarningView>) -> Seq<Tree> {
    Seq::new(
        actions.len(),
        |i: int| action_tree(actions[i], warned(warnings, i, warnings.len() as int)),
    )
}

fn build_action(a: &TemporalAction, unsupported: bool) -> (e: SExpr)
    ensures
        e@ == action_tree(a@, unsupported),
{
    let mut parameters: Vec<SExpr> = Vec::new();
    proof {
        assert(trees_view(Seq::<SExpr>::empty()) =~= Seq::<Tree>::empty());
    }
    push_parameters(&mut parameters, &a.parameters);
    proof {
        lemma_list_view(parameters);
        assert(trees_view(parameters@) =~= parameter_trees(
            a@.parameters,
            a@.parameters.len() as int,
        ));
    }
    let mut duration: Vec<SExpr> = Vec::new();
    if !unsupported {
        duration.push(atom_of_word("="));
        duration.push(atom_of_word("?duration"));
        duration.push(SExpr::Atom(write_duration(a.duration)));
    }
    proof {
        lemma_list_view(duration);
        if unsupported {
            assert(trees_view(duration@) =~= Seq::<Tree>::empty());
        } else {
            assert(trees_view(duration@) =~= seq![
                Tree::Atom("="@),
                Tree::Atom("?duration"@),
                Tree::Atom(duration_text(a.duration)),
            ]);
        }
    }
    let mut condition: Vec<SExpr> = Vec::new();
    condition.push(atom_of_word("and"));
    proof {
        assert(trees_view(condition@) =~= seq![Tree::Atom("and"@)]);
    }
    push_timed_conditions(&mut condition, "at", "start", &a.conditions_start);
    push_timed_conditions(&mut condition, "over", "all", &a.conditions_over_all);
    push_timed_conditions(&mut condition, "at", "end", &a.conditions_end);
    proof {
        lemma_list_view(condition);
    }
    let mut effect: Vec<SExpr> = Vec::new();
    effect.push(atom_of_word("and"));
    proof {
        assert(trees_view(effect@) =~= seq![Tree::Atom("and"@)]);
    }
    push_timed_effects(&mut effect, "at", "start", &a.effects_start);
    push_timed_effects(&mut effect, "at", "end", &a.effects_end);
    proof {
        lemma_list_view(effect);
    }
    let parameters = SExpr::List(parameters);
    let duration = SExpr::List(duration);
    let condition = SExpr::List(condition);
    let effect = SExpr::List(effect);
    let mut items: Vec<SExpr> = Vec::new();
    items.push(atom_of_word(":durative-action"));
    items.push(atom_of_name(&a.name));
    items.push(atom_of_word(":parameters"));
    items.push(parameters);
    items.push(atom_of_word(":duration"));
    items.push(duration);
    items.push(atom_of_word(":condition"));
    items.push(condition);
    items.push(atom_of_word(":effect"));
    items.push(effect);
    proof {
        lemma_list_view(items);
        assert(trees_view(items@) =~= action_tree(a@, unsupported)->List_0);
    }
    SExpr::List(items)
}

/// A section: a head word and items behind it, in a list.
pub open spec fn section_tree(head: Seq<char>, items: Seq<Tree>) -> Tree {
    Tree::List(seq![Tree::Atom(head)] + items)
}

/// The items that name a domain: its name, or nothing where it has none.
pub open spec fn name_items(name: Seq<char>) -> Seq<Tree> {
    if name.len() > 0 {
        seq![Tree::Atom(name)]
    } else {
        Seq::empty()
    }
}

fn push_name(items: &mut Vec<SExpr>, name: &String)
    ensures
        trees_view(final(items)@) == trees_view(old(items)@) + name_items(name@),
{
    let ghost before = trees_view(items@);
    if name.as_str().is_empty() {
        proof {
            assert(before + name_items(name@) =~= before);
        }
    } else {
        push_tree(items, atom_of_name(name));
        proof {
            assert(before.push(Tree::Atom(name@)) =~= before + name_items(name@));
        }
    }
}

/// The tree of the domain of a task.
pub open spec fn domain_tree(task: TaskView) -> Tree {
    Tree::List(
        seq![
            Tree::Atom("define"@),
            section_tree("domain"@, name_items(task.domain_name)),
            section_tree(":requirements"@, atoms_of(task.requirements)),
            section_tree(":types"@, atoms_of(task.types)),
            section_tree(":predicates"@, predicate_trees(task.predicates)),
        ] + action_trees(task.actions, task.warnings),
    )
}

fn push_tree(items: &mut Vec<SExpr>, e: SExpr)
    ensures
        trees_view(final(items)@) == trees_view(old(items)@).push(e@),
{
    proof {
        lemma_trees_view_push(items@, e);
    }
    items.push(e);
}

fn start_section(head: &str) -> (items: Vec<SExpr>)
    ensures
        trees_view(items@) == seq![Tree::Atom(head@)],
{
    let mut items: Vec<SExpr> = Vec::new();
    items.push(atom_of_word(head));
    proof {
        assert(trees_view(items@) =~= seq![Tree::Atom(head@)]);
    }
    items
}

fn close_section(items: Vec<SExpr>) -> (e: SExpr)
    ensures
        e@ == Tree::List(trees_view(items@)),
{
    proof {
        lemma_list_view(items);
    }
    SExpr::List(items)
}

/// Builds the tree of the domain of a task.
pub fn build_domain(task: &TemporalTask) -> (e: SExpr)
    ensures
        e@ == domain_tree(task@),
{
    let mut name = start_section("domain");
    push_name(&mut name, &task.domain_name);
    let mut requirements = start_section(":requirements");
    push_atoms(&mut requirements, &task.requirements);
    let mut types = start_section(":types");
    push_atoms(&mut types, &task.types);
    let mut predicates = start_section(":predicates");
    let ghost declared = predicate_trees(view_all(task.predicates@));
    let ghost head = trees_view(predicates@);
    let mut i: usize = 0;
    proof {
        assert(head + declared.take(0) =~= head);
    }
    while i < task.predicates.len()
        invariant
            i <= task.predicates.len(),
            declared == predicate_trees(view_all(task.predicates@)),
            trees_view(predicates@) == head + declared.take(i as int),
        decreases task.predicates.len() - i,
    {
        let p = build_predicate(&task.predicates[i]);
        proof {
            lemma_trees_view_push(predicates@, p);
            assert(view_all(task.predicates@)[i as int] == task.predicates@[i as int]@);
            assert(declared[i as int] == p@);
            assert(head + declared.take(i + 1) =~= (head + declared.take(i as int)).push(p@));
        }
        predicates.push(p);
        i = i + 1;
    }
    proof {
        assert(declared.take(task.predicates.len() as int) =~= declared);
    }
    let name = close_section(name);
    let requirements = close_section(requirements);
    let types = close_section(types);
    let predicates = close_section(predicates);
    let mut items = start_section("define");
    push_tree(&mut items, name);
    push_tree(&mut items, requirements);
    push_tree(&mut items, types);
    push_tree(&mut items, predicates);
    let ghost front = trees_view(items@);
    let ghost blocks = action_trees(view_all(task.actions@), view_all(task.warnings@));
    proof {
        assert(front =~= seq![
            Tree::Atom("define"@),
            section_tree("domain"@, name_items(task@.domain_name)),
            section_tree(":requirements"@, atoms_of(task@.requirements)),
            section_tree(":types"@, atoms_of(task@.types)),
            section_tree(":predicates"@, predicate_trees(task@.predicates)),
        ]);
        assert(front + blocks.take(0) =~= front);
    }
    let mut k: usize = 0;
    while k < task.actions.len()
        invariant
            k <= task.actions.len(),
            blocks == action_trees(view_all(task.actions@), view_all(task.warnings@)),
            trees_view(items@) == front + blocks.take(k as int),
        decreases task.actions.len() - k,
    {
        let a = build_action(&task.actions[k], is_warned(&task.warnings, k));
        proof {
            lemma_trees_view_push(items@, a);
            assert(view_all(task.actions@)[k as int] == task.actions@[k as int]@);
            assert(blocks[k as int] == a@);
            assert(front + blocks.take(k + 1) =~= (front + blocks.take(k as int)).push(a@));
        }
        items.push(a);
        k = k + 1;
    }
    proof {
        assert(blocks.take(task.actions.len() as int) =~= blocks);
    }
    close_section(items)
}

/// The text of the domain of a task.
pub open spec fn domain_text(task: TaskView) -> Seq<char> {
    printed(domain_tree(task))
}

/// The text of a value in ticks that may be negative.
pub open spec fn signed_text(ticks: i64) -> Seq<char> {
    if ticks < 0 {
        seq!['-'] + duration_text((-(ticks as int)) as u64)
    } else {
        duration_text(ticks as u64)
    }
}

fn write_signed(ticks: i64) -> (out: Vec<char>)
    ensures
        out@ == signed_text(ticks),
{
    if ticks < 0 {
        let size: u64 = if ticks == i64::MIN {
            0x8000_0000_0000_0000
        } else {
            (-ticks) as u64
        };
        let mut out: Vec<char> = Vec::new();
        out.push('-');
        let digits = write_duration(size);
        append_text(&mut out, &digits);
        proof {
            assert(out@ =~= seq!['-'] + duration_text(size));
        }
        out
    } else {
        write_duration(ticks as u64)
    }
}

/// The trees of the facts among the first `n` that hold, in the order of
/// their numbers.
pub open spec fn holding(facts: Seq<GroundAtom>, bits: Seq<bool>, n: int) -> Seq<Tree>
    decreases n,
{
    if n <= 0 || n > facts.len() {
        Seq::empty()
    } else if n <= bits.len() && bits[n - 1] {
        holding(facts, bits, n - 1).push(atom_tree(facts[n - 1].predicate, facts[n - 1].args))
    } else {
        holding(facts, bits, n - 1)
    }
}

/// The tree that assigns a fluent its value.
pub open spec fn fluent_tree(f: FluentView) -> Tree {
    Tree::List(
        seq![
            Tree::Atom("="@),
            atom_tree(f.function, f.args),
            Tree::Atom(signed_text(f.value as i64)),
        ],
    )
}

pub open spec fn fluent_trees(fluents: Seq<FluentView>) -> Seq<Tree> {
    Seq::new(fluents.len(), |i: int| fluent_tree(fluents[i]))
}

pub open spec fn literal_trees(literals: Seq<Literal>) -> Seq<Tree> {
    Seq::new(literals.len(), |i: int| literal_tree(literals[i]))
}

/// The tree of the problem of a task.
pub open spec fn problem_tree(task: TaskView) -> Tree {
    Tree::List(
        seq![
            Tree::Atom("define"@),
            section_tree("problem"@, seq![Tree::Atom("task"@)]),
            section_tree(":domain"@, name_items(task.domain_name)),
            section_tree(":objects"@, parameter_trees(task.objects, task.objects.len() as int)),
            section_tree(
                ":init"@,
                holding(task.facts, task.initial_state.facts, task.facts.len() as int)
                    + fluent_trees(task.initial_state.numeric_values),
            ),
            section_tree(
                ":goal"@,
                seq![section_tree("and"@, literal_trees(task.goal_conditions))],
            ),
        ],
    )
}

/// Builds the tree of the problem of a task.
pub fn build_problem(task: &TemporalTask) -> (e: SExpr)
    ensures
        e@ == problem_tree(task@),
{
    let mut name = start_section("problem");
    push_tree(&mut name, atom_of_word("task"));
    let mut domain = start_section(":domain");
    push_name(&mut domain, &task.domain_name);
    let mut objects = start_section(":objects");
    push_parameters(&mut objects, &task.objects);
    let mut init = start_section(":init");
    let ghost facts = view_all(task.facts@);
    let ghost bits = task.initial_state.facts@;
    let ghost head = trees_view(init@);
    let mut i: usize = 0;
    proof {
        assert(head + holding(facts, bits, 0) =~= head);
    }
    while i < task.facts.len()
        invariant
            i <= task.facts.len(),
            facts == view_all(task.facts@),
            bits == task.initial_state.facts@,
            trees_view(init@) == head + holding(facts, bits, i as int),
        decreases task.facts.len() - i,
    {
        assert(facts[i as int] == task.facts@[i as int]@);
        if i < task.initial_state.facts.len() && task.initial_state.facts[i] {
            let ghost before = trees_view(init@);
            let a = build_atom(&task.facts[i].predicate, &task.facts[i].args);
            push_tree(&mut init, a);
            proof {
                assert(before.push(a@) =~= head + holding(facts, bits, i + 1));
            }
        }
        i = i + 1;
    }
    let ghost atoms = trees_view(init@);
    let ghost assigned = fluent_trees(view_all(task.initial_state.numeric_values@));
    let mut k: usize = 0;
    proof {
        assert(atoms + assigned.take(0) =~= atoms);
    }
    while k < task.initial_state.numeric_values.len()
        invariant
            k <= task.initial_state.numeric_values.len(),
            assigned == fluent_trees(view_all(task.initial_state.numeric_values@)),
            trees_view(init@) == atoms + assigned.take(k as int),
        decreases task.initial_state.numeric_values.len() - k,
    {
        let f = &task.initial_state.numeric_values[k];
        assert(view_all(task.initial_state.numeric_values@)[k as int] == f@);
        let mut items = start_section("=");
        push_tree(&mut items, build_atom(&f.function, &f.args));
        push_tree(&mut items, SExpr::Atom(write_signed(f.value)));
        let e = close_section(items);
        proof {
            assert(e@->List_0 =~= fluent_tree(f@)->List_0);
            assert(atoms + assigned.take(k + 1) =~= (atoms + assigned.take(k as int)).push(e@));
        }
        push_tree(&mut init, e);
        k = k + 1;
    }
    proof {
        assert(assigned.take(task.initial_state.numeric_values.len() as int) =~= assigned);
    }
    let mut all = start_section("and");
    let ghost wanted = literal_trees(conditions_view(task.goal_conditions@));
    let ghost and_head = trees_view(all@);
    let mut g: usize = 0;
    proof {
        assert(and_head + wanted.take(0) =~= and_head);
    }
    while g < task.goal_conditions.len()
        invariant
            g <= task.goal_conditions.len(),
            wanted == literal_trees(conditions_view(task.goal_conditions@)),
            trees_view(all@) == and_head + wanted.take(g as int),
        decreases task.goal_conditions.len() - g,
    {
        let c = &task.goal_conditions[g];
        assert(conditions_view(task.goal_conditions@)[g as int] == c@);
        let e = build_literal(&c.predicate, &c.args, c.is_negative);
        proof {
            assert(and_head + wanted.take(g + 1) =~= (and_head + wanted.take(g as int)).push(e@));
        }
        push_tree(&mut all, e);
        g = g + 1;
    }
    proof {
        assert(wanted.take(task.goal_conditions.len() as int) =~= wanted);
    }
    let mut goal = start_section(":goal");
    push_tree(&mut goal, close_section(all));
    proof {
        assert(trees_view(name@) =~= seq![Tree::Atom("problem"@)] + seq![Tree::Atom("task"@)]);
        assert(trees_view(init@) =~= seq![Tree::Atom(":init"@)] + (holding(
            task@.facts,
            task@.initial_state.facts,
            task@.facts.len() as int,
        ) + fluent_trees(task@.initial_state.numeric_values)));
        assert(trees_view(goal@) =~= seq![Tree::Atom(":goal"@)] + seq![
            section_tree("and"@, literal_trees(task@.goal_conditions)),
        ]);
    }
    let name = close_section(name);
    let domain = close_section(domain);
    let objects = close_section(objects);
    let init = close_section(init);
    let goal = close_section(goal);
    let mut items = start_section("define");
    push_tree(&mut items, name);
    push_tree(&mut items, domain);
    push_tree(&mut items, objects);
    push_tree(&mut items, init);
    push_tree(&mut items, goal);
    let e = close_section(items);
    proof {
        assert(e@->List_0 =~= problem_tree(task@)->List_0);
    }
    e
}

/// The text of the problem of a task.
pub open spec fn problem_text(task: TaskView) -> Seq<char> {
    printed(problem_tree(task))
}

/// Writes a task as a domain text and a problem text.
///
/// Every action is written as a durative action. Its duration is written as
/// a constant, unless a warning says that it is none: then it is written as
/// no constant, so that the text raises the warning again. The problem is
/// called `task`.
pub fn serialise(task: &TemporalTask) -> (texts: (String, String))
    ensures
        texts.0@ == domain_text(task@),
        texts.1@ == problem_text(task@),
{
    let domain = build_domain(task);
    let problem = build_problem(task);
    let mut first: Vec<char> = Vec::new();
    print_tree(&domain, &mut first);
    let mut second: Vec<char> = Vec::new();
    print_tree(&problem, &mut second);
    proof {
        assert(Seq::<char>::empty() + printed(domain@) =~= printed(domain@));
        assert(Seq::<char>::empty() + printed(problem@) =~= printed(problem@));
    }
    (string_of(&first), string_of(&second))
}

} // verus!
