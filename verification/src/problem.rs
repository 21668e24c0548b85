//! The problem compiler: it reads the objects, the initial state and the goal
//! out of a problem's tree.

use vstd::prelude::*;
use crate::actions::{check_conditions_declared, find_predicate_index, is_declared, undeclared_in};
use crate::domain::{
    define_items, extract_domain_name, find_section, is_dash, name_in, section_of, take_define_form,
};
use crate::error::{ErrorKind, Fault, PlannerError, fault, fault_about};
use crate::formula::{
    Relation, all_atoms, atom_names, atom_texts, formula_of, parse_formula, relation_for,
    relation_of,
};
use crate::sexpr::{
    SExpr, Tree, read_expressions, text_trees, trees_view, lemma_list_view,
};
use crate::temporal_task::{
    Condition, Fact, FluentView, GroundAtom, Literal, NumericFluent, PDDLParameter, PDDLPredicate,
    ParameterView, PredicateView, condition_literals, conditions_view,
    extract_conditions_from_formula,
};
use crate::text::{
    names_view, parse_signed_decimal, signed_decimal_ticks, string_of, view_all,
    lemma_view_all_empty, lemma_view_all_push,
};

verus! {

/// Whether item `i` of an objects section names an object: it is an atom
/// that is no `-` and does not follow one.
pub open spec fn is_name_position(items: Seq<Tree>, i: int) -> bool {
    &&& 1 <= i < items.len()
    &&& items[i] is Atom
    &&& !is_dash(items[i])
    &&& !is_dash(items[i - 1])
}

/// The type that the first `- type` at or after position `i` gives, if there
/// is one. A `-` is no type.
pub open spec fn type_after(items: Seq<Tree>, i: int) -> Option<Seq<char>>
    decreases items.len() - i,
{
    if i < 0 || i + 1 >= items.len() {
        None
    } else if is_dash(items[i]) && items[i + 1] is Atom && !is_dash(items[i + 1]) {
        Some(items[i + 1]->Atom_0)
    } else {
        type_after(items, i + 1)
    }
}

/// The objects that the items `1..n` of an objects section declare. Each
/// name has the type that the next `- type` after it gives.
pub open spec fn objects_of(section: Seq<Tree>, n: int) -> Seq<ParameterView>
    decreases n,
{
    if n <= 1 || n > section.len() {
        Seq::empty()
    } else if is_name_position(section, n - 1) {
        objects_of(section, n - 1).push(
            ParameterView { name: section[n - 1]->Atom_0, type_tag: type_after(section, n) },
        )
    } else {
        objects_of(section, n - 1)
    }
}

pub open spec fn objects_in(items: Seq<Tree>) -> Seq<ParameterView> {
    match section_of(items, ":objects"@) {
        Some(section) => objects_of(section, section.len() as int),
        None => Seq::empty(),
    }
}

fn is_dash_item(e: &SExpr) -> (r: bool)
    ensures
        r == is_dash(e@),
{
    match e {
        SExpr::Atom(a) => {
            if a.len() == 1 && a[0] == '-' {
                assert(a@ =~= seq!['-']);
                true
            } else {
                proof {
                    if a@ == seq!['-'] {
                        assert(a@.len() == 1 && a@[0] == '-');
                    }
                }
                false
            }
        },
        SExpr::List(_) => false,
    }
}

fn find_type_after(items: &Vec<SExpr>, from: usize) -> (r: Option<String>)
    ensures
        match type_after(trees_view(items@), from as int) {
            Some(t) => r is Some && r->0@ == t,
            None => r is None,
        },
{
    let ghost trees = trees_view(items@);
    let mut i: usize = from;
    while i < items.len() && items.len() - i > 1
        invariant
            trees == trees_view(items@),
            type_after(trees, from as int) == type_after(trees, i as int),
        decreases items.len() - i,
    {
        assert(trees[i as int] == items@[i as int]@);
        assert(trees[i + 1] == items@[i + 1]@);
        if is_dash_item(&items[i]) && !is_dash_item(&items[i + 1]) {
            match &items[i + 1] {
                SExpr::Atom(t) => {
                    return Some(string_of(t));
                },
                SExpr::List(_) => {},
            }
        }
        i = i + 1;
    }
    None
}

/// Reads the objects of a problem.
pub fn extract_objects(items: &Vec<SExpr>) -> (objects: Vec<PDDLParameter>)
    ensures
        view_all(objects@) == objects_in(trees_view(items@)),
{
    let mut objects: Vec<PDDLParameter> = Vec::new();
    proof {
        lemma_view_all_empty::<PDDLParameter>();
    }
    match find_section(items, ":objects") {
        None => objects,
        Some(at) => {
            assert(trees_view(items@)[at as int] == items@[at as int]@);
            match &items[at] {
                SExpr::Atom(_) => objects,
                SExpr::List(section) => {
                    proof {
                        lemma_list_view(*section);
                    }
                    let ghost trees = trees_view(section@);
                    if section.len() < 1 {
                        return objects;
                    }
                    let mut i: usize = 1;
                    while i < section.len()
                        invariant
                            1 <= i <= section.len(),
                            trees == trees_view(section@),
                            view_all(objects@) == objects_of(trees, i as int),
                        decreases section.len() - i,
                    {
                        assert(trees[i as int] == section@[i as int]@);
                        assert(trees[i - 1] == section@[i - 1]@);
                        if !is_dash_item(&section[i]) && !is_dash_item(&section[i - 1]) {
                            match &section[i] {
                                SExpr::Atom(a) => {
                                    let o = PDDLParameter {
                                        name: string_of(a),
                                        type_tag: find_type_after(section, i + 1),
                                    };
                                    proof {
                                        lemma_view_all_push(objects@, o);
                                    }
                                    objects.push(o);
                                },
                                SExpr::List(_) => {},
                            }
                        }
                        i = i + 1;
                    }
                    objects
                },
            }
        },
    }
}

/// What one entry of an initial state says.
pub enum InitEntry {
    /// A ground atom that holds.
    Holds(GroundAtom),
    /// A numeric fluent and its value.
    Assigns(FluentView),
}

/// The fluent that `(= target value)` assigns: the target is a function
/// applied to atoms, or a bare function name, and the value a decimal literal
/// that may carry a sign.
pub open spec fn assignment_of(items: Seq<Tree>) -> Result<FluentView, Fault> {
    if items.len() == 3 && items[2] is Atom && signed_decimal_ticks(items[2]->Atom_0) is Some {
        let value = signed_decimal_ticks(items[2]->Atom_0)->0;
        match items[1] {
            Tree::Atom(function) => Ok(FluentView { function, args: Seq::empty(), value }),
            Tree::List(target) => if target.len() > 0 && all_atoms(target) {
                Ok(
                    FluentView {
                        function: target[0]->Atom_0,
                        args: atom_texts(target.skip(1)),
                        value,
                    },
                )
            } else {
                Err(fault(ErrorKind::MalformedSyntax))
            },
        }
    } else {
        Err(fault(ErrorKind::MalformedSyntax))
    }
}

/// What an entry of an initial state says. An entry with the head `=` assigns
/// a fluent; any other entry is a predicate applied to atoms, and the
/// predicate must be declared.
pub open spec fn init_entry_of(t: Tree, predicates: Seq<PredicateView>) -> Result<InitEntry, Fault> {
    if !(t is List) || t->List_0.len() == 0 || !(t->List_0[0] is Atom) {
        Err(fault(ErrorKind::MalformedSyntax))
    } else {
        let items = t->List_0;
        let head = items[0]->Atom_0;
        if relation_of(head) == Some(Relation::Equal) {
            match assignment_of(items) {
                Ok(f) => Ok(InitEntry::Assigns(f)),
                Err(f) => Err(f),
            }
        } else if !all_atoms(items) {
            Err(fault(ErrorKind::MalformedSyntax))
        } else if !is_declared(predicates, head, items.len() - 1) {
            Err(fault_about(ErrorKind::UnknownSymbol, head))
        } else {
            Ok(InitEntry::Holds(GroundAtom { predicate: head, args: atom_texts(items.skip(1)) }))
        }
    }
}

/// The atoms that the entries `1..n` of an initial state say to hold, in the
/// order of the entries.
pub open spec fn init_atoms_of(section: Seq<Tree>, predicates: Seq<PredicateView>, n: int) -> Result<
    Seq<GroundAtom>,
    Fault,
>
    decreases n,
{
    if n <= 1 || n > section.len() {
        Ok(Seq::empty())
    } else {
        match init_atoms_of(section, predicates, n - 1) {
            Err(f) => Err(f),
            Ok(atoms) => match init_entry_of(section[n - 1], predicates) {
                Err(f) => Err(f),
                Ok(InitEntry::Holds(a)) => Ok(atoms.push(a)),
                Ok(InitEntry::Assigns(_)) => Ok(atoms),
            },
        }
    }
}

/// The fluents that the entries `1..n` of an initial state assign, in the
/// order of the entries. It is only asked of a section whose atoms were read.
pub open spec fn init_fluents_of(section: Seq<Tree>, predicates: Seq<PredicateView>, n: int) -> Seq<
    FluentView,
>
    decreases n,
{
    if n <= 1 || n > section.len() {
        Seq::empty()
    } else {
        match init_entry_of(section[n - 1], predicates) {
            Ok(InitEntry::Assigns(f)) => init_fluents_of(section, predicates, n - 1).push(f),
            _ => init_fluents_of(section, predicates, n - 1),
        }
    }
}

pub proof fn lemma_init_fault_persists(
    section: Seq<Tree>,
    predicates: Seq<PredicateView>,
    n: int,
    m: int,
)
    requires
        1 <= n <= m <= section.len(),
        init_atoms_of(section, predicates, n) is Err,
    ensures
        init_atoms_of(section, predicates, m) == init_atoms_of(section, predicates, n),
    decreases m - n,
{
    if n < m {
        lemma_init_fault_persists(section, predicates, n, m - 1);
    }
}

/// What the exec code holds of an entry.
enum Entry {
    Holds(Fact),
    Assigns(NumericFluent),
}

spec fn entry_view(e: Entry) -> InitEntry {
    match e {
        Entry::Holds(f) => InitEntry::Holds(f@),
        Entry::Assigns(f) => InitEntry::Assigns(f@),
    }
}

fn parse_assignment(items: &Vec<SExpr>) -> (r: Result<NumericFluent, PlannerError>)
    ensures
        match assignment_of(trees_view(items@)) {
            Ok(f) => r is Ok && r->Ok_0@ == f,
            Err(f) => r is Err && r->Err_0@ == f,
        },
{
    let ghost trees = trees_view(items@);
    if items.len() != 3 {
        return Err(PlannerError::new(ErrorKind::MalformedSyntax));
    }
    assert(trees[1] == items@[1]@);
    assert(trees[2] == items@[2]@);
    let value = match &items[2] {
        SExpr::Atom(v) => match parse_signed_decimal(v) {
            Some(value) => value,
            None => {
                return Err(PlannerError::new(ErrorKind::MalformedSyntax));
            },
        },
        SExpr::List(_) => {
            return Err(PlannerError::new(ErrorKind::MalformedSyntax));
        },
    };
    match &items[1] {
        SExpr::Atom(function) => {
            let args: Vec<String> = Vec::new();
            proof {
                assert(names_view(args@) =~= Seq::<Seq<char>>::empty());
            }
            Ok(NumericFluent { function: string_of(function), args, value })
        },
        SExpr::List(target) => {
            proof {
                lemma_list_view(*target);
            }
            let ghost inner = trees_view(target@);
            if target.len() == 0 {
                return Err(PlannerError::new(ErrorKind::MalformedSyntax));
            }
            assert(inner[0] == target@[0]@);
            match &target[0] {
                SExpr::Atom(function) => {
                    proof {
                        lemma_all_atoms_after_head(inner);
                    }
                    match atom_names(target, 1) {
                        Some(args) => Ok(
                            NumericFluent { function: string_of(function), args, value },
                        ),
                        None => Err(PlannerError::new(ErrorKind::MalformedSyntax)),
                    }
                },
                SExpr::List(_) => Err(PlannerError::new(ErrorKind::MalformedSyntax)),
            }
        },
    }
}

/// A list whose head is an atom consists of atoms exactly when the items
/// after the head do.
pub proof fn lemma_all_atoms_after_head(items: Seq<Tree>)
    requires
        items.len() > 0,
        items[0] is Atom,
    ensures
        all_atoms(items) <==> all_atoms(items.skip(1)),
{
    if all_atoms(items) {
        assert forall|k: int| 0 <= k < items.skip(1).len() implies #[trigger] items.skip(1)[k] is Atom by {
            assert(items[k + 1] is Atom);
        }
    }
    if all_atoms(items.skip(1)) {
        assert forall|k: int| 0 <= k < items.len() implies #[trigger] items[k] is Atom by {
            if k > 0 {
                assert(items.skip(1)[k - 1] is Atom);
            }
        }
    }
}

fn parse_init_entry(e: &SExpr, predicates: &Vec<PDDLPredicate>) -> (r: Result<Entry, PlannerError>)
    ensures
        match init_entry_of(e@, view_all(predicates@)) {
            Ok(entry) => r is Ok && entry_view(r->Ok_0) == entry,
            Err(f) => r is Err && r->Err_0@ == f,
        },
{
    match e {
        SExpr::Atom(_) => Err(PlannerError::new(ErrorKind::MalformedSyntax)),
        SExpr::List(items) => {
            proof {
                lemma_list_view(*items);
            }
            let ghost trees = trees_view(items@);
            if items.len() == 0 {
                return Err(PlannerError::new(ErrorKind::MalformedSyntax));
            }
            assert(trees[0] == items@[0]@);
            match &items[0] {
                SExpr::List(_) => Err(PlannerError::new(ErrorKind::MalformedSyntax)),
                SExpr::Atom(head) => {
                    match relation_for(head) {
                        Some(Relation::Equal) => match parse_assignment(items) {
                            Ok(f) => Ok(Entry::Assigns(f)),
                            Err(x) => Err(x),
                        },
                        _ => {
                            proof {
                                lemma_all_atoms_after_head(trees);
                            }
                            match atom_names(items, 1) {
                                None => Err(PlannerError::new(ErrorKind::MalformedSyntax)),
                                Some(args) => {
                                    let name = string_of(head);
                                    proof {
                                        assert(names_view(args@).len() == args.len());
                                        assert(atom_texts(trees.skip(1)).len() == trees.len() - 1);
                                        assert(args.len() == items.len() - 1);
                                    }
                                    if find_predicate_index(predicates, &name, &args).is_none() {
                                        Err(PlannerError::about(ErrorKind::UnknownSymbol, name))
                                    } else {
                                        Ok(Entry::Holds(Fact { predicate: name, args }))
                                    }
                                },
                            }
                        },
                    }
                },
            }
        },
    }
}

/// What the `:init` section of a problem says: the atoms that hold and the
/// fluents that are assigned. A problem without the section says nothing.
pub open spec fn init_in(items: Seq<Tree>, predicates: Seq<PredicateView>) -> Result<
    (Seq<GroundAtom>, Seq<FluentView>),
    Fault,
> {
    match section_of(items, ":init"@) {
        None => Ok((Seq::empty(), Seq::empty())),
        Some(section) => match init_atoms_of(section, predicates, section.len() as int) {
            Err(f) => Err(f),
            Ok(atoms) => Ok((atoms, init_fluents_of(section, predicates, section.len() as int))),
        },
    }
}

/// Reads the initial state of a problem: the atoms that hold and the fluents
/// that are assigned, each in the order of the text.
pub fn parse_initial_state(items: &Vec<SExpr>, predicates: &Vec<PDDLPredicate>) -> (r: Result<
    (Vec<Fact>, Vec<NumericFluent>),
    PlannerError,
>)
    ensures
        match init_in(trees_view(items@), view_all(predicates@)) {
            Ok(init) => r is Ok && view_all(r->Ok_0.0@) == init.0 && view_all(r->Ok_0.1@)
                == init.1,
            Err(f) => r is Err && r->Err_0@ == f,
        },
{
    let mut atoms: Vec<Fact> = Vec::new();
    let mut fluents: Vec<NumericFluent> = Vec::new();
    proof {
        lemma_view_all_empty::<Fact>();
        lemma_view_all_empty::<NumericFluent>();
    }
    match find_section(items, ":init") {
        None => Ok((atoms, fluents)),
        Some(at) => {
            assert(trees_view(items@)[at as int] == items@[at as int]@);
            match &items[at] {
                SExpr::Atom(_) => Ok((atoms, fluents)),
                SExpr::List(section) => {
                    proof {
                        lemma_list_view(*section);
                    }
                    let ghost trees = trees_view(section@);
                    let ghost table = view_all(predicates@);
                    if section.len() < 1 {
                        return Ok((atoms, fluents));
                    }
                    let mut i: usize = 1;
                    while i < section.len()
                        invariant
                            1 <= i <= section.len(),
                            trees == trees_view(section@),
                            table == view_all(predicates@),
                            section_of(trees_view(items@), ":init"@) == Some(trees),
                            init_atoms_of(trees, table, i as int) == Ok::<Seq<GroundAtom>, Fault>(
                                view_all(atoms@),
                            ),
                            init_fluents_of(trees, table, i as int) == view_all(fluents@),
                        decreases section.len() - i,
                    {
                        assert(trees[i as int] == section@[i as int]@);
                        match parse_init_entry(&section[i], predicates) {
                            Ok(Entry::Holds(a)) => {
                                proof {
                                    lemma_view_all_push(atoms@, a);
                                }
                                atoms.push(a);
                            },
                            Ok(Entry::Assigns(f)) => {
                                proof {
                                    lemma_view_all_push(fluents@, f);
                                }
                                fluents.push(f);
                            },
                            Err(e) => {
                                proof {
                                    lemma_init_fault_persists(
                                        trees,
                                        table,
                                        i + 1,
                                        section.len() as int,
                                    );
                                }
                                return Err(e);
                            },
                        }
                        i = i + 1;
                    }
                    Ok((atoms, fluents))
                },
            }
        },
    }
}

/// The goal of a problem: the conditions that the formula of its `:goal`
/// section lists. A problem without the section has no goal conditions; a
/// section that is not one formula is malformed, and a goal that applies an
/// undeclared predicate is a fault about that predicate.
pub open spec fn goal_in(items: Seq<Tree>, predicates: Seq<PredicateView>) -> Result<
    Seq<Literal>,
    Fault,
> {
    match section_of(items, ":goal"@) {
        None => Ok(Seq::empty()),
        Some(section) => if section.len() != 2 {
            Err(fault(ErrorKind::MalformedSyntax))
        } else {
            match formula_of(section[1]) {
                Err(f) => Err(f),
                Ok(f) => match undeclared_in(
                    condition_literals(f),
                    predicates,
                    condition_literals(f).len() as int,
                ) {
                    Some(name) => Err(fault_about(ErrorKind::UnknownSymbol, name)),
                    None => Ok(condition_literals(f)),
                },
            }
        },
    }
}

/// Reads the goal conditions of a problem.
pub fn parse_goal_conditions(items: &Vec<SExpr>, predicates: &Vec<PDDLPredicate>) -> (r: Result<
    Vec<Condition>,
    PlannerError,
>)
    ensures
        match goal_in(trees_view(items@), view_all(predicates@)) {
            Ok(goal) => r is Ok && conditions_view(r->Ok_0@) == goal,
            Err(f) => r is Err && r->Err_0@ == f,
        },
{
    match find_section(items, ":goal") {
        None => {
            let goal: Vec<Condition> = Vec::new();
            proof {
                assert(conditions_view(goal@) =~= Seq::<Literal>::empty());
            }
            Ok(goal)
        },
        Some(at) => {
            assert(trees_view(items@)[at as int] == items@[at as int]@);
            match &items[at] {
                SExpr::Atom(_) => Err(PlannerError::new(ErrorKind::MalformedSyntax)),
                SExpr::List(section) => {
                    proof {
                        lemma_list_view(*section);
                    }
                    if section.len() != 2 {
                        return Err(PlannerError::new(ErrorKind::MalformedSyntax));
                    }
                    assert(trees_view(section@)[1] == section@[1]@);
                    let formula = match parse_formula(&section[1]) {
                        Ok(f) => f,
                        Err(e) => {
                            return Err(e);
                        },
                    };
                    let goal = extract_conditions_from_formula(&formula);
                    match check_conditions_declared(&goal, predicates) {
                        Ok(()) => Ok(goal),
                        Err(e) => Err(e),
                    }
                },
            }
        },
    }
}

/// What a problem's text declares.
#[derive(Debug)]
pub struct PDDLProblem {
    pub name: String,
    pub objects: Vec<PDDLParameter>,
    pub init_atoms: Vec<Fact>,
    pub init_fluents: Vec<NumericFluent>,
    pub goal: Vec<Condition>,
}

pub struct ProblemView {
    pub name: Seq<char>,
    pub objects: Seq<ParameterView>,
    pub init_atoms: Seq<GroundAtom>,
    pub init_fluents: Seq<FluentView>,
    pub goal: Seq<Literal>,
}

impl View for PDDLProblem {
    type V = ProblemView;

    open spec fn view(&self) -> ProblemView {
        ProblemView {
            name: self.name@,
            objects: view_all(self.objects@),
            init_atoms: view_all(self.init_atoms@),
            init_fluents: view_all(self.init_fluents@),
            goal: conditions_view(self.goal@),
        }
    }
}

/// What the items of a problem's `define` form declare.
pub open spec fn problem_of(items: Seq<Tree>, predicates: Seq<PredicateView>) -> Result<
    ProblemView,
    Fault,
> {
    match init_in(items, predicates) {
        Err(f) => Err(f),
        Ok(init) => match goal_in(items, predicates) {
            Err(f) => Err(f),
            Ok(goal) => Ok(
                ProblemView {
                    name: name_in(items, "problem"@),
                    objects: objects_in(items),
                    init_atoms: init.0,
                    init_fluents: init.1,
                    goal,
                },
            ),
        },
    }
}

/// What a problem's text declares, read against the predicates of its domain.
pub open spec fn problem_of_text(content: Seq<char>, predicates: Seq<PredicateView>) -> Result<
    ProblemView,
    Fault,
> {
    match text_trees(content) {
        Err(f) => Err(f),
        Ok(trees) => match define_items(trees) {
            Err(f) => Err(f),
            Ok(items) => problem_of(items, predicates),
        },
    }
}

/// Reads what a problem's text declares.
pub fn parse_pddl_problem(problem_content: &str, predicates: &Vec<PDDLPredicate>) -> (r: Result<
    PDDLProblem,
    PlannerError,
>)
    ensures
        match problem_of_text(problem_content@, view_all(predicates@)) {
            Ok(p) => r is Ok && r->Ok_0@ == p,
            Err(f) => r is Err && r->Err_0@ == f,
        },
{
    let trees = match read_expressions(problem_content) {
        Ok(t) => t,
        Err(e) => {
            return Err(e);
        },
    };
    let items = match take_define_form(trees) {
        Ok(i) => i,
        Err(e) => {
            return Err(e);
        },
    };
    let (init_atoms, init_fluents) = match parse_initial_state(&items, predicates) {
        Ok(init) => init,
        Err(e) => {
            return Err(e);
        },
    };
    let goal = match parse_goal_conditions(&items, predicates) {
        Ok(g) => g,
        Err(e) => {
            return Err(e);
        },
    };
    let name = extract_domain_name(&items, "problem");
    let objects = extract_objects(&items);
    Ok(PDDLProblem { name, objects, init_atoms, init_fluents, goal })
}

} // verus!
