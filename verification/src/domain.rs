//! The domain compiler: it reads the name, the requirements, the types, the
//! predicates and the action templates out of a domain's tree.

use vstd::prelude::*;
use crate::error::{ErrorKind, Fault, PlannerError, fault, fault_about};
use crate::formula::{Formula, PDDLFormula, Relation, formula_of, parse_formula};
use crate::sexpr::{
    SExpr, Tree, read_expressions, text_trees, trees_view, lemma_list_view,
};
use crate::temporal_task::{PDDLParameter, PDDLPredicate, ParameterView, PredicateView};
use crate::text::{
    is_word, names_view, same_symbol, string_of, view_all, lemma_view_all_empty,
    lemma_view_all_push,
};

verus! {

/// The duration of an action that declares none, or none that is a constant:
/// one time unit, in ticks.
pub const DEFAULT_DURATION: u64 = 1_000_000;

/// Whether a tree is a list that starts with the given word.
pub open spec fn has_head(t: Tree, word: Seq<char>) -> bool {
    &&& t is List
    &&& t->List_0.len() > 0
    &&& t->List_0[0] is Atom
    &&& same_symbol(t->List_0[0]->Atom_0, word)
}

pub fn head_is(e: &SExpr, word: &str) -> (r: bool)
    ensures
        r == has_head(e@, word@),
{
    match e {
        SExpr::Atom(_) => false,
        SExpr::List(items) => {
            proof {
                lemma_list_view(*items);
            }
            if items.len() == 0 {
                return false;
            }
            assert(trees_view(items@)[0] == items@[0]@);
            match &items[0] {
                SExpr::Atom(head) => is_word(head, word),
                SExpr::List(_) => false,
            }
        },
    }
}

/// The place of the first list at or after `from` that starts with the given
/// word, or -1 if there is none.
pub open spec fn section_index(items: Seq<Tree>, word: Seq<char>, from: int) -> int
    decreases items.len() - from,
{
    if from < 0 || from >= items.len() {
        -1
    } else if has_head(items[from], word) {
        from
    } else {
        section_index(items, word, from + 1)
    }
}

/// The items of the first section with the given head among the items of a
/// `define` form, if there is one.
pub open spec fn section_of(items: Seq<Tree>, word: Seq<char>) -> Option<Seq<Tree>> {
    let i = section_index(items, word, 1);
    if i < 0 {
        None
    } else {
        Some(items[i]->List_0)
    }
}

/// Finds the first section with the given head.
pub fn find_section(items: &Vec<SExpr>, word: &str) -> (r: Option<usize>)
    ensures
        match r {
            Some(i) => i == section_index(trees_view(items@), word@, 1) && i < items.len()
                && items@[i as int] is List,
            None => section_index(trees_view(items@), word@, 1) < 0,
        },
{
    let ghost trees = trees_view(items@);
    let mut i: usize = 1;
    while i < items.len()
        invariant
            1 <= i,
            trees == trees_view(items@),
            section_index(trees, word@, 1) == section_index(trees, word@, i as int),
        decreases items.len() - i,
    {
        assert(trees[i as int] == items@[i as int]@);
        if head_is(&items[i], word) {
            return Some(i);
        }
        i = i + 1;
    }
    None
}

/// The place of the first atom at or after `from` that is the given keyword
/// and has an item after it, or -1 if there is none.
pub open spec fn keyword_index(items: Seq<Tree>, key: Seq<char>, from: int) -> int
    decreases items.len() - from,
{
    if from < 0 || from + 1 >= items.len() {
        -1
    } else if items[from] is Atom && same_symbol(items[from]->Atom_0, key) {
        from
    } else {
        keyword_index(items, key, from + 1)
    }
}

/// The item that follows the first occurrence of a keyword in an action
/// block, if the keyword occurs.
pub open spec fn keyword_value(items: Seq<Tree>, key: Seq<char>) -> Option<Tree> {
    let i = keyword_index(items, key, 2);
    if i < 0 {
        None
    } else {
        Some(items[i + 1])
    }
}

/// Finds the place of the item that follows a keyword.
pub fn find_keyword(items: &Vec<SExpr>, key: &str) -> (r: Option<usize>)
    ensures
        match r {
            Some(i) => 0 < i < items.len() && keyword_index(trees_view(items@), key@, 2) == i - 1
                && keyword_value(trees_view(items@), key@) == Some(items@[i as int]@),
            None => keyword_value(trees_view(items@), key@) is None,
        },
{
    let ghost trees = trees_view(items@);
    let mut i: usize = 2;
    while i < items.len() && i + 1 < items.len()
        invariant
            2 <= i,
            trees == trees_view(items@),
            keyword_index(trees, key@, 2) == keyword_index(trees, key@, i as int),
        decreases items.len() - i,
    {
        assert(trees[i as int] == items@[i as int]@);
        assert(trees[i + 1] == items@[i + 1]@);
        match &items[i] {
            SExpr::Atom(a) => {
                if is_word(a, key) {
                    return Some(i + 1);
                }
            },
            SExpr::List(_) => {},
        }
        i = i + 1;
    }
    None
}

pub open spec fn is_variable(t: Tree) -> bool {
    t is Atom && t->Atom_0.len() > 0 && t->Atom_0[0] == '?'
}

pub open spec fn is_dash(t: Tree) -> bool {
    t is Atom && t->Atom_0 == seq!['-']
}

/// The parameters that the items from `i` on declare. A parameter is an atom
/// that starts with `?`; it is typed when `-` and an atom follow it. Anything
/// else is passed over.
pub open spec fn parameters_from(items: Seq<Tree>, i: int) -> Seq<ParameterView>
    decreases items.len() - i,
{
    if i < 0 || i >= items.len() {
        Seq::empty()
    } else if is_variable(items[i]) {
        if i + 2 < items.len() && is_dash(items[i + 1]) && items[i + 2] is Atom {
            seq![
                ParameterView {
                    name: items[i]->Atom_0,
                    type_tag: Some(items[i + 2]->Atom_0),
                },
            ] + parameters_from(items, i + 3)
        } else {
            seq![ParameterView { name: items[i]->Atom_0, type_tag: None }] + parameters_from(
                items,
                i + 1,
            )
        }
    } else {
        parameters_from(items, i + 1)
    }
}

fn is_variable_atom(e: &SExpr) -> (r: bool)
    ensures
        r == is_variable(e@),
{
    match e {
        SExpr::Atom(a) => a.len() > 0 && a[0] == '?',
        SExpr::List(_) => false,
    }
}

fn is_dash_atom(e: &SExpr) -> (r: bool)
    ensures
        r == is_dash(e@),
{
    match e {
        SExpr::Atom(a) => {
            if a.len() == 1 && a[0] == '-' {
                assert(a@ =~= seq!['-']);
                true
            } else {
                proof {
                    if a@ == seq!['-'] {
                        assert(a@.len() == 1 && a@[0] == '-');
                    }
                }
                false
            }
        },
        SExpr::List(_) => false,
    }
}

/// Reads the parameters that the items from `from` on declare.
pub fn parse_parameters(items: &Vec<SExpr>, from: usize) -> (parameters: Vec<PDDLParameter>)
    ensures
        view_all(parameters@) == parameters_from(trees_view(items@), from as int),
{
    let ghost trees = trees_view(items@);
    let mut parameters: Vec<PDDLParameter> = Vec::new();
    let mut i: usize = from;
    proof {
        lemma_view_all_empty::<PDDLParameter>();
        assert(Seq::<ParameterView>::empty() + parameters_from(trees, from as int)
            =~= parameters_from(trees, from as int));
    }
    while i < items.len()
        invariant
            trees == trees_view(items@),
            parameters_from(trees, from as int) == view_all(parameters@) + parameters_from(
                trees,
                i as int,
            ),
        decreases items.len() - i,
    {
        let ghost so_far = view_all(parameters@);
        assert(trees[i as int] == items@[i as int]@);
        if is_variable_atom(&items[i]) {
            let name = match &items[i] {
                SExpr::Atom(a) => string_of(a),
                SExpr::List(_) => String::new(),
            };
            let mut typed = false;
            if items.len() - i > 2 {
                assert(trees[i + 1] == items@[i + 1]@);
                assert(trees[i + 2] == items@[i + 2]@);
                if is_dash_atom(&items[i + 1]) {
                    match &items[i + 2] {
                        SExpr::Atom(t) => {
                            let p = PDDLParameter { name, type_tag: Some(string_of(t)) };
                            proof {
                                lemma_view_all_push(parameters@, p);
                                assert(so_far.push(p@) + parameters_from(trees, i + 3) =~= so_far
                                    + (seq![p@] + parameters_from(trees, i + 3)));
                            }
                            parameters.push(p);
                            i = i + 3;
                            continue ;
                        },
                        SExpr::List(_) => {},
                    }
                }
            }
            let p = PDDLParameter { name, type_tag: None };
            proof {
                lemma_view_all_push(parameters@, p);
                assert(so_far.push(p@) + parameters_from(trees, i + 1) =~= so_far + (seq![p@]
                    + parameters_from(trees, i + 1)));
            }
            parameters.push(p);
            i = i + 1;
        } else {
            i = i + 1;
        }
    }
    proof {
        assert(view_all(parameters@) + Seq::<ParameterView>::empty() =~= view_all(parameters@));
    }
    parameters
}

/// The name of the domain or problem: the atom after `domain` or `problem` in
/// the first section with that head, or the empty name if there is none.
pub open spec fn name_in(items: Seq<Tree>, word: Seq<char>) -> Seq<char> {
    match section_of(items, word) {
        Some(section) => if section.len() >= 2 && section[1] is Atom {
            section[1]->Atom_0
        } else {
            Seq::empty()
        },
        None => Seq::empty(),
    }
}

/// Reads the name that a `define` form gives under the given head.
pub fn extract_domain_name(items: &Vec<SExpr>, word: &str) -> (name: String)
    ensures
        name@ == name_in(trees_view(items@), word@),
{
    match find_section(items, word) {
        Some(i) => {
            assert(trees_view(items@)[i as int] == items@[i as int]@);
            match &items[i] {
                SExpr::List(section) => {
                    proof {
                        lemma_list_view(*section);
                    }
                    if section.len() >= 2 {
                        assert(trees_view(section@)[1] == section@[1]@);
                        match &section[1] {
                            SExpr::Atom(a) => string_of(a),
                            SExpr::List(_) => String::new(),
                        }
                    } else {
                        String::new()
                    }
                },
                SExpr::Atom(_) => String::new(),
            }
        },
        None => String::new(),
    }
}

/// The requirement flags the planner implements.
pub open spec fn is_supported_requirement(flag: Seq<char>) -> bool {
    ||| same_symbol(flag, ":strips"@)
    ||| same_symbol(flag, ":typing"@)
    ||| same_symbol(flag, ":durative-actions"@)
    ||| same_symbol(flag, ":numeric-fluents"@)
}

/// The flags that the items `1..n` of a requirements section list. A flag
/// that the planner does not implement is a fault about that flag.
pub open spec fn requirements_of(section: Seq<Tree>, n: int) -> Result<Seq<Seq<char>>, Fault>
    decreases n,
{
    if n <= 1 || n > section.len() {
        Ok(Seq::empty())
    } else {
        match requirements_of(section, n - 1) {
            Err(f) => Err(f),
            Ok(flags) => match section[n - 1] {
                Tree::Atom(flag) => if is_supported_requirement(flag) {
                    Ok(flags.push(flag))
                } else {
                    Err(fault_about(ErrorKind::UnsupportedFeature, flag))
                },
                Tree::List(_) => Err(fault(ErrorKind::MalformedSyntax)),
            },
        }
    }
}

pub open spec fn requirements_in(items: Seq<Tree>) -> Result<Seq<Seq<char>>, Fault> {
    match section_of(items, ":requirements"@) {
        Some(section) => requirements_of(section, section.len() as int),
        None => Ok(Seq::empty()),
    }
}

pub proof fn lemma_requirements_fault_persists(section: Seq<Tree>, n: int, m: int)
    requires
        1 <= n <= m <= section.len(),
        requirements_of(section, n) is Err,
    ensures
        requirements_of(section, m) == requirements_of(section, n),
    decreases m - n,
{
    if n < m {
        lemma_requirements_fault_persists(section, n, m - 1);
    }
}

/// Reads the requirement flags of a domain.
pub fn extract_requirements(items: &Vec<SExpr>) -> (r: Result<Vec<String>, PlannerError>)
    ensures
        match requirements_in(trees_view(items@)) {
            Ok(flags) => r is Ok && names_view(r->Ok_0@) == flags,
            Err(f) => r is Err && r->Err_0@ == f,
        },
{
    let mut flags: Vec<String> = Vec::new();
    proof {
        assert(names_view(flags@) =~= Seq::<Seq<char>>::empty());
    }
    match find_section(items, ":requirements") {
        None => Ok(flags),
        Some(at) => {
            assert(trees_view(items@)[at as int] == items@[at as int]@);
            match &items[at] {
                SExpr::Atom(_) => Ok(flags),
                SExpr::List(section) => {
                    proof {
                        lemma_list_view(*section);
                    }
                    let ghost trees = trees_view(section@);
                    if section.len() < 1 {
                        return Ok(flags);
                    }
                    let mut i: usize = 1;
                    while i < section.len()
                        invariant
                            1 <= i <= section.len(),
                            trees == trees_view(section@),
                            section_of(trees_view(items@), ":requirements"@) == Some(trees),
                            requirements_of(trees, i as int) == Ok::<Seq<Seq<char>>, Fault>(
                                names_view(flags@),
                            ),
                        decreases section.len() - i,
                    {
                        assert(trees[i as int] == section@[i as int]@);
                        let ghost before = flags@;
                        match &section[i] {
                            SExpr::Atom(flag) => {
                                let known = is_word(flag, ":strips") || is_word(flag, ":typing")
                                    || is_word(flag, ":durative-actions") || is_word(
                                    flag,
                                    ":numeric-fluents",
                                );
                                if known {
                                    let name = string_of(flag);
                                    flags.push(name);
                                    proof {
                                        assert(names_view(flags@) =~= names_view(before).push(
                                            flag@,
                                        ));
                                    }
                                } else {
                                    proof {
                                        lemma_requirements_fault_persists(
                                            trees,
                                            i + 1,
                                            section.len() as int,
                                        );
                                    }
                                    return Err(
                                        PlannerError::about(
                                            ErrorKind::UnsupportedFeature,
                                            string_of(flag),
                                        ),
                                    );
                                }
                            },
                            SExpr::List(_) => {
                                proof {
                                    lemma_requirements_fault_persists(
                                        trees,
                                        i + 1,
                                        section.len() as int,
                                    );
                                }
                                return Err(PlannerError::new(ErrorKind::MalformedSyntax));
                            },
                        }
                        i = i + 1;
                    }
                    Ok(flags)
                },
            }
        },
    }
}

/// The type names that the items `1..n` of a types section list: every atom
/// that does not start with `-`.
pub open spec fn types_of(section: Seq<Tree>, n: int) -> Seq<Seq<char>>
    decreases n,
{
    if n <= 1 || n > section.len() {
        Seq::empty()
    } else {
        match section[n - 1] {
            Tree::Atom(a) => if a.len() > 0 && a[0] == '-' {
                types_of(section, n - 1)
            } else {
                types_of(section, n - 1).push(a)
            },
            Tree::List(_) => types_of(section, n - 1),
        }
    }
}

pub open spec fn types_in(items: Seq<Tree>) -> Seq<Seq<char>> {
    match section_of(items, ":types"@) {
        Some(section) => types_of(section, section.len() as int),
        None => Seq::empty(),
    }
}

/// Reads the declared type names of a domain.
pub fn extract_types(items: &Vec<SExpr>) -> (types: Vec<String>)
    ensures
        names_view(types@) == types_in(trees_view(items@)),
{
    let mut types: Vec<String> = Vec::new();
    proof {
        assert(names_view(types@) =~= Seq::<Seq<char>>::empty());
    }
    match find_section(items, ":types") {
        None => types,
        Some(at) => {
            assert(trees_view(items@)[at as int] == items@[at as int]@);
            match &items[at] {
                SExpr::Atom(_) => types,
                SExpr::List(section) => {
                    proof {
                        lemma_list_view(*section);
                    }
                    let ghost trees = trees_view(section@);
                    if section.len() < 1 {
                        return types;
                    }
                    let mut i: usize = 1;
                    while i < section.len()
                        invariant
                            1 <= i <= section.len(),
                            trees == trees_view(section@),
                            types_of(trees, i as int) == names_view(types@),
                        decreases section.len() - i,
                    {
                        assert(trees[i as int] == section@[i as int]@);
                        let ghost before = types@;
                        match &section[i] {
                            SExpr::Atom(a) => {
                                if !(a.len() > 0 && a[0] == '-') {
                                    types.push(string_of(a));
                                    proof {
                                        assert(names_view(types@) =~= names_view(before).push(a@));
                                    }
                                }
                            },
                            SExpr::List(_) => {},
                        }
                        i = i + 1;
                    }
                    types
                },
            }
        },
    }
}

/// The predicate that a declaration such as `(at ?x - place)` declares.
pub open spec fn predicate_of(t: Tree) -> Result<PredicateView, Fault> {
    match t {
        Tree::List(items) => if items.len() > 0 && items[0] is Atom {
            Ok(PredicateView { name: items[0]->Atom_0, parameters: parameters_from(items, 1) })
        } else {
            Err(fault(ErrorKind::MalformedSyntax))
        },
        Tree::Atom(_) => Err(fault(ErrorKind::MalformedSyntax)),
    }
}

/// The predicates that the items `1..n` of a predicates section declare, in
/// the order of their declaration.
pub open spec fn predicates_of(section: Seq<Tree>, n: int) -> Result<Seq<PredicateView>, Fault>
    decreases n,
{
    if n <= 1 || n > section.len() {
        Ok(Seq::empty())
    } else {
        match predicates_of(section, n - 1) {
            Err(f) => Err(f),
            Ok(predicates) => match predicate_of(section[n - 1]) {
                Ok(p) => Ok(predicates.push(p)),
                Err(f) => Err(f),
            },
        }
    }
}

pub open spec fn predicates_in(items: Seq<Tree>) -> Result<Seq<PredicateView>, Fault> {
    match section_of(items, ":predicates"@) {
        Some(section) => predicates_of(section, section.len() as int),
        None => Ok(Seq::empty()),
    }
}

pub proof fn lemma_predicates_fault_persists(section: Seq<Tree>, n: int, m: int)
    requires
        1 <= n <= m <= section.len(),
        predicates_of(section, n) is Err,
    ensures
        predicates_of(section, m) == predicates_of(section, n),
    decreases m - n,
{
    if n < m {
        lemma_predicates_fault_persists(section, n, m - 1);
    }
}

/// Reads one predicate declaration.
fn parse_predicate(e: &SExpr) -> (r: Result<PDDLPredicate, PlannerError>)
    ensures
        match predicate_of(e@) {
            Ok(p) => r is Ok && r->Ok_0@ == p,
            Err(f) => r is Err && r->Err_0@ == f,
        },
{
    match e {
        SExpr::Atom(_) => Err(PlannerError::new(ErrorKind::MalformedSyntax)),
        SExpr::List(items) => {
            proof {
                lemma_list_view(*items);
            }
            if items.len() == 0 {
                return Err(PlannerError::new(ErrorKind::MalformedSyntax));
            }
            assert(trees_view(items@)[0] == items@[0]@);
            match &items[0] {
                SExpr::Atom(head) => Ok(
                    PDDLPredicate { name: string_of(head), parameters: parse_parameters(items, 1) },
                ),
                SExpr::List(_) => Err(PlannerError::new(ErrorKind::MalformedSyntax)),
            }
        },
    }
}

/// Reads the predicate table of a domain.
pub fn extract_predicates(items: &Vec<SExpr>) -> (r: Result<Vec<PDDLPredicate>, PlannerError>)
    ensures
        match predicates_in(trees_view(items@)) {
            Ok(predicates) => r is Ok && view_all(r->Ok_0@) == predicates,
            Err(f) => r is Err && r->Err_0@ == f,
        },
{
    let mut predicates: Vec<PDDLPredicate> = Vec::new();
    proof {
        lemma_view_all_empty::<PDDLPredicate>();
    }
    match find_section(items, ":predicates") {
        None => Ok(predicates),
        Some(at) => {
            assert(trees_view(items@)[at as int] == items@[at as int]@);
            match &items[at] {
                SExpr::Atom(_) => Ok(predicates),
                SExpr::List(section) => {
                    proof {
                        lemma_list_view(*section);
                    }
                    let ghost trees = trees_view(section@);
                    if section.len() < 1 {
                        return Ok(predicates);
                    }
                    let mut i: usize = 1;
                    while i < section.len()
                        invariant
                            1 <= i <= section.len(),
                            trees == trees_view(section@),
                            section_of(trees_view(items@), ":predicates"@) == Some(trees),
                            predicates_of(trees, i as int) == Ok::<Seq<PredicateView>, Fault>(
                                view_all(predicates@),
                            ),
                        decreases section.len() - i,
                    {
                        assert(trees[i as int] == section@[i as int]@);
                        match parse_predicate(&section[i]) {
                            Ok(p) => {
                                proof {
                                    lemma_view_all_push(predicates@, p);
                                }
                                predicates.push(p);
                            },
                            Err(e) => {
                                proof {
                                    lemma_predicates_fault_persists(
                                        trees,
                                        i + 1,
                                        section.len() as int,
                                    );
                                }
                                return Err(e);
                            },
                        }
                        i = i + 1;
                    }
                    Ok(predicates)
                },
            }
        },
    }
}

/// How a durative action states its duration.
#[derive(Clone, Copy, Debug, PartialEq, Eq, Structural)]
pub enum PDDLDuration {
    /// `(= ?duration c)` with a decimal literal `c`; the value is `c` in ticks.
    Fixed(u64),
    /// Anything else, or nothing at all.
    Unsupported,
}

/// An action as it is read from the text, before its conditions and effects
/// are sorted by phase.
#[derive(Debug)]
pub struct PDDLAction {
    pub name: String,
    pub parameters: Vec<PDDLParameter>,
    pub precondition: Option<PDDLFormula>,
    pub effect: Option<PDDLFormula>,
    pub duration: Option<PDDLDuration>,
    pub is_durative: bool,
}

pub struct RawAction {
    pub name: Seq<char>,
    pub parameters: Seq<ParameterView>,
    pub precondition: Option<Formula>,
    pub effect: Option<Formula>,
    pub duration: Option<PDDLDuration>,
    pub is_durative: bool,
}

pub open spec fn optional_formula(f: Option<PDDLFormula>) -> Option<Formula> {
    match f {
        Some(f) => Some(f@),
        None => None,
    }
}

impl View for PDDLAction {
    type V = RawAction;

    open spec fn view(&self) -> RawAction {
        RawAction {
            name: self.name@,
            parameters: view_all(self.parameters@),
            precondition: optional_formula(self.precondition),
            effect: optional_formula(self.effect),
            duration: self.duration,
            is_durative: self.is_durative,
        }
    }
}

/// The formula that follows a keyword in an action block, if the keyword
/// occurs.
pub open spec fn formula_under(items: Seq<Tree>, key: Seq<char>) -> Result<Option<Formula>, Fault> {
    match keyword_value(items, key) {
        None => Ok(None),
        Some(t) => match formula_of(t) {
            Ok(f) => Ok(Some(f)),
            Err(f) => Err(f),
        },
    }
}

fn read_formula_under(items: &Vec<SExpr>, key: &str) -> (r: Result<
    Option<PDDLFormula>,
    PlannerError,
>)
    ensures
        match formula_under(trees_view(items@), key@) {
            Ok(f) => r is Ok && optional_formula(r->Ok_0) == f,
            Err(f) => r is Err && r->Err_0@ == f,
        },
{
    match find_keyword(items, key) {
        None => Ok(None),
        Some(i) => match parse_formula(&items[i]) {
            Ok(f) => Ok(Some(f)),
            Err(e) => Err(e),
        },
    }
}

/// Reads the formula under `:precondition`.
pub fn extract_action_precondition(items: &Vec<SExpr>) -> (r: Result<
    Option<PDDLFormula>,
    PlannerError,
>)
    ensures
        match formula_under(trees_view(items@), ":precondition"@) {
            Ok(f) => r is Ok && optional_formula(r->Ok_0) == f,
            Err(f) => r is Err && r->Err_0@ == f,
        },
{
    read_formula_under(items, ":precondition")
}

/// Reads the formula under `:condition`.
pub fn extract_action_condition(items: &Vec<SExpr>) -> (r: Result<
    Option<PDDLFormula>,
    PlannerError,
>)
    ensures
        match formula_under(trees_view(items@), ":condition"@) {
            Ok(f) => r is Ok && optional_formula(r->Ok_0) == f,
            Err(f) => r is Err && r->Err_0@ == f,
        },
{
    read_formula_under(items, ":condition")
}

/// Reads the formula under `:effect`.
pub fn extract_action_effect(items: &Vec<SExpr>) -> (r: Result<Option<PDDLFormula>, PlannerError>)
    ensures
        match formula_under(trees_view(items@), ":effect"@) {
            Ok(f) => r is Ok && optional_formula(r->Ok_0) == f,
            Err(f) => r is Err && r->Err_0@ == f,
        },
{
    read_formula_under(items, ":effect")
}

/// The parameters of an action block: those that the list under
/// `:parameters` declares, none if the keyword is missing.
pub open spec fn action_parameters_of(items: Seq<Tree>) -> Result<Seq<ParameterView>, Fault> {
    match keyword_value(items, ":parameters"@) {
        None => Ok(Seq::empty()),
        Some(Tree::List(declared)) => Ok(parameters_from(declared, 0)),
        Some(Tree::Atom(_)) => Err(fault(ErrorKind::MalformedSyntax)),
    }
}

/// Reads the parameters of an action block.
pub fn extract_action_parameters(items: &Vec<SExpr>) -> (r: Result<
    Vec<PDDLParameter>,
    PlannerError,
>)
    ensures
        match action_parameters_of(trees_view(items@)) {
            Ok(p) => r is Ok && view_all(r->Ok_0@) == p,
            Err(f) => r is Err && r->Err_0@ == f,
        },
{
    match find_keyword(items, ":parameters") {
        None => {
            proof {
                lemma_view_all_empty::<PDDLParameter>();
            }
            Ok(Vec::new())
        },
        Some(i) => match &items[i] {
            SExpr::List(declared) => {
                proof {
                    lemma_list_view(*declared);
                }
                Ok(parse_parameters(declared, 0))
            },
            SExpr::Atom(_) => Err(PlannerError::new(ErrorKind::MalformedSyntax)),
        },
    }
}

/// The duration a durative action states under `:duration`.
pub open spec fn duration_of(items: Seq<Tree>) -> PDDLDuration {
    match keyword_value(items, ":duration"@) {
        None => PDDLDuration::Unsupported,
        Some(t) => match formula_of(t) {
            Ok(Formula::DurationConstraint { relation, constant }) => if relation
                == Relation::Equal && constant is Some {
                PDDLDuration::Fixed(constant->0 as u64)
            } else {
                PDDLDuration::Unsupported
            },
            _ => PDDLDuration::Unsupported,
        },
    }
}

/// Reads the duration a durative action states.
pub fn extract_action_duration(items: &Vec<SExpr>) -> (d: PDDLDuration)
    ensures
        d == duration_of(trees_view(items@)),
{
    match find_keyword(items, ":duration") {
        None => PDDLDuration::Unsupported,
        Some(i) => match parse_formula(&items[i]) {
            Ok(PDDLFormula::DurationConstraint { relation, constant }) => {
                match (relation, constant) {
                    (Relation::Equal, Some(c)) => PDDLDuration::Fixed(c),
                    _ => PDDLDuration::Unsupported,
                }
            },
            _ => PDDLDuration::Unsupported,
        },
    }
}

/// The action an action block declares.
pub open spec fn raw_action_of(t: Tree, durative: bool) -> Result<RawAction, Fault> {
    if !(t is List) || t->List_0.len() < 2 || !(t->List_0[1] is Atom) {
        Err(fault(ErrorKind::MalformedSyntax))
    } else {
        let items = t->List_0;
        match action_parameters_of(items) {
            Err(f) => Err(f),
            Ok(parameters) => match formula_under(
                items,
                if durative {
                    ":condition"@
                } else {
                    ":precondition"@
                },
            ) {
                Err(f) => Err(f),
                Ok(precondition) => match formula_under(items, ":effect"@) {
                    Err(f) => Err(f),
                    Ok(effect) => Ok(
                        RawAction {
                            name: items[1]->Atom_0,
                            parameters,
                            precondition,
                            effect,
                            duration: if durative {
                                Some(duration_of(items))
                            } else {
                                None
                            },
                            is_durative: durative,
                        },
                    ),
                },
            },
        }
    }
}

fn parse_action(e: &SExpr, durative: bool) -> (r: Result<PDDLAction, PlannerError>)
    ensures
        match raw_action_of(e@, durative) {
            Ok(a) => r is Ok && r->Ok_0@ == a,
            Err(f) => r is Err && r->Err_0@ == f,
        },
{
    match e {
        SExpr::Atom(_) => Err(PlannerError::new(ErrorKind::MalformedSyntax)),
        SExpr::List(items) => {
            proof {
                lemma_list_view(*items);
            }
            if items.len() < 2 {
                return Err(PlannerError::new(ErrorKind::MalformedSyntax));
            }
            assert(trees_view(items@)[1] == items@[1]@);
            let name = match &items[1] {
                SExpr::Atom(a) => string_of(a),
                SExpr::List(_) => {
                    return Err(PlannerError::new(ErrorKind::MalformedSyntax));
                },
            };
            let parameters = match extract_action_parameters(items) {
                Ok(p) => p,
                Err(x) => {
                    return Err(x);
                },
            };
            let precondition = if durative {
                match extract_action_condition(items) {
                    Ok(f) => f,
                    Err(x) => {
                        return Err(x);
                    },
                }
            } else {
                match extract_action_precondition(items) {
                    Ok(f) => f,
                    Err(x) => {
                        return Err(x);
                    },
                }
            };
            let effect = match extract_action_effect(items) {
                Ok(f) => f,
                Err(x) => {
                    return Err(x);
                },
            };
            let duration = if durative {
                Some(extract_action_duration(items))
            } else {
                None
            };
            Ok(PDDLAction { name, parameters, precondition, effect, duration, is_durative: durative })
        },
    }
}

/// Whether a tree is an action block, durative or not.
pub open spec fn is_action_block(t: Tree) -> bool {
    has_head(t, ":action"@) || has_head(t, ":durative-action"@)
}

/// The number of action blocks among the first `n` items of a domain.
pub open spec fn count_action_blocks(items: Seq<Tree>, n: int) -> nat
    decreases n,
{
    if n <= 1 || n > items.len() {
        0
    } else if is_action_block(items[n - 1]) {
        count_action_blocks(items, n - 1) + 1
    } else {
        count_action_blocks(items, n - 1)
    }
}

/// The actions that the action blocks among the items `1..n` of a domain
/// declare, one for each block, in the order of the blocks.
pub open spec fn raw_actions_of(items: Seq<Tree>, n: int) -> Result<Seq<RawAction>, Fault>
    decreases n,
{
    if n <= 1 || n > items.len() {
        Ok(Seq::empty())
    } else {
        match raw_actions_of(items, n - 1) {
            Err(f) => Err(f),
            Ok(actions) => if has_head(items[n - 1], ":action"@) {
                match raw_action_of(items[n - 1], false) {
                    Ok(a) => Ok(actions.push(a)),
                    Err(f) => Err(f),
                }
            } else if has_head(items[n - 1], ":durative-action"@) {
                match raw_action_of(items[n - 1], true) {
                    Ok(a) => Ok(actions.push(a)),
                    Err(f) => Err(f),
                }
            } else {
                Ok(actions)
            },
        }
    }
}

pub proof fn lemma_raw_actions_fault_persists(items: Seq<Tree>, n: int, m: int)
    requires
        1 <= n <= m <= items.len(),
        raw_actions_of(items, n) is Err,
    ensures
        raw_actions_of(items, m) == raw_actions_of(items, n),
    decreases m - n,
{
    if n < m {
        lemma_raw_actions_fault_persists(items, n, m - 1);
    }
}

/// A domain that compiles has as many actions as it has action blocks.
pub proof fn lemma_one_action_per_block(items: Seq<Tree>, n: int)
    requires
        raw_actions_of(items, n) is Ok,
    ensures
        raw_actions_of(items, n)->Ok_0.len() == count_action_blocks(items, n),
    decreases n,
{
    if !(n <= 1 || n > items.len()) {
        lemma_one_action_per_block(items, n - 1);
    }
}

/// Reads the actions of a domain.
pub fn extract_actions(items: &Vec<SExpr>) -> (r: Result<Vec<PDDLAction>, PlannerError>)
    ensures
        match raw_actions_of(trees_view(items@), items.len() as int) {
            Ok(actions) => r is Ok && view_all(r->Ok_0@) == actions,
            Err(f) => r is Err && r->Err_0@ == f,
        },
{
    let ghost trees = trees_view(items@);
    let mut actions: Vec<PDDLAction> = Vec::new();
    proof {
        lemma_view_all_empty::<PDDLAction>();
    }
    if items.len() < 1 {
        return Ok(actions);
    }
    let mut i: usize = 1;
    while i < items.len()
        invariant
            1 <= i <= items.len(),
            trees == trees_view(items@),
            raw_actions_of(trees, i as int) == Ok::<Seq<RawAction>, Fault>(view_all(actions@)),
        decreases items.len() - i,
    {
        assert(trees[i as int] == items@[i as int]@);
        let plain = head_is(&items[i], ":action");
        let durative = !plain && head_is(&items[i], ":durative-action");
        if plain || durative {
            match parse_action(&items[i], durative) {
                Ok(a) => {
                    proof {
                        lemma_view_all_push(actions@, a);
                    }
                    actions.push(a);
                },
                Err(e) => {
                    proof {
                        lemma_raw_actions_fault_persists(trees, i + 1, items.len() as int);
                    }
                    return Err(e);
                },
            }
        }
        i = i + 1;
    }
    Ok(actions)
}

/// What a domain's text declares.
#[derive(Debug)]
pub struct PDDLDomain {
    pub name: String,
    pub requirements: Vec<String>,
    pub types: Vec<String>,
    pub predicates: Vec<PDDLPredicate>,
    pub actions: Vec<PDDLAction>,
}

pub struct DomainView {
    pub name: Seq<char>,
    pub requirements: Seq<Seq<char>>,
    pub types: Seq<Seq<char>>,
    pub predicates: Seq<PredicateView>,
    pub actions: Seq<RawAction>,
}

impl View for PDDLDomain {
    type V = DomainView;

    open spec fn view(&self) -> DomainView {
        DomainView {
            name: self.name@,
            requirements: names_view(self.requirements@),
            types: names_view(self.types@),
            predicates: view_all(self.predicates@),
            actions: view_all(self.actions@),
        }
    }
}

/// The items of the `define` form that a text consists of. A text that is
/// not exactly one such form is malformed.
pub open spec fn define_items(trees: Seq<Tree>) -> Result<Seq<Tree>, Fault> {
    if trees.len() == 1 && has_head(trees[0], "define"@) {
        Ok(trees[0]->List_0)
    } else {
        Err(fault(ErrorKind::MalformedSyntax))
    }
}

/// What the items of a domain's `define` form declare. Sections and atoms
/// that the planner does not know are passed over.
pub open spec fn domain_of(items: Seq<Tree>) -> Result<DomainView, Fault> {
    match requirements_in(items) {
        Err(f) => Err(f),
        Ok(requirements) => match predicates_in(items) {
            Err(f) => Err(f),
            Ok(predicates) => match raw_actions_of(items, items.len() as int) {
                Err(f) => Err(f),
                Ok(actions) => Ok(
                    DomainView {
                        name: name_in(items, "domain"@),
                        requirements,
                        types: types_in(items),
                        predicates,
                        actions,
                    },
                ),
            },
        },
    }
}

/// What a domain's text declares.
pub open spec fn domain_of_text(content: Seq<char>) -> Result<DomainView, Fault> {
    match text_trees(content) {
        Err(f) => Err(f),
        Ok(trees) => match define_items(trees) {
            Err(f) => Err(f),
            Ok(items) => domain_of(items),
        },
    }
}

/// Takes the single `define` form out of the expressions of a text.
pub fn take_define_form(trees: Vec<SExpr>) -> (r: Result<Vec<SExpr>, PlannerError>)
    ensures
        match define_items(trees_view(trees@)) {
            Ok(items) => r is Ok && trees_view(r->Ok_0@) == items,
            Err(f) => r is Err && r->Err_0@ == f,
        },
{
    let mut trees = trees;
    if trees.len() != 1 {
        return Err(PlannerError::new(ErrorKind::MalformedSyntax));
    }
    let ghost all = trees_view(trees@);
    let only = trees.pop().unwrap();
    assert(all[0] == only@);
    if !head_is(&only, "define") {
        return Err(PlannerError::new(ErrorKind::MalformedSyntax));
    }
    match only {
        SExpr::List(items) => {
            proof {
                lemma_list_view(items);
            }
            Ok(items)
        },
        SExpr::Atom(_) => Err(PlannerError::new(ErrorKind::MalformedSyntax)),
    }
}

/// Reads what a domain's text declares.
pub fn parse_pddl_domain(content: &str) -> (r: Result<PDDLDomain, PlannerError>)
    ensures
        match domain_of_text(content@) {
            Ok(d) => r is Ok && r->Ok_0@ == d,
            Err(f) => r is Err && r->Err_0@ == f,
        },
{
    let trees = match read_expressions(content) {
        Ok(t) => t,
        Err(e) => {
            return Err(e);
        },
    };
    let items = match take_define_form(trees) {
        Ok(i) => i,
        Err(e) => {
            return Err(e);
        },
    };
    let requirements = match extract_requirements(&items) {
        Ok(r) => r,
        Err(e) => {
            return Err(e);
        },
    };
    let predicates = match extract_predicates(&items) {
        Ok(p) => p,
        Err(e) => {
            return Err(e);
        },
    };
    let actions = match extract_actions(&items) {
        Ok(a) => a,
        Err(e) => {
            return Err(e);
        },
    };
    let name = extract_domain_name(&items, "domain");
    let types = extract_types(&items);
    Ok(PDDLDomain { name, requirements, types, predicates, actions })
}

} // verus!
