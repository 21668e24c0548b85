//! Formula trees with temporal operators, and the parser that reads one from
//! a parenthesised expression.

use vstd::prelude::*;
use crate::error::{ErrorKind, Fault, PlannerError, fault, fault_about};
use crate::sexpr::{SExpr, Tree, trees_view, lemma_list_view};
use crate::text::{decimal_ticks, is_word, names_view, parse_decimal, same_symbol, string_of};

verus! {

/// The comparison a duration constraint makes.
#[derive(Clone, Copy, Debug, PartialEq, Eq, Structural)]
pub enum Relation {
    Equal,
    AtMost,
    AtLeast,
}

/// A formula as it is read from the text.
#[derive(Debug)]
pub enum PDDLFormula {
    Predicate { name: String, args: Vec<String>, negated: bool },
    And(Vec<PDDLFormula>),
    Or(Vec<PDDLFormula>),
    Not(Box<PDDLFormula>),
    AtStart(Box<PDDLFormula>),
    AtEnd(Box<PDDLFormula>),
    OverAll(Box<PDDLFormula>),
    /// A comparison with `=`, `<=` or `>=`. The constant is present when the
    /// comparison has the shape `(op ?duration c)` with a decimal literal `c`,
    /// and is then `c` in ticks.
    DurationConstraint { relation: Relation, constant: Option<u64> },
}

/// The mathematical formula behind a `PDDLFormula`.
pub enum Formula {
    Predicate { name: Seq<char>, args: Seq<Seq<char>>, negated: bool },
    And(Seq<Formula>),
    Or(Seq<Formula>),
    Not(Box<Formula>),
    AtStart(Box<Formula>),
    AtEnd(Box<Formula>),
    OverAll(Box<Formula>),
    DurationConstraint { relation: Relation, constant: Option<nat> },
}

/// The formula behind a `PDDLFormula`.
pub open spec fn formula_view(f: PDDLFormula) -> Formula
    decreases f,
{
    match f {
        PDDLFormula::Predicate { name, args, negated } => Formula::Predicate {
            name: name@,
            args: names_view(args@),
            negated,
        },
        PDDLFormula::And(parts) => Formula::And(
            Seq::new(
                parts@.len(),
                |i: int|
                    if 0 <= i < parts@.len() {
                        formula_view(parts@[i])
                    } else {
                        Formula::And(Seq::empty())
                    },
            ),
        ),
        PDDLFormula::Or(parts) => Formula::Or(
            Seq::new(
                parts@.len(),
                |i: int|
                    if 0 <= i < parts@.len() {
                        formula_view(parts@[i])
                    } else {
                        Formula::And(Seq::empty())
                    },
            ),
        ),
        PDDLFormula::Not(inner) => Formula::Not(Box::new(formula_view(*inner))),
        PDDLFormula::AtStart(inner) => Formula::AtStart(Box::new(formula_view(*inner))),
        PDDLFormula::AtEnd(inner) => Formula::AtEnd(Box::new(formula_view(*inner))),
        PDDLFormula::OverAll(inner) => Formula::OverAll(Box::new(formula_view(*inner))),
        PDDLFormula::DurationConstraint { relation, constant } => Formula::DurationConstraint {
            relation,
            constant: match constant {
                Some(c) => Some(c as nat),
                None => None,
            },
        },
    }
}

impl View for PDDLFormula {
    type V = Formula;

    open spec fn view(&self) -> Formula {
        formula_view(*self)
    }
}

pub open spec fn formulas_view(parts: Seq<PDDLFormula>) -> Seq<Formula> {
    Seq::new(parts.len(), |i: int| parts[i]@)
}

pub proof fn lemma_and_view(parts: Vec<PDDLFormula>)
    ensures
        PDDLFormula::And(parts)@ == Formula::And(formulas_view(parts@)),
{
    let whole = PDDLFormula::And(parts);
    assert(whole@ is And);
    assert(whole@->And_0.len() == parts@.len());
    assert forall|i: int| 0 <= i < parts@.len() implies whole@->And_0[i] == formulas_view(parts@)[i] by {
    }
    assert(whole@->And_0 =~= formulas_view(parts@));
}

pub proof fn lemma_or_view(parts: Vec<PDDLFormula>)
    ensures
        PDDLFormula::Or(parts)@ == Formula::Or(formulas_view(parts@)),
{
    assert(PDDLFormula::Or(parts)@->Or_0 =~= formulas_view(parts@));
}

/// The texts of a run of atoms; a list among them counts as the empty text.
pub open spec fn atom_texts(items: Seq<Tree>) -> Seq<Seq<char>> {
    Seq::new(
        items.len(),
        |i: int|
            match items[i] {
                Tree::Atom(a) => a,
                Tree::List(_) => Seq::empty(),
            },
    )
}

pub open spec fn all_atoms(items: Seq<Tree>) -> bool {
    forall|i: int| 0 <= i < items.len() ==> #[trigger] items[i] is Atom
}

/// The relation a head symbol denotes, if it is one of `=`, `<=`, `>=`.
pub open spec fn relation_of(head: Seq<char>) -> Option<Relation> {
    if head == seq!['='] {
        Some(Relation::Equal)
    } else if head == seq!['<', '='] {
        Some(Relation::AtMost)
    } else if head == seq!['>', '='] {
        Some(Relation::AtLeast)
    } else {
        None
    }
}

/// The constant of a comparison of the shape `(op ?duration c)`, in ticks.
pub open spec fn duration_constant(items: Seq<Tree>) -> Option<nat> {
    if items.len() == 3 && items[1] is Atom && same_symbol(items[1]->Atom_0, "?duration"@)
        && items[2] is Atom {
        decimal_ticks(items[2]->Atom_0)
    } else {
        None
    }
}

/// Whether a list has the shape of a temporal operator: `at` or `over`, a
/// qualifier, and one parenthesised formula. With any other shape `at` and
/// `over` are ordinary predicate names.
pub open spec fn is_temporal_shape(items: Seq<Tree>) -> bool {
    &&& items.len() == 3
    &&& items[0] is Atom
    &&& (same_symbol(items[0]->Atom_0, "at"@) || same_symbol(items[0]->Atom_0, "over"@))
    &&& items[1] is Atom
    &&& items[2] is List
}

/// The formula a parenthesised expression denotes.
///
/// The head symbol decides: `and` and `or` take any number of formulas,
/// `not` takes one, `at start`, `at end` and `over all` take one, `=`, `<=`
/// and `>=` make a duration constraint, and any other head is a predicate
/// applied to atoms. The empty list is the empty conjunction. An atom alone, a
/// list whose head is a list, `not` with other than one argument and a
/// predicate with a list among its arguments are malformed.
pub open spec fn formula_of(t: Tree) -> Result<Formula, Fault>
    decreases t, 0nat,
{
    match t {
        Tree::Atom(_) => Err(fault(ErrorKind::MalformedSyntax)),
        Tree::List(items) => {
            if items.len() == 0 {
                Ok(Formula::And(Seq::empty()))
            } else {
                match items[0] {
                    Tree::List(_) => Err(fault(ErrorKind::MalformedSyntax)),
                    Tree::Atom(head) => {
                        if same_symbol(head, "and"@) {
                            match formulas_of(items, items.len() as int) {
                                Ok(parts) => Ok(Formula::And(parts)),
                                Err(f) => Err(f),
                            }
                        } else if same_symbol(head, "or"@) {
                            match formulas_of(items, items.len() as int) {
                                Ok(parts) => Ok(Formula::Or(parts)),
                                Err(f) => Err(f),
                            }
                        } else if same_symbol(head, "not"@) {
                            if items.len() == 2 {
                                match formula_of(items[1]) {
                                    Ok(inner) => Ok(Formula::Not(Box::new(inner))),
                                    Err(f) => Err(f),
                                }
                            } else {
                                Err(fault(ErrorKind::MalformedSyntax))
                            }
                        } else if is_temporal_shape(items) {
                            let qualifier = items[1]->Atom_0;
                            if same_symbol(head, "at"@) && same_symbol(qualifier, "start"@) {
                                match formula_of(items[2]) {
                                    Ok(inner) => Ok(Formula::AtStart(Box::new(inner))),
                                    Err(f) => Err(f),
                                }
                            } else if same_symbol(head, "at"@) && same_symbol(qualifier, "end"@) {
                                match formula_of(items[2]) {
                                    Ok(inner) => Ok(Formula::AtEnd(Box::new(inner))),
                                    Err(f) => Err(f),
                                }
                            } else if same_symbol(head, "over"@) && same_symbol(
                                qualifier,
                                "all"@,
                            ) {
                                match formula_of(items[2]) {
                                    Ok(inner) => Ok(Formula::OverAll(Box::new(inner))),
                                    Err(f) => Err(f),
                                }
                            } else {
                                Err(fault_about(ErrorKind::UnknownTemporalOperator, qualifier))
                            }
                        } else if relation_of(head) is Some {
                            Ok(
                                Formula::DurationConstraint {
                                    relation: relation_of(head)->0,
                                    constant: duration_constant(items),
                                },
                            )
                        } else if all_atoms(items) {
                            Ok(
                                Formula::Predicate {
                                    name: head,
                                    args: atom_texts(items.skip(1)),
                                    negated: false,
                                },
                            )
                        } else {
                            Err(fault(ErrorKind::MalformedSyntax))
                        }
                    },
                }
            }
        },
    }
}

/// The formulas that the items `1..n` of a list denote, or the fault of the
/// first among them that denotes none.
pub open spec fn formulas_of(items: Seq<Tree>, n: int) -> Result<Seq<Formula>, Fault>
    decreases items, n,
{
    if n <= 1 || n > items.len() {
        Ok(Seq::empty())
    } else {
        match formulas_of(items, n - 1) {
            Ok(parts) => match formula_of(items[n - 1]) {
                Ok(f) => Ok(parts.push(f)),
                Err(e) => Err(e),
            },
            Err(e) => Err(e),
        }
    }
}

pub proof fn lemma_formulas_fault_persists(items: Seq<Tree>, n: int, m: int)
    requires
        1 <= n <= m <= items.len(),
        formulas_of(items, n) is Err,
    ensures
        formulas_of(items, m) == formulas_of(items, n),
    decreases m - n,
{
    if n < m {
        lemma_formulas_fault_persists(items, n, m - 1);
    }
}

/// Copies the atoms `from..` of a list as names, if all of them are atoms.
pub fn atom_names(items: &Vec<SExpr>, from: usize) -> (r: Option<Vec<String>>)
    requires
        from <= items.len(),
    ensures
        r is Some <==> all_atoms(trees_view(items@).skip(from as int)),
        r is Some ==> names_view(r->0@) == atom_texts(trees_view(items@).skip(from as int)),
{
    let ghost rest = trees_view(items@).skip(from as int);
    let mut names: Vec<String> = Vec::new();
    let mut i: usize = from;
    while i < items.len()
        invariant
            from <= i <= items.len(),
            rest == trees_view(items@).skip(from as int),
            names.len() == i - from,
            forall|k: int| 0 <= k < i - from ==> #[trigger] rest[k] is Atom,
            forall|k: int| 0 <= k < i - from ==> (#[trigger] names@[k])@ == atom_texts(rest)[k],
        decreases items.len() - i,
    {
        proof {
            assert(rest[i - from] == items@[i as int]@);
        }
        match &items[i] {
            SExpr::Atom(a) => {
                names.push(string_of(a));
            },
            SExpr::List(_) => {
                return None;
            },
        }
        i = i + 1;
    }
    proof {
        assert(names_view(names@) =~= atom_texts(rest));
    }
    Some(names)
}

/// The relation a head symbol denotes.
pub fn relation_for(head: &Vec<char>) -> (r: Option<Relation>)
    ensures
        r == relation_of(head@),
{
    if head.len() == 1 && head[0] == '=' {
        assert(head@ =~= seq!['=']);
        Some(Relation::Equal)
    } else if head.len() == 2 && head[0] == '<' && head[1] == '=' {
        assert(head@ =~= seq!['<', '=']);
        Some(Relation::AtMost)
    } else if head.len() == 2 && head[0] == '>' && head[1] == '=' {
        assert(head@ =~= seq!['>', '=']);
        Some(Relation::AtLeast)
    } else {
        proof {
            if head@ == seq!['='] {
                assert(head@.len() == 1 && head@[0] == '=');
            }
            if head@ == seq!['<', '='] {
                assert(head@.len() == 2 && head@[0] == '<' && head@[1] == '=');
            }
            if head@ == seq!['>', '='] {
                assert(head@.len() == 2 && head@[0] == '>' && head@[1] == '=');
            }
        }
        None
    }
}

/// The constant of a comparison of the shape `(op ?duration c)`.
pub fn duration_constant_in(items: &Vec<SExpr>) -> (r: Option<u64>)
    ensures
        r is Some <==> duration_constant(trees_view(items@)) is Some,
        r is Some ==> r->0 == duration_constant(trees_view(items@))->0,
{
    if items.len() != 3 {
        return None;
    }
    match (&items[1], &items[2]) {
        (SExpr::Atom(variable), SExpr::Atom(value)) => {
            if is_word(variable, "?duration") {
                parse_decimal(value)
            } else {
                None
            }
        },
        _ => None,
    }
}

/// Whether a list has the shape of a temporal operator.
fn has_temporal_shape(items: &Vec<SExpr>) -> (r: bool)
    ensures
        r == is_temporal_shape(trees_view(items@)),
{
    if items.len() != 3 {
        return false;
    }
    match (&items[0], &items[1], &items[2]) {
        (SExpr::Atom(head), SExpr::Atom(_), SExpr::List(_)) => is_word(head, "at") || is_word(
            head,
            "over",
        ),
        _ => false,
    }
}

/// Reads the formulas that the items after the head of a list denote.
fn parse_parts(items: &Vec<SExpr>) -> (r: Result<Vec<PDDLFormula>, PlannerError>)
    ensures
        match formulas_of(trees_view(items@), items.len() as int) {
            Ok(parts) => r is Ok && formulas_view(r->Ok_0@) == parts,
            Err(f) => r is Err && r->Err_0@ == f,
        },
    decreases items, 1nat,
{
    let ghost trees = trees_view(items@);
    let mut parts: Vec<PDDLFormula> = Vec::new();
    let mut i: usize = 1;
    if items.len() < 1 {
        proof {
            assert(formulas_view(parts@) =~= Seq::<Formula>::empty());
        }
        return Ok(parts);
    }
    proof {
        assert(formulas_view(parts@) =~= Seq::<Formula>::empty());
    }
    while i < items.len()
        invariant
            1 <= i <= items.len(),
            trees == trees_view(items@),
            formulas_of(trees, i as int) == Ok::<Seq<Formula>, Fault>(formulas_view(parts@)),
        decreases items.len() - i,
    {
        let ghost before = parts@;
        match parse_formula(&items[i]) {
            Ok(f) => {
                parts.push(f);
                proof {
                    assert(formulas_view(parts@) =~= formulas_view(before).push(f@));
                }
            },
            Err(e) => {
                proof {
                    lemma_formulas_fault_persists(trees, i + 1, items.len() as int);
                }
                return Err(e);
            },
        }
        i = i + 1;
    }
    Ok(parts)
}

/// Reads the formula that a parenthesised expression denotes.
pub fn parse_formula(e: &SExpr) -> (r: Result<PDDLFormula, PlannerError>)
    ensures
        match formula_of(e@) {
            Ok(f) => r is Ok && r->Ok_0@ == f,
            Err(f) => r is Err && r->Err_0@ == f,
        },
    decreases e, 0nat,
{
    match e {
        SExpr::Atom(_) => Err(PlannerError::new(ErrorKind::MalformedSyntax)),
        SExpr::List(items) => {
            proof {
                lemma_list_view(*items);
            }
            let ghost trees = trees_view(items@);
            if items.len() == 0 {
                let parts: Vec<PDDLFormula> = Vec::new();
                proof {
                    lemma_and_view(parts);
                    assert(formulas_view(parts@) =~= Seq::<Formula>::empty());
                }
                return Ok(PDDLFormula::And(parts));
            }
            assert(trees[0] == items@[0]@);
            match &items[0] {
                SExpr::List(_) => Err(PlannerError::new(ErrorKind::MalformedSyntax)),
                SExpr::Atom(head) => {
                    if is_word(head, "and") {
                        match parse_parts(items) {
                            Ok(parts) => {
                                proof {
                                    lemma_and_view(parts);
                                }
                                Ok(PDDLFormula::And(parts))
                            },
                            Err(x) => Err(x),
                        }
                    } else if is_word(head, "or") {
                        match parse_parts(items) {
                            Ok(parts) => {
                                proof {
                                    lemma_or_view(parts);
                                }
                                Ok(PDDLFormula::Or(parts))
                            },
                            Err(x) => Err(x),
                        }
                    } else if is_word(head, "not") {
                        if items.len() == 2 {
                            assert(trees[1] == items@[1]@);
                            match parse_formula(&items[1]) {
                                Ok(inner) => Ok(PDDLFormula::Not(Box::new(inner))),
                                Err(x) => Err(x),
                            }
                        } else {
                            Err(PlannerError::new(ErrorKind::MalformedSyntax))
                        }
                    } else if has_temporal_shape(items) {
                        assert(trees[1] == items@[1]@);
                        assert(trees[2] == items@[2]@);
                        match &items[1] {
                            SExpr::Atom(qualifier) => {
                                let at = is_word(head, "at");
                                if at && is_word(qualifier, "start") {
                                    match parse_formula(&items[2]) {
                                        Ok(inner) => Ok(PDDLFormula::AtStart(Box::new(inner))),
                                        Err(x) => Err(x),
                                    }
                                } else if at && is_word(qualifier, "end") {
                                    match parse_formula(&items[2]) {
                                        Ok(inner) => Ok(PDDLFormula::AtEnd(Box::new(inner))),
                                        Err(x) => Err(x),
                                    }
                                } else if is_word(head, "over") && is_word(qualifier, "all") {
                                    match parse_formula(&items[2]) {
                                        Ok(inner) => Ok(PDDLFormula::OverAll(Box::new(inner))),
                                        Err(x) => Err(x),
                                    }
                                } else {
                                    Err(
                                        PlannerError::about(
                                            ErrorKind::UnknownTemporalOperator,
                                            string_of(qualifier),
                                        ),
                                    )
                                }
                            },
                            SExpr::List(_) => Err(PlannerError::new(ErrorKind::MalformedSyntax)),
                        }
                    } else {
                        match relation_for(head) {
                            Some(relation) => Ok(
                                PDDLFormula::DurationConstraint {
                                    relation,
                                    constant: duration_constant_in(items),
                                },
                            ),
                            None => {
                                proof {
                                    assert(all_atoms(trees) <==> all_atoms(trees.skip(1))) by {
                                        if all_atoms(trees) {
                                            assert forall|k: int|
                                                0 <= k < trees.skip(1).len() implies #[trigger] trees.skip(
                                                1,
                                            )[k] is Atom by {
                                                assert(trees[k + 1] is Atom);
                                            }
                                        }
                                        if all_atoms(trees.skip(1)) {
                                            assert forall|k: int|
                                                0 <= k < trees.len() implies #[trigger] trees[k] is Atom by {
                                                if k > 0 {
                                                    assert(trees.skip(1)[k - 1] is Atom);
                                                }
                                            }
                                        }
                                    }
                                }
                                match atom_names(items, 1) {
                                    Some(args) => Ok(
                                        PDDLFormula::Predicate {
                                            name: string_of(head),
                                            args,
                                            negated: false,
                                        },
                                    ),
                                    None => Err(PlannerError::new(ErrorKind::MalformedSyntax)),
                                }
                            },
                        }
                    }
                },
            }
        },
    }
}

} // verus!
