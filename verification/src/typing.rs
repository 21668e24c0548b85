//! Types: every type that a parameter or an object is given has to be
//! declared.

use vstd::prelude::*;
use crate::temporal_task::{
    ActionView, PDDLParameter, PDDLPredicate, ParameterView, PredicateView, TaskView,
    TemporalAction, TemporalTask,
};
use crate::text::{is_word, chars_of, names_match, names_view, same_symbol, view_all};

verus! {

/// Whether a type is known: it is `object`, which every task has, or one of
/// the first `n` declared types, up to the case of ASCII letters.
pub open spec fn type_known(types: Seq<Seq<char>>, tag: Seq<char>, n: int) -> bool
    decreases n,
{
    if n <= 0 || n > types.len() {
        same_symbol(tag, "object"@)
    } else {
        same_symbol(types[n - 1], tag) || type_known(types, tag, n - 1)
    }
}

/// The first type among those of the first `n` parameters that is not
/// known, if there is one.
pub open spec fn unknown_type_in(params: Seq<ParameterView>, types: Seq<Seq<char>>, n: int) -> Option<
    Seq<char>,
>
    decreases n,
{
    if n <= 0 || n > params.len() {
        None
    } else {
        match unknown_type_in(params, types, n - 1) {
            Some(t) => Some(t),
            None => match params[n - 1].type_tag {
                Some(t) => if type_known(types, t, types.len() as int) {
                    None
                } else {
                    Some(t)
                },
                None => None,
            },
        }
    }
}

/// The first unknown type among the parameters of the first `n` predicates.
pub open spec fn unknown_predicate_type(
    predicates: Seq<PredicateView>,
    types: Seq<Seq<char>>,
    n: int,
) -> Option<Seq<char>>
    decreases n,
{
    if n <= 0 || n > predicates.len() {
        None
    } else {
        match unknown_predicate_type(predicates, types, n - 1) {
            Some(t) => Some(t),
            None => unknown_type_in(
                predicates[n - 1].parameters,
                types,
                predicates[n - 1].parameters.len() as int,
            ),
        }
    }
}

/// The first unknown type among the parameters of the first `n` actions.
pub open spec fn unknown_action_type(actions: Seq<ActionView>, types: Seq<Seq<char>>, n: int) -> Option<
    Seq<char>,
>
    decreases n,
{
    if n <= 0 || n > actions.len() {
        None
    } else {
        match unknown_action_type(actions, types, n - 1) {
            Some(t) => Some(t),
            None => unknown_type_in(
                actions[n - 1].parameters,
                types,
                actions[n - 1].parameters.len() as int,
            ),
        }
    }
}

/// The first type of a task that is used and not declared: among the
/// parameters of its predicates, then among those of its actions, then among
/// its objects.
pub open spec fn unknown_type_of(task: TaskView) -> Option<Seq<char>> {
    match unknown_predicate_type(task.predicates, task.types, task.predicates.len() as int) {
        Some(t) => Some(t),
        None => match unknown_action_type(task.actions, task.types, task.actions.len() as int) {
            Some(t) => Some(t),
            None => unknown_type_in(task.objects, task.types, task.objects.len() as int),
        },
    }
}

fn knows_type(types: &Vec<String>, tag: &String) -> (r: bool)
    ensures
        r == type_known(names_view(types@), tag@, types.len() as int),
{
    let letters = chars_of(tag.as_str());
    let mut known = is_word(&letters, "object");
    let mut i: usize = 0;
    while i < types.len()
        invariant
            i <= types.len(),
            known == type_known(names_view(types@), tag@, i as int),
        decreases types.len() - i,
    {
        assert(names_view(types@)[i as int] == types@[i as int]@);
        if names_match(&types[i], tag) {
            known = true;
        }
        i = i + 1;
    }
    known
}

fn find_unknown_type(params: &Vec<PDDLParameter>, types: &Vec<String>) -> (r: Option<String>)
    ensures
        match unknown_type_in(view_all(params@), names_view(types@), params.len() as int) {
            Some(t) => r is Some && r->0@ == t,
            None => r is None,
        },
{
    let mut i: usize = 0;
    while i < params.len()
        invariant
            i <= params.len(),
            unknown_type_in(view_all(params@), names_view(types@), i as int) is None,
        decreases params.len() - i,
    {
        assert(view_all(params@)[i as int] == params@[i as int]@);
        match &params[i].type_tag {
            Some(t) => {
                if !knows_type(types, t) {
                    proof {
                        lemma_unknown_persists(
                            view_all(params@),
                            names_view(types@),
                            i + 1,
                            params.len() as int,
                        );
                    }
                    return Some(t.clone());
                }
            },
            None => {},
        }
        i = i + 1;
    }
    None
}

/// An unknown type found among the first parameters is the first among all.
pub proof fn lemma_unknown_persists(params: Seq<ParameterView>, types: Seq<Seq<char>>, n: int, m: int)
    requires
        0 <= n <= m <= params.len(),
        unknown_type_in(params, types, n) is Some,
    ensures
        unknown_type_in(params, types, m) == unknown_type_in(params, types, n),
    decreases m,
{
    if m > n {
        lemma_unknown_persists(params, types, n, m - 1);
    }
}

proof fn lemma_unknown_predicate_persists(
    predicates: Seq<PredicateView>,
    types: Seq<Seq<char>>,
    n: int,
    m: int,
)
    requires
        0 <= n <= m <= predicates.len(),
        unknown_predicate_type(predicates, types, n) is Some,
    ensures
        unknown_predicate_type(predicates, types, m) == unknown_predicate_type(predicates, types, n),
    decreases m,
{
    if m > n {
        lemma_unknown_predicate_persists(predicates, types, n, m - 1);
    }
}

proof fn lemma_unknown_action_persists(actions: Seq<ActionView>, types: Seq<Seq<char>>, n: int, m: int)
    requires
        0 <= n <= m <= actions.len(),
        unknown_action_type(actions, types, n) is Some,
    ensures
        unknown_action_type(actions, types, m) == unknown_action_type(actions, types, n),
    decreases m,
{
    if m > n {
        lemma_unknown_action_persists(actions, types, n, m - 1);
    }
}

fn find_unknown_predicate_type(predicates: &Vec<PDDLPredicate>, types: &Vec<String>) -> (r: Option<
    String,
>)
    ensures
        match unknown_predicate_type(
            view_all(predicates@),
            names_view(types@),
            predicates.len() as int,
        ) {
            Some(t) => r is Some && r->0@ == t,
            None => r is None,
        },
{
    let mut i: usize = 0;
    while i < predicates.len()
        invariant
            i <= predicates.len(),
            unknown_predicate_type(view_all(predicates@), names_view(types@), i as int) is None,
        decreases predicates.len() - i,
    {
        assert(view_all(predicates@)[i as int] == predicates@[i as int]@);
        match find_unknown_type(&predicates[i].parameters, types) {
            Some(t) => {
                proof {
                    lemma_unknown_predicate_persists(
                        view_all(predicates@),
                        names_view(types@),
                        i + 1,
                        predicates.len() as int,
                    );
                }
                return Some(t);
            },
            None => {},
        }
        i = i + 1;
    }
    None
}

fn find_unknown_action_type(actions: &Vec<TemporalAction>, types: &Vec<String>) -> (r: Option<String>)
    ensures
        match unknown_action_type(view_all(actions@), names_view(types@), actions.len() as int) {
            Some(t) => r is Some && r->0@ == t,
            None => r is None,
        },
{
    let mut i: usize = 0;
    while i < actions.len()
        invariant
            i <= actions.len(),
            unknown_action_type(view_all(actions@), names_view(types@), i as int) is None,
        decreases actions.len() - i,
    {
        assert(view_all(actions@)[i as int] == actions@[i as int]@);
        match find_unknown_type(&actions[i].parameters, types) {
            Some(t) => {
                proof {
                    lemma_unknown_action_persists(
                        view_all(actions@),
                        names_view(types@),
                        i + 1,
                        actions.len() as int,
                    );
                }
                return Some(t);
            },
            None => {},
        }
        i = i + 1;
    }
    None
}

/// Finds the first type of a task that is used and not declared.
pub fn check_types(task: &TemporalTask) -> (r: Option<String>)
    ensures
        match unknown_type_of(task@) {
            Some(t) => r is Some && r->0@ == t,
            None => r is None,
        },
{
    match find_unknown_predicate_type(&task.predicates, &task.types) {
        Some(t) => {
            return Some(t);
        },
        None => {},
    }
    match find_unknown_action_type(&task.actions, &task.types) {
        Some(t) => {
            return Some(t);
        },
        None => {},
    }
    find_unknown_type(&task.objects, &task.types)
}

} // verus!
