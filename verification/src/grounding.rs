//! Grounding: every action template becomes one ground action for each way
//! of putting objects in the place of its parameters.

use vstd::prelude::*;
use crate::compile::{fact_index, find_fact};
use crate::state_space::{GroundAction, GroundActionView, GroundLiteral};
use crate::temporal_task::{
    ActionView, Condition, Effect, Fact, GroundAtom, Literal, PDDLParameter, ParameterView,
    TaskView, TemporalAction, TemporalTask, conditions_view, effects_view,
};
use crate::text::{
    copy_names, names_match, names_view, same_symbol, view_all, lemma_view_all_empty,
    lemma_view_all_push,
};

verus! {

/// Whether an object can stand for a parameter: the parameter has no type,
/// or the object has the same type.
pub open spec fn fits(parameter: ParameterView, object: ParameterView) -> bool {
    match parameter.type_tag {
        None => true,
        Some(wanted) => object.type_tag is Some && same_symbol(object.type_tag->0, wanted),
    }
}

fn object_fits(parameter: &PDDLParameter, object: &PDDLParameter) -> (r: bool)
    ensures
        r == fits(parameter@, object@),
{
    match &parameter.type_tag {
        None => true,
        Some(wanted) => match &object.type_tag {
            None => false,
            Some(given) => names_match(given, wanted),
        },
    }
}

/// The numbers of the objects among the first `n` that can stand for a
/// parameter, in the order of the objects.
pub open spec fn candidates(parameter: ParameterView, objects: Seq<ParameterView>, n: int) -> Seq<
    usize,
>
    decreases n,
{
    if n <= 0 || n > objects.len() {
        Seq::empty()
    } else if fits(parameter, objects[n - 1]) {
        candidates(parameter, objects, n - 1).push((n - 1) as usize)
    } else {
        candidates(parameter, objects, n - 1)
    }
}

fn find_candidates(parameter: &PDDLParameter, objects: &Vec<PDDLParameter>) -> (found: Vec<usize>)
    ensures
        found@ == candidates(parameter@, view_all(objects@), objects.len() as int),
{
    let ghost views = view_all(objects@);
    let mut found: Vec<usize> = Vec::new();
    let mut i: usize = 0;
    while i < objects.len()
        invariant
            i <= objects.len(),
            views == view_all(objects@),
            found@ == candidates(parameter@, views, i as int),
        decreases objects.len() - i,
    {
        assert(views[i as int] == objects@[i as int]@);
        if object_fits(parameter, &objects[i]) {
            found.push(i);
        }
        i = i + 1;
    }
    found
}

/// A binding with each of the first `c` candidates added to it in turn.
pub open spec fn grown(binding: Seq<usize>, found: Seq<usize>, c: int) -> Seq<Seq<usize>>
    decreases c,
{
    if c <= 0 || c > found.len() {
        Seq::empty()
    } else {
        grown(binding, found, c - 1).push(binding.push(found[c - 1]))
    }
}

/// The first `b` bindings, each with every candidate added to it in turn.
pub open spec fn all_grown(bindings: Seq<Seq<usize>>, found: Seq<usize>, b: int) -> Seq<Seq<usize>>
    decreases b,
{
    if b <= 0 || b > bindings.len() {
        Seq::empty()
    } else {
        all_grown(bindings, found, b - 1) + grown(bindings[b - 1], found, found.len() as int)
    }
}

/// The bindings of the first `j` parameters: every way of choosing for each
/// of them an object that fits it. They are ordered by the object of the
/// first parameter, then by that of the second, and so on.
pub open spec fn bindings_of(
    parameters: Seq<ParameterView>,
    objects: Seq<ParameterView>,
    j: int,
) -> Seq<Seq<usize>>
    decreases j,
{
    if j <= 0 || j > parameters.len() {
        seq![Seq::empty()]
    } else {
        let before = bindings_of(parameters, objects, j - 1);
        all_grown(
            before,
            candidates(parameters[j - 1], objects, objects.len() as int),
            before.len() as int,
        )
    }
}

pub open spec fn bindings_view(bindings: Seq<Vec<usize>>) -> Seq<Seq<usize>> {
    Seq::new(bindings.len(), |i: int| bindings[i]@)
}

fn copy_binding(binding: &Vec<usize>) -> (out: Vec<usize>)
    ensures
        out@ == binding@,
{
    let mut out: Vec<usize> = Vec::new();
    let mut i: usize = 0;
    while i < binding.len()
        invariant
            i <= binding.len(),
            out@ == binding@.take(i as int),
        decreases binding.len() - i,
    {
        out.push(binding[i]);
        assert(binding@.take(i + 1) =~= binding@.take(i as int).push(binding@[i as int]));
        i = i + 1;
    }
    assert(binding@.take(binding.len() as int) =~= binding@);
    out
}

fn grow_all(bindings: &Vec<Vec<usize>>, found: &Vec<usize>) -> (out: Vec<Vec<usize>>)
    ensures
        bindings_view(out@) == all_grown(bindings_view(bindings@), found@, bindings.len() as int),
{
    let ghost views = bindings_view(bindings@);
    let mut out: Vec<Vec<usize>> = Vec::new();
    proof {
        assert(bindings_view(out@) =~= Seq::<Seq<usize>>::empty());
    }
    let mut b: usize = 0;
    while b < bindings.len()
        invariant
            b <= bindings.len(),
            views == bindings_view(bindings@),
            bindings_view(out@) == all_grown(views, found@, b as int),
        decreases bindings.len() - b,
    {
        let ghost start = bindings_view(out@);
        assert(views[b as int] == bindings@[b as int]@);
        let mut c: usize = 0;
        proof {
            assert(start + grown(views[b as int], found@, 0) =~= start);
        }
        while c < found.len()
            invariant
                c <= found.len(),
                b < bindings.len(),
                views == bindings_view(bindings@),
                bindings_view(out@) == start + grown(views[b as int], found@, c as int),
            decreases found.len() - c,
        {
            let mut longer = copy_binding(&bindings[b]);
            longer.push(found[c]);
            let ghost before = out@;
            out.push(longer);
            proof {
                assert(bindings_view(out@) =~= bindings_view(before).push(longer@));
                assert(start + grown(views[b as int], found@, c + 1) =~= (start + grown(
                    views[b as int],
                    found@,
                    c as int,
                )).push(longer@));
            }
            c = c + 1;
        }
        b = b + 1;
    }
    out
}

/// Lists every binding of the parameters.
pub fn enumerate_bindings(parameters: &Vec<PDDLParameter>, objects: &Vec<PDDLParameter>) -> (out:
    Vec<Vec<usize>>)
    ensures
        bindings_view(out@) == bindings_of(
            view_all(parameters@),
            view_all(objects@),
            parameters.len() as int,
        ),
{
    let ghost views = view_all(parameters@);
    let mut out: Vec<Vec<usize>> = Vec::new();
    out.push(Vec::new());
    proof {
        assert(bindings_view(out@) =~= seq![Seq::<usize>::empty()]);
    }
    let mut j: usize = 0;
    while j < parameters.len()
        invariant
            j <= parameters.len(),
            views == view_all(parameters@),
            bindings_view(out@) == bindings_of(views, view_all(objects@), j as int),
        decreases parameters.len() - j,
    {
        assert(views[j as int] == parameters@[j as int]@);
        let found = find_candidates(&parameters[j], objects);
        out = grow_all(&out, &found);
        j = j + 1;
    }
    out
}

/// The place of the first parameter at or after `from` with the given name,
/// or -1 if there is none.
pub open spec fn parameter_index(parameters: Seq<ParameterView>, name: Seq<char>, from: int) -> int
    decreases parameters.len() - from,
{
    if from < 0 || from >= parameters.len() {
        -1
    } else if same_symbol(parameters[from].name, name) {
        from
    } else {
        parameter_index(parameters, name, from + 1)
    }
}

/// An argument with the binding put in: the name of the bound object where
/// the argument is a parameter, and the argument itself where it is not.
pub open spec fn bound_arg(
    parameters: Seq<ParameterView>,
    objects: Seq<ParameterView>,
    binding: Seq<usize>,
    arg: Seq<char>,
) -> Seq<char> {
    let j = parameter_index(parameters, arg, 0);
    if 0 <= j < binding.len() && binding[j] < objects.len() {
        objects[binding[j] as int].name
    } else {
        arg
    }
}

pub open spec fn bound_args(
    parameters: Seq<ParameterView>,
    objects: Seq<ParameterView>,
    binding: Seq<usize>,
    args: Seq<Seq<char>>,
) -> Seq<Seq<char>> {
    Seq::new(args.len(), |i: int| bound_arg(parameters, objects, binding, args[i]))
}

fn find_parameter(parameters: &Vec<PDDLParameter>, name: &String) -> (r: Option<usize>)
    ensures
        match r {
            Some(j) => j < parameters.len() && j == parameter_index(view_all(parameters@), name@, 0),
            None => parameter_index(view_all(parameters@), name@, 0) == -1,
        },
{
    let ghost views = view_all(parameters@);
    let mut j: usize = 0;
    while j < parameters.len()
        invariant
            j <= parameters.len(),
            views == view_all(parameters@),
            parameter_index(views, name@, 0) == parameter_index(views, name@, j as int),
        decreases parameters.len() - j,
    {
        assert(views[j as int] == parameters@[j as int]@);
        if names_match(&parameters[j].name, name) {
            return Some(j);
        }
        j = j + 1;
    }
    None
}

fn bind_args(
    parameters: &Vec<PDDLParameter>,
    objects: &Vec<PDDLParameter>,
    binding: &Vec<usize>,
    args: &Vec<String>,
) -> (out: Vec<String>)
    ensures
        names_view(out@) == bound_args(
            view_all(parameters@),
            view_all(objects@),
            binding@,
            names_view(args@),
        ),
{
    let ghost expected = bound_args(
        view_all(parameters@),
        view_all(objects@),
        binding@,
        names_view(args@),
    );
    let mut out: Vec<String> = Vec::new();
    let mut i: usize = 0;
    while i < args.len()
        invariant
            i <= args.len(),
            out.len() == i,
            expected == bound_args(
                view_all(parameters@),
                view_all(objects@),
                binding@,
                names_view(args@),
            ),
            forall|k: int| 0 <= k < i ==> (#[trigger] out@[k])@ == expected[k],
        decreases args.len() - i,
    {
        assert(names_view(args@)[i as int] == args@[i as int]@);
        let bound = match find_parameter(parameters, &args[i]) {
            Some(j) => {
                if j < binding.len() && binding[j] < objects.len() {
                    assert(view_all(objects@)[binding@[j as int] as int] == objects@[binding@[j as int] as int]@);
                    objects[binding[j]].name.clone()
                } else {
                    args[i].clone()
                }
            },
            None => args[i].clone(),
        };
        out.push(bound);
        i = i + 1;
    }
    assert(names_view(out@) =~= expected);
    out
}

/// The table with the atom in it, and the atom's number: the number it had,
/// or the next one if it had none.
pub open spec fn placed(table: Seq<GroundAtom>, atom: GroundAtom) -> (Seq<GroundAtom>, int) {
    let at = fact_index(table, atom, 0);
    if at >= 0 {
        (table, at)
    } else {
        (table.push(atom), table.len() as int)
    }
}

/// The table with the atoms of the first `n` literals in it, each with the
/// binding put in, and the literals over fact numbers.
pub open spec fn placed_all(
    table: Seq<GroundAtom>,
    parameters: Seq<ParameterView>,
    objects: Seq<ParameterView>,
    binding: Seq<usize>,
    literals: Seq<Literal>,
    n: int,
) -> (Seq<GroundAtom>, Seq<GroundLiteral>)
    decreases n,
{
    if n <= 0 || n > literals.len() {
        (table, Seq::empty())
    } else {
        let before = placed_all(table, parameters, objects, binding, literals, n - 1);
        let l = literals[n - 1];
        let p = placed(
            before.0,
            GroundAtom {
                predicate: l.predicate,
                args: bound_args(parameters, objects, binding, l.args),
            },
        );
        (p.0, before.1.push(GroundLiteral { fact: p.1 as usize, negated: l.negated }))
    }
}

/// The names of the objects of a binding.
pub open spec fn binding_names(objects: Seq<ParameterView>, binding: Seq<usize>) -> Seq<Seq<char>> {
    Seq::new(
        binding.len(),
        |i: int|
            if binding[i] < objects.len() {
                objects[binding[i] as int].name
            } else {
                Seq::empty()
            },
    )
}

/// The ground action that a template becomes under a binding, and the fact
/// table with the atoms of the ground action in it.
pub open spec fn instance(
    table: Seq<GroundAtom>,
    action: ActionView,
    template: int,
    objects: Seq<ParameterView>,
    binding: Seq<usize>,
) -> (Seq<GroundAtom>, GroundActionView) {
    let p = action.parameters;
    let cs = placed_all(
        table,
        p,
        objects,
        binding,
        action.conditions_start,
        action.conditions_start.len() as int,
    );
    let co = placed_all(
        cs.0,
        p,
        objects,
        binding,
        action.conditions_over_all,
        action.conditions_over_all.len() as int,
    );
    let ce = placed_all(
        co.0,
        p,
        objects,
        binding,
        action.conditions_end,
        action.conditions_end.len() as int,
    );
    let es = placed_all(
        ce.0,
        p,
        objects,
        binding,
        action.effects_start,
        action.effects_start.len() as int,
    );
    let ee = placed_all(
        es.0,
        p,
        objects,
        binding,
        action.effects_end,
        action.effects_end.len() as int,
    );
    (
        ee.0,
        GroundActionView {
            template,
            name: action.name,
            args: binding_names(objects, binding),
            duration: action.duration,
            conditions_start: cs.1,
            conditions_over_all: co.1,
            conditions_end: ce.1,
            effects_start: es.1,
            effects_end: ee.1,
        },
    )
}

/// The fact table and the ground actions after the first `b` bindings of a
/// template were added.
pub open spec fn instances(
    start: (Seq<GroundAtom>, Seq<GroundActionView>),
    action: ActionView,
    template: int,
    objects: Seq<ParameterView>,
    bindings: Seq<Seq<usize>>,
    b: int,
) -> (Seq<GroundAtom>, Seq<GroundActionView>)
    decreases b,
{
    if b <= 0 || b > bindings.len() {
        start
    } else {
        let before = instances(start, action, template, objects, bindings, b - 1);
        let made = instance(before.0, action, template, objects, bindings[b - 1]);
        (made.0, before.1.push(made.1))
    }
}

/// The fact table and the ground actions after the first `t` templates of a
/// task were grounded. The table starts as the task's own.
pub open spec fn grounding(task: TaskView, t: int) -> (Seq<GroundAtom>, Seq<GroundActionView>)
    decreases t,
{
    if t <= 0 || t > task.actions.len() {
        (task.facts, Seq::empty())
    } else {
        let bindings = bindings_of(
            task.actions[t - 1].parameters,
            task.objects,
            task.actions[t - 1].parameters.len() as int,
        );
        instances(
            grounding(task, t - 1),
            task.actions[t - 1],
            t - 1,
            task.objects,
            bindings,
            bindings.len() as int,
        )
    }
}

fn place_atom(table: &mut Vec<Fact>, predicate: &String, args: Vec<String>) -> (at: usize)
    ensures
        (view_all(final(table)@), at as int) == placed(
            view_all(old(table)@),
            GroundAtom { predicate: predicate@, args: names_view(args@) },
        ),
{
    match find_fact(table, predicate, &args) {
        Some(at) => at,
        None => {
            let at = table.len();
            let f = Fact { predicate: predicate.clone(), args };
            proof {
                lemma_view_all_push(table@, f);
            }
            table.push(f);
            at
        },
    }
}

fn place_conditions(
    table: &mut Vec<Fact>,
    parameters: &Vec<PDDLParameter>,
    objects: &Vec<PDDLParameter>,
    binding: &Vec<usize>,
    conditions: &Vec<Condition>,
) -> (out: Vec<GroundLiteral>)
    ensures
        (view_all(final(table)@), out@) == placed_all(
            view_all(old(table)@),
            view_all(parameters@),
            view_all(objects@),
            binding@,
            conditions_view(conditions@),
            conditions.len() as int,
        ),
{
    let ghost start = view_all(table@);
    let ghost literals = conditions_view(conditions@);
    let mut out: Vec<GroundLiteral> = Vec::new();
    let mut i: usize = 0;
    while i < conditions.len()
        invariant
            i <= conditions.len(),
            literals == conditions_view(conditions@),
            (view_all(table@), out@) == placed_all(
                start,
                view_all(parameters@),
                view_all(objects@),
                binding@,
                literals,
                i as int,
            ),
        decreases conditions.len() - i,
    {
        assert(literals[i as int] == conditions@[i as int]@);
        let args = bind_args(parameters, objects, binding, &conditions[i].args);
        let at = place_atom(table, &conditions[i].predicate, args);
        out.push(GroundLiteral { fact: at, negated: conditions[i].is_negative });
        i = i + 1;
    }
    out
}

fn place_effects(
    table: &mut Vec<Fact>,
    parameters: &Vec<PDDLParameter>,
    objects: &Vec<PDDLParameter>,
    binding: &Vec<usize>,
    effects: &Vec<Effect>,
) -> (out: Vec<GroundLiteral>)
    ensures
        (view_all(final(table)@), out@) == placed_all(
            view_all(old(table)@),
            view_all(parameters@),
            view_all(objects@),
            binding@,
            effects_view(effects@),
            effects.len() as int,
        ),
{
    let ghost start = view_all(table@);
    let ghost literals = effects_view(effects@);
    let mut out: Vec<GroundLiteral> = Vec::new();
    let mut i: usize = 0;
    while i < effects.len()
        invariant
            i <= effects.len(),
            literals == effects_view(effects@),
            (view_all(table@), out@) == placed_all(
                start,
                view_all(parameters@),
                view_all(objects@),
                binding@,
                literals,
                i as int,
            ),
        decreases effects.len() - i,
    {
        assert(literals[i as int] == effects@[i as int]@);
        let args = bind_args(parameters, objects, binding, &effects[i].args);
        let at = place_atom(table, &effects[i].predicate, args);
        out.push(GroundLiteral { fact: at, negated: effects[i].is_delete });
        i = i + 1;
    }
    out
}

fn names_of_binding(objects: &Vec<PDDLParameter>, binding: &Vec<usize>) -> (out: Vec<String>)
    ensures
        names_view(out@) == binding_names(view_all(objects@), binding@),
{
    let ghost expected = binding_names(view_all(objects@), binding@);
    let mut out: Vec<String> = Vec::new();
    let mut i: usize = 0;
    while i < binding.len()
        invariant
            i <= binding.len(),
            out.len() == i,
            expected == binding_names(view_all(objects@), binding@),
            forall|k: int| 0 <= k < i ==> (#[trigger] out@[k])@ == expected[k],
        decreases binding.len() - i,
    {
        if binding[i] < objects.len() {
            assert(view_all(objects@)[binding@[i as int] as int] == objects@[binding@[i as int] as int]@);
            out.push(objects[binding[i]].name.clone());
        } else {
            out.push(String::new());
        }
        i = i + 1;
    }
    assert(names_view(out@) =~= expected);
    out
}

/// Grounds a template under a binding.
fn make_instance(
    table: &mut Vec<Fact>,
    action: &TemporalAction,
    template: usize,
    objects: &Vec<PDDLParameter>,
    binding: &Vec<usize>,
) -> (made: GroundAction)
    ensures
        (view_all(final(table)@), made@) == instance(
            view_all(old(table)@),
            action@,
            template as int,
            view_all(objects@),
            binding@,
        ),
{
    let p = &action.parameters;
    let conditions_start = place_conditions(table, p, objects, binding, &action.conditions_start);
    let conditions_over_all = place_conditions(
        table,
        p,
        objects,
        binding,
        &action.conditions_over_all,
    );
    let conditions_end = place_conditions(table, p, objects, binding, &action.conditions_end);
    let effects_start = place_effects(table, p, objects, binding, &action.effects_start);
    let effects_end = place_effects(table, p, objects, binding, &action.effects_end);
    GroundAction {
        template,
        name: action.name.clone(),
        args: names_of_binding(objects, binding),
        duration: action.duration,
        conditions_start,
        conditions_over_all,
        conditions_end,
        effects_start,
        effects_end,
    }
}

/// Grounds every template of a task: hands back the fact table and the
/// ground actions.
pub fn ground_task(task: &TemporalTask) -> (made: (Vec<Fact>, Vec<GroundAction>))
    ensures
        (view_all(made.0@), view_all(made.1@)) == grounding(task@, task.actions.len() as int),
{
    let mut table: Vec<Fact> = Vec::new();
    let mut f: usize = 0;
    while f < task.facts.len()
        invariant
            f <= task.facts.len(),
            table.len() == f,
            forall|k: int| 0 <= k < f ==> (#[trigger] table@[k])@ == task.facts@[k]@,
        decreases task.facts.len() - f,
    {
        table.push(
            Fact { predicate: task.facts[f].predicate.clone(), args: copy_names(&task.facts[f].args) },
        );
        f = f + 1;
    }
    assert(view_all(table@) =~= view_all(task.facts@));
    let mut actions: Vec<GroundAction> = Vec::new();
    proof {
        lemma_view_all_empty::<GroundAction>();
    }
    let ghost templates = view_all(task.actions@);
    let mut t: usize = 0;
    while t < task.actions.len()
        invariant
            t <= task.actions.len(),
            templates == view_all(task.actions@),
            (view_all(table@), view_all(actions@)) == grounding(task@, t as int),
        decreases task.actions.len() - t,
    {
        assert(templates[t as int] == task.actions@[t as int]@);
        let action = &task.actions[t];
        let bindings = enumerate_bindings(&action.parameters, &task.objects);
        let ghost start = (view_all(table@), view_all(actions@));
        let ghost all = bindings_view(bindings@);
        let mut b: usize = 0;
        while b < bindings.len()
            invariant
                b <= bindings.len(),
                t < task.actions.len(),
                action@ == templates[t as int],
                all == bindings_view(bindings@),
                (view_all(table@), view_all(actions@)) == instances(
                    start,
                    action@,
                    t as int,
                    view_all(task.objects@),
                    all,
                    b as int,
                ),
            decreases bindings.len() - b,
        {
            assert(all[b as int] == bindings@[b as int]@);
            let made = make_instance(&mut table, action, t, &task.objects, &bindings[b]);
            proof {
                lemma_view_all_push(actions@, made);
            }
            actions.push(made);
            b = b + 1;
        }
        t = t + 1;
    }
    (table, actions)
}

pub proof fn lemma_placed_all_extends(
    table: Seq<GroundAtom>,
    parameters: Seq<ParameterView>,
    objects: Seq<ParameterView>,
    binding: Seq<usize>,
    literals: Seq<Literal>,
    n: int,
)
    ensures
        table.len() <= placed_all(table, parameters, objects, binding, literals, n).0.len(),
        placed_all(table, parameters, objects, binding, literals, n).0.take(table.len() as int)
            == table,
    decreases n,
{
    if n <= 0 || n > literals.len() {
        assert(table.take(table.len() as int) =~= table);
    } else {
        lemma_placed_all_extends(table, parameters, objects, binding, literals, n - 1);
        let before = placed_all(table, parameters, objects, binding, literals, n - 1).0;
        let after = placed_all(table, parameters, objects, binding, literals, n).0;
        assert(after.take(before.len() as int) =~= before);
        assert(after.take(table.len() as int) =~= after.take(before.len() as int).take(
            table.len() as int,
        ));
    }
}

pub proof fn lemma_instance_extends(
    table: Seq<GroundAtom>,
    action: ActionView,
    template: int,
    objects: Seq<ParameterView>,
    binding: Seq<usize>,
)
    ensures
        table.len() <= instance(table, action, template, objects, binding).0.len(),
        instance(table, action, template, objects, binding).0.take(table.len() as int) == table,
{
    let p = action.parameters;
    let t1 = placed_all(
        table,
        p,
        objects,
        binding,
        action.conditions_start,
        action.conditions_start.len() as int,
    ).0;
    let t2 = placed_all(
        t1,
        p,
        objects,
        binding,
        action.conditions_over_all,
        action.conditions_over_all.len() as int,
    ).0;
    let t3 = placed_all(
        t2,
        p,
        objects,
        binding,
        action.conditions_end,
        action.conditions_end.len() as int,
    ).0;
    let t4 = placed_all(
        t3,
        p,
        objects,
        binding,
        action.effects_start,
        action.effects_start.len() as int,
    ).0;
    let t5 = placed_all(
        t4,
        p,
        objects,
        binding,
        action.effects_end,
        action.effects_end.len() as int,
    ).0;
    lemma_placed_all_extends(
        table,
        p,
        objects,
        binding,
        action.conditions_start,
        action.conditions_start.len() as int,
    );
    lemma_placed_all_extends(
        t1,
        p,
        objects,
        binding,
        action.conditions_over_all,
        action.conditions_over_all.len() as int,
    );
    lemma_placed_all_extends(
        t2,
        p,
        objects,
        binding,
        action.conditions_end,
        action.conditions_end.len() as int,
    );
    lemma_placed_all_extends(
        t3,
        p,
        objects,
        binding,
        action.effects_start,
        action.effects_start.len() as int,
    );
    lemma_placed_all_extends(
        t4,
        p,
        objects,
        binding,
        action.effects_end,
        action.effects_end.len() as int,
    );
    let n = table.len() as int;
    assert(t2.take(n) =~= t2.take(t1.len() as int).take(n));
    assert(t3.take(n) =~= t3.take(t2.len() as int).take(n));
    assert(t4.take(n) =~= t4.take(t3.len() as int).take(n));
    assert(t5.take(n) =~= t5.take(t4.len() as int).take(n));
}

pub proof fn lemma_instances_extend(
    start: (Seq<GroundAtom>, Seq<GroundActionView>),
    action: ActionView,
    template: int,
    objects: Seq<ParameterView>,
    bindings: Seq<Seq<usize>>,
    b: int,
)
    ensures
        start.0.len() <= instances(start, action, template, objects, bindings, b).0.len(),
        instances(start, action, template, objects, bindings, b).0.take(start.0.len() as int)
            == start.0,
    decreases b,
{
    if b <= 0 || b > bindings.len() {
        assert(start.0.take(start.0.len() as int) =~= start.0);
    } else {
        lemma_instances_extend(start, action, template, objects, bindings, b - 1);
        let before = instances(start, action, template, objects, bindings, b - 1).0;
        lemma_instance_extends(before, action, template, objects, bindings[b - 1]);
        let after = instances(start, action, template, objects, bindings, b).0;
        assert(after.take(start.0.len() as int) =~= after.take(before.len() as int).take(
            start.0.len() as int,
        ));
    }
}

/// Grounding is stable: the facts of the task keep their numbers, and the
/// atoms that grounding adds come behind them.
pub proof fn lemma_grounding_is_stable(task: TaskView, t: int)
    ensures
        task.facts.len() <= grounding(task, t).0.len(),
        grounding(task, t).0.take(task.facts.len() as int) == task.facts,
    decreases t,
{
    if t <= 0 || t > task.actions.len() {
        assert(task.facts.take(task.facts.len() as int) =~= task.facts);
    } else {
        lemma_grounding_is_stable(task, t - 1);
        let before = grounding(task, t - 1);
        let bindings = bindings_of(
            task.actions[t - 1].parameters,
            task.objects,
            task.actions[t - 1].parameters.len() as int,
        );
        lemma_instances_extend(
            before,
            task.actions[t - 1],
            t - 1,
            task.objects,
            bindings,
            bindings.len() as int,
        );
        let after = grounding(task, t).0;
        assert(after.take(task.facts.len() as int) =~= after.take(before.0.len() as int).take(
            task.facts.len() as int,
        ));
    }
}

} // verus!
