//! The compiled task: predicates, action templates, the ground fact table,
//! the initial state and the goal.

use vstd::prelude::*;
use vstd::multiset::Multiset;
use crate::error::{Warning, WarningView};
use crate::formula::{
    Formula, PDDLFormula, formula_view, formulas_view, lemma_and_view, lemma_or_view,
};
use crate::text::{copy_names, copy_optional_name, names_view, view_all};

verus! {

/// A predicate applied to arguments, with a sign. It is what a condition and
/// an effect look like to contracts: for a condition the sign says that the
/// atom must be false, for an effect that it is deleted.
pub struct Literal {
    pub predicate: Seq<char>,
    pub args: Seq<Seq<char>>,
    pub negated: bool,
}

#[derive(Debug)]
pub struct Condition {
    pub predicate: String,
    pub args: Vec<String>,
    pub is_negative: bool,
}

#[derive(Debug)]
pub struct Effect {
    pub predicate: String,
    pub args: Vec<String>,
    pub is_delete: bool,
}

impl View for Condition {
    type V = Literal;

    open spec fn view(&self) -> Literal {
        Literal {
            predicate: self.predicate@,
            args: names_view(self.args@),
            negated: self.is_negative,
        }
    }
}

impl View for Effect {
    type V = Literal;

    open spec fn view(&self) -> Literal {
        Literal { predicate: self.predicate@, args: names_view(self.args@), negated: self.is_delete }
    }
}

impl Condition {
    pub fn copy(&self) -> (c: Condition)
        ensures
            c@ == self@,
    {
        Condition {
            predicate: self.predicate.clone(),
            args: copy_names(&self.args),
            is_negative: self.is_negative,
        }
    }
}

impl Effect {
    pub fn copy(&self) -> (e: Effect)
        ensures
            e@ == self@,
    {
        Effect {
            predicate: self.predicate.clone(),
            args: copy_names(&self.args),
            is_delete: self.is_delete,
        }
    }
}

pub open spec fn conditions_view(conditions: Seq<Condition>) -> Seq<Literal> {
    Seq::new(conditions.len(), |i: int| conditions[i]@)
}

pub open spec fn effects_view(effects: Seq<Effect>) -> Seq<Literal> {
    Seq::new(effects.len(), |i: int| effects[i]@)
}

pub proof fn lemma_conditions_view_push(conditions: Seq<Condition>, c: Condition)
    ensures
        conditions_view(conditions.push(c)) == conditions_view(conditions) + seq![c@],
{
    assert(conditions_view(conditions.push(c)) =~= conditions_view(conditions) + seq![c@]);
}

pub proof fn lemma_effects_view_push(effects: Seq<Effect>, e: Effect)
    ensures
        effects_view(effects.push(e)) == effects_view(effects) + seq![e@],
{
    assert(effects_view(effects.push(e)) =~= effects_view(effects) + seq![e@]);
}

/// A parameter of a predicate or an action, or an object of a problem: a
/// name, and a type where one is given.
#[derive(Debug)]
pub struct PDDLParameter {
    pub name: String,
    pub type_tag: Option<String>,
}

pub struct ParameterView {
    pub name: Seq<char>,
    pub type_tag: Option<Seq<char>>,
}

impl View for PDDLParameter {
    type V = ParameterView;

    open spec fn view(&self) -> ParameterView {
        ParameterView {
            name: self.name@,
            type_tag: match self.type_tag {
                Some(t) => Some(t@),
                None => None,
            },
        }
    }
}

impl PDDLParameter {
    pub fn copy(&self) -> (p: PDDLParameter)
        ensures
            p@ == self@,
    {
        PDDLParameter { name: self.name.clone(), type_tag: copy_optional_name(&self.type_tag) }
    }
}

/// Copies a list of parameters.
pub fn copy_parameters(parameters: &Vec<PDDLParameter>) -> (out: Vec<PDDLParameter>)
    ensures
        view_all(out@) == view_all(parameters@),
{
    let mut out: Vec<PDDLParameter> = Vec::new();
    let mut i: usize = 0;
    while i < parameters.len()
        invariant
            i <= parameters.len(),
            out.len() == i,
            forall|k: int| 0 <= k < i ==> (#[trigger] out@[k])@ == parameters@[k]@,
        decreases parameters.len() - i,
    {
        out.push(parameters[i].copy());
        i = i + 1;
    }
    assert(view_all(out@) =~= view_all(parameters@));
    out
}

/// A declared predicate: its name and its parameters.
#[derive(Debug)]
pub struct PDDLPredicate {
    pub name: String,
    pub parameters: Vec<PDDLParameter>,
}

pub struct PredicateView {
    pub name: Seq<char>,
    pub parameters: Seq<ParameterView>,
}

impl View for PDDLPredicate {
    type V = PredicateView;

    open spec fn view(&self) -> PredicateView {
        PredicateView { name: self.name@, parameters: view_all(self.parameters@) }
    }
}

/// An action template. Times are in ticks, a millionth of a time unit each.
#[derive(Debug)]
pub struct TemporalAction {
    pub name: String,
    pub parameters: Vec<PDDLParameter>,
    pub duration: u64,
    pub conditions_start: Vec<Condition>,
    pub conditions_over_all: Vec<Condition>,
    pub conditions_end: Vec<Condition>,
    pub effects_start: Vec<Effect>,
    pub effects_end: Vec<Effect>,
}

pub struct ActionView {
    pub name: Seq<char>,
    pub parameters: Seq<ParameterView>,
    pub duration: nat,
    pub conditions_start: Seq<Literal>,
    pub conditions_over_all: Seq<Literal>,
    pub conditions_end: Seq<Literal>,
    pub effects_start: Seq<Literal>,
    pub effects_end: Seq<Literal>,
}

impl View for TemporalAction {
    type V = ActionView;

    open spec fn view(&self) -> ActionView {
        ActionView {
            name: self.name@,
            parameters: view_all(self.parameters@),
            duration: self.duration as nat,
            conditions_start: conditions_view(self.conditions_start@),
            conditions_over_all: conditions_view(self.conditions_over_all@),
            conditions_end: conditions_view(self.conditions_end@),
            effects_start: effects_view(self.effects_start@),
            effects_end: effects_view(self.effects_end@),
        }
    }
}

/// A ground atom: a predicate applied to constants. Its place in the task's
/// fact table is its bit in a state.
#[derive(Debug)]
pub struct Fact {
    pub predicate: String,
    pub args: Vec<String>,
}

pub struct GroundAtom {
    pub predicate: Seq<char>,
    pub args: Seq<Seq<char>>,
}

impl View for Fact {
    type V = GroundAtom;

    open spec fn view(&self) -> GroundAtom {
        GroundAtom { predicate: self.predicate@, args: names_view(self.args@) }
    }
}

/// A numeric fluent and its value, in ticks.
#[derive(Debug, PartialEq, Eq, Hash)]
pub struct NumericFluent {
    pub function: String,
    pub args: Vec<String>,
    pub value: i64,
}

pub struct FluentView {
    pub function: Seq<char>,
    pub args: Seq<Seq<char>>,
    pub value: int,
}

impl View for NumericFluent {
    type V = FluentView;

    open spec fn view(&self) -> FluentView {
        FluentView {
            function: self.function@,
            args: names_view(self.args@),
            value: self.value as int,
        }
    }
}

/// A classical state: one bit per ground fact, and the numeric fluents.
///
/// The fluents are a mapping written as a list: a later entry about the
/// same function and arguments replaces an earlier one. `equals` compares
/// two states as mappings; `==` and the hash go by the lists as written.
#[derive(Debug, PartialEq, Eq, Hash)]
pub struct State {
    pub facts: Vec<bool>,
    pub numeric_values: Vec<NumericFluent>,
}

pub struct StateView {
    pub facts: Seq<bool>,
    pub numeric_values: Seq<FluentView>,
}

impl View for State {
    type V = StateView;

    open spec fn view(&self) -> StateView {
        StateView { facts: self.facts@, numeric_values: view_all(self.numeric_values@) }
    }
}

fn same_bits(a: &Vec<bool>, b: &Vec<bool>) -> (r: bool)
    ensures
        r == (a@ == b@),
{
    if a.len() != b.len() {
        return false;
    }
    let mut i: usize = 0;
    while i < a.len()
        invariant
            i <= a.len(),
            a.len() == b.len(),
            forall|k: int| 0 <= k < i ==> a@[k] == b@[k],
        decreases a.len() - i,
    {
        if a[i] != b[i] {
            return false;
        }
        i = i + 1;
    }
    assert(a@ =~= b@);
    true
}

fn same_names(a: &Vec<String>, b: &Vec<String>) -> (r: bool)
    ensures
        r == (names_view(a@) == names_view(b@)),
{
    if a.len() != b.len() {
        assert(names_view(a@).len() != names_view(b@).len());
        return false;
    }
    let mut i: usize = 0;
    while i < a.len()
        invariant
            i <= a.len(),
            a.len() == b.len(),
            forall|k: int| 0 <= k < i ==> names_view(a@)[k] == names_view(b@)[k],
        decreases a.len() - i,
    {
        if a[i] != b[i] {
            assert(names_view(a@)[i as int] != names_view(b@)[i as int]);
            return false;
        }
        i = i + 1;
    }
    assert(names_view(a@) =~= names_view(b@));
    true
}

/// The value that the first `n` fluents give to a function applied to
/// arguments: that of the last of them that is about it, if there is one.
pub open spec fn fluent_value(
    fluents: Seq<FluentView>,
    function: Seq<char>,
    args: Seq<Seq<char>>,
    n: int,
) -> Option<int>
    decreases n,
{
    if n <= 0 || n > fluents.len() {
        None
    } else if fluents[n - 1].function == function && fluents[n - 1].args == args {
        Some(fluents[n - 1].value)
    } else {
        fluent_value(fluents, function, args, n - 1)
    }
}

/// Whether two lists of fluents are the same mapping: they give every
/// function applied to arguments the same value, or both none, in whatever
/// order they list them.
pub open spec fn same_mapping(a: Seq<FluentView>, b: Seq<FluentView>) -> bool {
    forall|function: Seq<char>, args: Seq<Seq<char>>| #[trigger]
        fluent_value(a, function, args, a.len() as int) == fluent_value(
            b,
            function,
            args,
            b.len() as int,
        )
}

/// Whether two states are equal: the same bits, and the same mapping of
/// fluents to values.
pub open spec fn states_equal(a: StateView, b: StateView) -> bool {
    a.facts == b.facts && same_mapping(a.numeric_values, b.numeric_values)
}

/// Whether every fluent among the first `n` of `a` has in `b` the value it
/// has in `a`.
pub open spec fn covered(a: Seq<FluentView>, b: Seq<FluentView>, n: int) -> bool {
    forall|k: int|
        0 <= k < n ==> fluent_value(a, (#[trigger] a[k]).function, a[k].args, a.len() as int)
            == fluent_value(b, a[k].function, a[k].args, b.len() as int)
}

/// A function applied to arguments has no value exactly where no fluent is
/// about it.
pub proof fn lemma_fluent_value_none(
    fluents: Seq<FluentView>,
    function: Seq<char>,
    args: Seq<Seq<char>>,
    n: int,
)
    requires
        0 <= n <= fluents.len(),
    ensures
        fluent_value(fluents, function, args, n) is None <==> forall|k: int|
            0 <= k < n ==> !((#[trigger] fluents[k]).function == function && fluents[k].args
                == args),
    decreases n,
{
    if n > 0 {
        lemma_fluent_value_none(fluents, function, args, n - 1);
        if fluents[n - 1].function == function && fluents[n - 1].args == args {
            assert(!(forall|k: int|
                0 <= k < n ==> !((#[trigger] fluents[k]).function == function && fluents[k].args
                    == args)));
        }
    }
}

/// Two lists of fluents are the same mapping where each covers the other.
pub proof fn lemma_same_mapping(a: Seq<FluentView>, b: Seq<FluentView>)
    ensures
        same_mapping(a, b) <==> covered(a, b, a.len() as int) && covered(b, a, b.len() as int),
{
    if covered(a, b, a.len() as int) && covered(b, a, b.len() as int) {
        assert forall|function: Seq<char>, args: Seq<Seq<char>>| #[trigger]
            fluent_value(a, function, args, a.len() as int) == fluent_value(
                b,
                function,
                args,
                b.len() as int,
            ) by {
            lemma_fluent_value_none(a, function, args, a.len() as int);
            lemma_fluent_value_none(b, function, args, b.len() as int);
            if fluent_value(a, function, args, a.len() as int) is Some {
                let k = choose|k: int|
                    0 <= k < a.len() && (#[trigger] a[k]).function == function && a[k].args == args;
                assert(fluent_value(a, a[k].function, a[k].args, a.len() as int) == fluent_value(
                    b,
                    a[k].function,
                    a[k].args,
                    b.len() as int,
                ));
            } else if fluent_value(b, function, args, b.len() as int) is Some {
                let k = choose|k: int|
                    0 <= k < b.len() && (#[trigger] b[k]).function == function && b[k].args == args;
                assert(fluent_value(b, b[k].function, b[k].args, b.len() as int) == fluent_value(
                    a,
                    b[k].function,
                    b[k].args,
                    a.len() as int,
                ));
            }
        }
    }
    if same_mapping(a, b) {
        assert forall|k: int| 0 <= k < a.len() implies fluent_value(
            a,
            (#[trigger] a[k]).function,
            a[k].args,
            a.len() as int,
        ) == fluent_value(b, a[k].function, a[k].args, b.len() as int) by {}
        assert forall|k: int| 0 <= k < b.len() implies fluent_value(
            b,
            (#[trigger] b[k]).function,
            b[k].args,
            b.len() as int,
        ) == fluent_value(a, b[k].function, b[k].args, a.len() as int) by {
            assert(fluent_value(a, b[k].function, b[k].args, a.len() as int) == fluent_value(
                b,
                b[k].function,
                b[k].args,
                b.len() as int,
            ));
        }
    }
}

/// The value that a list of fluents gives to the function and arguments of
/// `key`.
fn value_in(fluents: &Vec<NumericFluent>, key: &NumericFluent) -> (r: Option<i64>)
    ensures
        match fluent_value(view_all(fluents@), key@.function, key@.args, fluents.len() as int) {
            Some(v) => r == Some(v as i64) && r->0 == v,
            None => r is None,
        },
{
    let mut found: Option<i64> = None;
    let mut i: usize = 0;
    while i < fluents.len()
        invariant
            i <= fluents.len(),
            match fluent_value(view_all(fluents@), key@.function, key@.args, i as int) {
                Some(v) => found is Some && found->0 == v,
                None => found is None,
            },
        decreases fluents.len() - i,
    {
        let x = &fluents[i];
        assert(view_all(fluents@)[i as int] == x@);
        if x.function == key.function && same_names(&x.args, &key.args) {
            found = Some(x.value);
        }
        i = i + 1;
    }
    found
}

fn covers(a: &Vec<NumericFluent>, b: &Vec<NumericFluent>) -> (r: bool)
    ensures
        r == covered(view_all(a@), view_all(b@), a.len() as int),
{
    let mut i: usize = 0;
    while i < a.len()
        invariant
            i <= a.len(),
            covered(view_all(a@), view_all(b@), i as int),
        decreases a.len() - i,
    {
        assert(view_all(a@)[i as int] == a@[i as int]@);
        let own = value_in(a, &a[i]);
        let other = value_in(b, &a[i]);
        let same = match (own, other) {
            (Some(x), Some(y)) => x == y,
            (None, None) => true,
            _ => false,
        };
        if !same {
            return false;
        }
        i = i + 1;
    }
    true
}

impl State {
    /// Whether two states are equal: the same bits, and the same mapping of
    /// numeric fluents to values, in whatever order the fluents are listed.
    pub fn equals(&self, other: &State) -> (r: bool)
        ensures
            r == states_equal(self@, other@),
    {
        proof {
            lemma_same_mapping(view_all(self.numeric_values@), view_all(other.numeric_values@));
        }
        same_bits(&self.facts, &other.facts) && covers(&self.numeric_values, &other.numeric_values)
            && covers(&other.numeric_values, &self.numeric_values)
    }
}

/// A set of facts of which at most one may hold.
#[derive(Debug)]
pub struct MutexGroup {
    pub facts: Vec<usize>,
}

impl View for MutexGroup {
    type V = Seq<usize>;

    open spec fn view(&self) -> Seq<usize> {
        self.facts@
    }
}

/// A compiled planning task.
#[derive(Debug)]
pub struct TemporalTask {
    pub domain_name: String,
    pub requirements: Vec<String>,
    pub types: Vec<String>,
    pub predicates: Vec<PDDLPredicate>,
    pub objects: Vec<PDDLParameter>,
    pub actions: Vec<TemporalAction>,
    /// The ground fact table: the atom at place `i` is bit `i` of a state.
    pub facts: Vec<Fact>,
    pub initial_state: State,
    pub goal_conditions: Vec<Condition>,
    pub mutex_groups: Vec<MutexGroup>,
    pub warnings: Vec<Warning>,
}

pub struct TaskView {
    pub domain_name: Seq<char>,
    pub requirements: Seq<Seq<char>>,
    pub types: Seq<Seq<char>>,
    pub predicates: Seq<PredicateView>,
    pub objects: Seq<ParameterView>,
    pub actions: Seq<ActionView>,
    pub facts: Seq<GroundAtom>,
    pub initial_state: StateView,
    pub goal_conditions: Seq<Literal>,
    pub mutex_groups: Seq<Seq<usize>>,
    pub warnings: Seq<WarningView>,
}

impl View for TemporalTask {
    type V = TaskView;

    open spec fn view(&self) -> TaskView {
        TaskView {
            domain_name: self.domain_name@,
            requirements: names_view(self.requirements@),
            types: names_view(self.types@),
            predicates: view_all(self.predicates@),
            objects: view_all(self.objects@),
            actions: view_all(self.actions@),
            facts: view_all(self.facts@),
            initial_state: self.initial_state@,
            goal_conditions: conditions_view(self.goal_conditions@),
            mutex_groups: view_all(self.mutex_groups@),
            warnings: view_all(self.warnings@),
        }
    }
}

/// The point of an action's run that a condition or an effect belongs to.
#[derive(Clone, Copy, Debug, PartialEq, Eq, Structural)]
pub enum Phase {
    Start,
    OverAll,
    End,
}

/// The conditions a formula lists, in reading order, whatever temporal
/// operators stand around them.
///
/// A disjunction is read as the conjunction of its parts: a state that meets
/// every part meets the disjunction, so a plan found under this reading is a
/// plan under the other. A negation contributes only when it negates a
/// predicate. Duration constraints are no conditions.
pub open spec fn condition_literals(f: Formula) -> Seq<Literal>
    decreases f, 0nat,
{
    match f {
        Formula::Predicate { name, args, negated } => seq![
            Literal { predicate: name, args, negated },
        ],
        Formula::And(parts) => conditions_of_parts(parts, parts.len() as int),
        Formula::Or(parts) => conditions_of_parts(parts, parts.len() as int),
        Formula::Not(inner) => match *inner {
            Formula::Predicate { name, args, negated } => seq![
                Literal { predicate: name, args, negated: true },
            ],
            _ => Seq::empty(),
        },
        Formula::AtStart(inner) => condition_literals(*inner),
        Formula::AtEnd(inner) => condition_literals(*inner),
        Formula::OverAll(inner) => condition_literals(*inner),
        Formula::DurationConstraint { .. } => Seq::empty(),
    }
}

/// The conditions that the first `n` parts list.
pub open spec fn conditions_of_parts(parts: Seq<Formula>, n: int) -> Seq<Literal>
    decreases parts, n,
{
    if n <= 0 || n > parts.len() {
        Seq::empty()
    } else {
        conditions_of_parts(parts, n - 1) + condition_literals(parts[n - 1])
    }
}

/// The effects a formula lists, in reading order. A disjunction and an
/// `over all` contribute nothing.
pub open spec fn effect_literals(f: Formula) -> Seq<Literal>
    decreases f, 0nat,
{
    match f {
        Formula::Predicate { name, args, negated } => seq![
            Literal { predicate: name, args, negated },
        ],
        Formula::And(parts) => effects_of_parts(parts, parts.len() as int),
        Formula::Not(inner) => match *inner {
            Formula::Predicate { name, args, negated } => seq![
                Literal { predicate: name, args, negated: true },
            ],
            _ => Seq::empty(),
        },
        Formula::AtStart(inner) => effect_literals(*inner),
        Formula::AtEnd(inner) => effect_literals(*inner),
        _ => Seq::empty(),
    }
}

/// The effects that the first `n` parts list.
pub open spec fn effects_of_parts(parts: Seq<Formula>, n: int) -> Seq<Literal>
    decreases parts, n,
{
    if n <= 0 || n > parts.len() {
        Seq::empty()
    } else {
        effects_of_parts(parts, n - 1) + effect_literals(parts[n - 1])
    }
}

/// The conditions of a durative action's formula that belong to one phase.
/// The outermost temporal operator decides; a conjunction hands each part on;
/// anything without an operator belongs to the start.
pub open spec fn phase_conditions(f: Formula, phase: Phase) -> Seq<Literal>
    decreases f, 0nat,
{
    match f {
        Formula::AtStart(inner) => if phase == Phase::Start {
            condition_literals(*inner)
        } else {
            Seq::empty()
        },
        Formula::OverAll(inner) => if phase == Phase::OverAll {
            condition_literals(*inner)
        } else {
            Seq::empty()
        },
        Formula::AtEnd(inner) => if phase == Phase::End {
            condition_literals(*inner)
        } else {
            Seq::empty()
        },
        Formula::And(parts) => phase_conditions_of_parts(parts, parts.len() as int, phase),
        _ => if phase == Phase::Start {
            condition_literals(f)
        } else {
            Seq::empty()
        },
    }
}

pub open spec fn phase_conditions_of_parts(parts: Seq<Formula>, n: int, phase: Phase) -> Seq<
    Literal,
>
    decreases parts, n,
{
    if n <= 0 || n > parts.len() {
        Seq::empty()
    } else {
        phase_conditions_of_parts(parts, n - 1, phase) + phase_conditions(parts[n - 1], phase)
    }
}

/// The effects of a durative action's formula that belong to one phase.
/// Anything without an operator belongs to the end; no effect belongs to the
/// run in between.
pub open spec fn phase_effects(f: Formula, phase: Phase) -> Seq<Literal>
    decreases f, 0nat,
{
    match f {
        Formula::AtStart(inner) => if phase == Phase::Start {
            effect_literals(*inner)
        } else {
            Seq::empty()
        },
        Formula::AtEnd(inner) => if phase == Phase::End {
            effect_literals(*inner)
        } else {
            Seq::empty()
        },
        Formula::And(parts) => phase_effects_of_parts(parts, parts.len() as int, phase),
        _ => if phase == Phase::End {
            effect_literals(f)
        } else {
            Seq::empty()
        },
    }
}

pub open spec fn phase_effects_of_parts(parts: Seq<Formula>, n: int, phase: Phase) -> Seq<Literal>
    decreases parts, n,
{
    if n <= 0 || n > parts.len() {
        Seq::empty()
    } else {
        phase_effects_of_parts(parts, n - 1, phase) + phase_effects(parts[n - 1], phase)
    }
}

/// Appends the conditions that the parts of a conjunction or a disjunction
/// list.
fn collect_conditions_of_parts(parts: &Vec<PDDLFormula>, conditions: &mut Vec<Condition>)
    ensures
        conditions_view(final(conditions)@) == conditions_view(old(conditions)@)
            + conditions_of_parts(formulas_view(parts@), parts.len() as int),
    decreases parts, 1nat,
{
    let ghost before = conditions_view(conditions@);
    let ghost views = formulas_view(parts@);
    let mut i: usize = 0;
    proof {
        assert(before + conditions_of_parts(views, 0) =~= before);
    }
    while i < parts.len()
        invariant
            i <= parts.len(),
            views == formulas_view(parts@),
            conditions_view(conditions@) == before + conditions_of_parts(views, i as int),
        decreases parts.len() - i,
    {
        let ghost so_far = conditions_view(conditions@);
        collect_conditions_recursive(&parts[i], conditions);
        proof {
            assert(views[i as int] == parts@[i as int]@);
            assert(so_far + condition_literals(views[i as int]) =~= before + conditions_of_parts(
                views,
                i + 1,
            ));
        }
        i = i + 1;
    }
}

/// Appends the conditions a formula lists.
pub fn collect_conditions_recursive(formula: &PDDLFormula, conditions: &mut Vec<Condition>)
    ensures
        conditions_view(final(conditions)@) == conditions_view(old(conditions)@)
            + condition_literals(formula@),
    decreases formula, 0nat,
{
    let ghost before = conditions_view(conditions@);
    proof {
        reveal_with_fuel(formula_view, 2);
    }
    match formula {
        PDDLFormula::Predicate { name, args, negated } => {
            let c = Condition {
                predicate: name.clone(),
                args: copy_names(args),
                is_negative: *negated,
            };
            proof {
                lemma_conditions_view_push(conditions@, c);
                assert(condition_literals(formula@) == seq![c@]);
            }
            conditions.push(c);
        },
        PDDLFormula::And(parts) => {
            proof {
                lemma_and_view(*parts);
            }
            collect_conditions_of_parts(parts, conditions);
        },
        PDDLFormula::Or(parts) => {
            proof {
                lemma_or_view(*parts);
            }
            collect_conditions_of_parts(parts, conditions);
        },
        PDDLFormula::Not(inner) => {
            match &**inner {
                PDDLFormula::Predicate { name, args, .. } => {
                    let c = Condition {
                        predicate: name.clone(),
                        args: copy_names(args),
                        is_negative: true,
                    };
                    proof {
                        lemma_conditions_view_push(conditions@, c);
                        assert(condition_literals(formula@) == seq![c@]);
                    }
                    conditions.push(c);
                },
                _ => {
                    proof {
                        assert(before + Seq::<Literal>::empty() =~= before);
                    }
                },
            }
        },
        PDDLFormula::AtStart(inner) => {
            collect_conditions_recursive(inner, conditions);
        },
        PDDLFormula::AtEnd(inner) => {
            collect_conditions_recursive(inner, conditions);
        },
        PDDLFormula::OverAll(inner) => {
            collect_conditions_recursive(inner, conditions);
        },
        PDDLFormula::DurationConstraint { .. } => {
            proof {
                assert(before + Seq::<Literal>::empty() =~= before);
            }
        },
    }
}

/// Appends the effects that the parts of a conjunction list.
fn collect_effects_of_parts(parts: &Vec<PDDLFormula>, effects: &mut Vec<Effect>)
    ensures
        effects_view(final(effects)@) == effects_view(old(effects)@) + effects_of_parts(
            formulas_view(parts@),
            parts.len() as int,
        ),
    decreases parts, 1nat,
{
    let ghost before = effects_view(effects@);
    let ghost views = formulas_view(parts@);
    let mut i: usize = 0;
    proof {
        assert(before + effects_of_parts(views, 0) =~= before);
    }
    while i < parts.len()
        invariant
            i <= parts.len(),
            views == formulas_view(parts@),
            effects_view(effects@) == before + effects_of_parts(views, i as int),
        decreases parts.len() - i,
    {
        let ghost so_far = effects_view(effects@);
        collect_effects_recursive(&parts[i], effects);
        proof {
            assert(views[i as int] == parts@[i as int]@);
            assert(so_far + effect_literals(views[i as int]) =~= before + effects_of_parts(
                views,
                i + 1,
            ));
        }
        i = i + 1;
    }
}

/// Appends the effects a formula lists.
pub fn collect_effects_recursive(formula: &PDDLFormula, effects: &mut Vec<Effect>)
    ensures
        effects_view(final(effects)@) == effects_view(old(effects)@) + effect_literals(formula@),
    decreases formula, 0nat,
{
    let ghost before = effects_view(effects@);
    proof {
        reveal_with_fuel(formula_view, 2);
    }
    match formula {
        PDDLFormula::Predicate { name, args, negated } => {
            let e = Effect { predicate: name.clone(), args: copy_names(args), is_delete: *negated };
            proof {
                lemma_effects_view_push(effects@, e);
                assert(effect_literals(formula@) == seq![e@]);
            }
            effects.push(e);
        },
        PDDLFormula::And(parts) => {
            proof {
                lemma_and_view(*parts);
            }
            collect_effects_of_parts(parts, effects);
        },
        PDDLFormula::Not(inner) => {
            match &**inner {
                PDDLFormula::Predicate { name, args, .. } => {
                    let e = Effect {
                        predicate: name.clone(),
                        args: copy_names(args),
                        is_delete: true,
                    };
                    proof {
                        lemma_effects_view_push(effects@, e);
                        assert(effect_literals(formula@) == seq![e@]);
                    }
                    effects.push(e);
                },
                _ => {
                    proof {
                        assert(before + Seq::<Literal>::empty() =~= before);
                    }
                },
            }
        },
        PDDLFormula::AtStart(inner) => {
            collect_effects_recursive(inner, effects);
        },
        PDDLFormula::AtEnd(inner) => {
            collect_effects_recursive(inner, effects);
        },
        _ => {
            proof {
                assert(before + Seq::<Literal>::empty() =~= before);
            }
        },
    }
}

/// The conditions a formula lists.
pub fn extract_conditions_from_formula(formula: &PDDLFormula) -> (conditions: Vec<Condition>)
    ensures
        conditions_view(conditions@) == condition_literals(formula@),
{
    let mut conditions: Vec<Condition> = Vec::new();
    collect_conditions_recursive(formula, &mut conditions);
    proof {
        assert(Seq::<Literal>::empty() + condition_literals(formula@) =~= condition_literals(
            formula@,
        ));
        assert(conditions_view(Seq::<Condition>::empty()) =~= Seq::<Literal>::empty());
    }
    conditions
}

/// The effects a formula lists.
pub fn extract_effects_from_formula(formula: &PDDLFormula) -> (effects: Vec<Effect>)
    ensures
        effects_view(effects@) == effect_literals(formula@),
{
    let mut effects: Vec<Effect> = Vec::new();
    collect_effects_recursive(formula, &mut effects);
    proof {
        assert(Seq::<Literal>::empty() + effect_literals(formula@) =~= effect_literals(formula@));
        assert(effects_view(Seq::<Effect>::empty()) =~= Seq::<Literal>::empty());
    }
    effects
}

/// Appends the conditions of each phase that the parts of a conjunction list.
fn collect_temporal_conditions_of_parts(
    parts: &Vec<PDDLFormula>,
    conditions_start: &mut Vec<Condition>,
    conditions_over_all: &mut Vec<Condition>,
    conditions_end: &mut Vec<Condition>,
)
    ensures
        conditions_view(final(conditions_start)@) == conditions_view(old(conditions_start)@)
            + phase_conditions_of_parts(formulas_view(parts@), parts.len() as int, Phase::Start),
        conditions_view(final(conditions_over_all)@) == conditions_view(old(conditions_over_all)@)
            + phase_conditions_of_parts(formulas_view(parts@), parts.len() as int, Phase::OverAll),
        conditions_view(final(conditions_end)@) == conditions_view(old(conditions_end)@)
            + phase_conditions_of_parts(formulas_view(parts@), parts.len() as int, Phase::End),
    decreases parts, 1nat,
{
    let ghost before_start = conditions_view(conditions_start@);
    let ghost before_over_all = conditions_view(conditions_over_all@);
    let ghost before_end = conditions_view(conditions_end@);
    let ghost views = formulas_view(parts@);
    let mut i: usize = 0;
    proof {
        assert(before_start + phase_conditions_of_parts(views, 0, Phase::Start) =~= before_start);
        assert(before_over_all + phase_conditions_of_parts(views, 0, Phase::OverAll)
            =~= before_over_all);
        assert(before_end + phase_conditions_of_parts(views, 0, Phase::End) =~= before_end);
    }
    while i < parts.len()
        invariant
            i <= parts.len(),
            views == formulas_view(parts@),
            conditions_view(conditions_start@) == before_start + phase_conditions_of_parts(
                views,
                i as int,
                Phase::Start,
            ),
            conditions_view(conditions_over_all@) == before_over_all + phase_conditions_of_parts(
                views,
                i as int,
                Phase::OverAll,
            ),
            conditions_view(conditions_end@) == before_end + phase_conditions_of_parts(
                views,
                i as int,
                Phase::End,
            ),
        decreases parts.len() - i,
    {
        let ghost start_so_far = conditions_view(conditions_start@);
        let ghost over_all_so_far = conditions_view(conditions_over_all@);
        let ghost end_so_far = conditions_view(conditions_end@);
        collect_temporal_conditions_recursive(
            &parts[i],
            conditions_start,
            conditions_over_all,
            conditions_end,
        );
        proof {
            assert(views[i as int] == parts@[i as int]@);
            assert(start_so_far + phase_conditions(views[i as int], Phase::Start) =~= before_start
                + phase_conditions_of_parts(views, i + 1, Phase::Start));
            assert(over_all_so_far + phase_conditions(views[i as int], Phase::OverAll)
                =~= before_over_all + phase_conditions_of_parts(views, i + 1, Phase::OverAll));
            assert(end_so_far + phase_conditions(views[i as int], Phase::End) =~= before_end
                + phase_conditions_of_parts(views, i + 1, Phase::End));
        }
        i = i + 1;
    }
}

/// Appends the conditions of a durative action's formula to the group of the
/// phase each belongs to.
pub fn collect_temporal_conditions_recursive(
    formula: &PDDLFormula,
    conditions_start: &mut Vec<Condition>,
    conditions_over_all: &mut Vec<Condition>,
    conditions_end: &mut Vec<Condition>,
)
    ensures
        conditions_view(final(conditions_start)@) == conditions_view(old(conditions_start)@)
            + phase_conditions(formula@, Phase::Start),
        conditions_view(final(conditions_over_all)@) == conditions_view(old(conditions_over_all)@)
            + phase_conditions(formula@, Phase::OverAll),
        conditions_view(final(conditions_end)@) == conditions_view(old(conditions_end)@)
            + phase_conditions(formula@, Phase::End),
    decreases formula, 0nat,
{
    let ghost before_start = conditions_view(conditions_start@);
    let ghost before_over_all = conditions_view(conditions_over_all@);
    let ghost before_end = conditions_view(conditions_end@);
    proof {
        assert(before_start + Seq::<Literal>::empty() =~= before_start);
        assert(before_over_all + Seq::<Literal>::empty() =~= before_over_all);
        assert(before_end + Seq::<Literal>::empty() =~= before_end);
    }
    match formula {
        PDDLFormula::AtStart(inner) => {
            collect_conditions_recursive(inner, conditions_start);
        },
        PDDLFormula::OverAll(inner) => {
            collect_conditions_recursive(inner, conditions_over_all);
        },
        PDDLFormula::AtEnd(inner) => {
            collect_conditions_recursive(inner, conditions_end);
        },
        PDDLFormula::And(parts) => {
            proof {
                lemma_and_view(*parts);
            }
            collect_temporal_conditions_of_parts(
                parts,
                conditions_start,
                conditions_over_all,
                conditions_end,
            );
        },
        _ => {
            collect_conditions_recursive(formula, conditions_start);
        },
    }
}

/// Appends the effects of each phase that the parts of a conjunction list.
fn collect_temporal_effects_of_parts(
    parts: &Vec<PDDLFormula>,
    effects_start: &mut Vec<Effect>,
    effects_end: &mut Vec<Effect>,
)
    ensures
        effects_view(final(effects_start)@) == effects_view(old(effects_start)@)
            + phase_effects_of_parts(formulas_view(parts@), parts.len() as int, Phase::Start),
        effects_view(final(effects_end)@) == effects_view(old(effects_end)@)
            + phase_effects_of_parts(formulas_view(parts@), parts.len() as int, Phase::End),
    decreases parts, 1nat,
{
    let ghost before_start = effects_view(effects_start@);
    let ghost before_end = effects_view(effects_end@);
    let ghost views = formulas_view(parts@);
    let mut i: usize = 0;
    proof {
        assert(before_start + phase_effects_of_parts(views, 0, Phase::Start) =~= before_start);
        assert(before_end + phase_effects_of_parts(views, 0, Phase::End) =~= before_end);
    }
    while i < parts.len()
        invariant
            i <= parts.len(),
            views == formulas_view(parts@),
            effects_view(effects_start@) == before_start + phase_effects_of_parts(
                views,
                i as int,
                Phase::Start,
            ),
            effects_view(effects_end@) == before_end + phase_effects_of_parts(
                views,
                i as int,
                Phase::End,
            ),
        decreases parts.len() - i,
    {
        let ghost start_so_far = effects_view(effects_start@);
        let ghost end_so_far = effects_view(effects_end@);
        collect_temporal_effects_recursive(&parts[i], effects_start, effects_end);
        proof {
            assert(views[i as int] == parts@[i as int]@);
            assert(start_so_far + phase_effects(views[i as int], Phase::Start) =~= before_start
                + phase_effects_of_parts(views, i + 1, Phase::Start));
            assert(end_so_far + phase_effects(views[i as int], Phase::End) =~= before_end
                + phase_effects_of_parts(views, i + 1, Phase::End));
        }
        i = i + 1;
    }
}

/// Appends the effects of a durative action's formula to the group of the
/// phase each belongs to.
pub fn collect_temporal_effects_recursive(
    formula: &PDDLFormula,
    effects_start: &mut Vec<Effect>,
    effects_end: &mut Vec<Effect>,
)
    ensures
        effects_view(final(effects_start)@) == effects_view(old(effects_start)@) + phase_effects(
            formula@,
            Phase::Start,
        ),
        effects_view(final(effects_end)@) == effects_view(old(effects_end)@) + phase_effects(
            formula@,
            Phase::End,
        ),
    decreases formula, 0nat,
{
    let ghost before_start = effects_view(effects_start@);
    let ghost before_end = effects_view(effects_end@);
    proof {
        assert(before_start + Seq::<Literal>::empty() =~= before_start);
        assert(before_end + Seq::<Literal>::empty() =~= before_end);
    }
    match formula {
        PDDLFormula::AtStart(inner) => {
            collect_effects_recursive(inner, effects_start);
        },
        PDDLFormula::AtEnd(inner) => {
            collect_effects_recursive(inner, effects_end);
        },
        PDDLFormula::And(parts) => {
            proof {
                lemma_and_view(*parts);
            }
            collect_temporal_effects_of_parts(parts, effects_start, effects_end);
        },
        _ => {
            collect_effects_recursive(formula, effects_end);
        },
    }
}

/// The conditions of a durative action's formula, by phase: start, over all,
/// end.
pub fn extract_temporal_conditions(formula: &PDDLFormula) -> (groups: (
    Vec<Condition>,
    Vec<Condition>,
    Vec<Condition>,
))
    ensures
        conditions_view(groups.0@) == phase_conditions(formula@, Phase::Start),
        conditions_view(groups.1@) == phase_conditions(formula@, Phase::OverAll),
        conditions_view(groups.2@) == phase_conditions(formula@, Phase::End),
{
    let mut conditions_start: Vec<Condition> = Vec::new();
    let mut conditions_over_all: Vec<Condition> = Vec::new();
    let mut conditions_end: Vec<Condition> = Vec::new();
    collect_temporal_conditions_recursive(
        formula,
        &mut conditions_start,
        &mut conditions_over_all,
        &mut conditions_end,
    );
    proof {
        assert(conditions_view(Seq::<Condition>::empty()) =~= Seq::<Literal>::empty());
        assert(Seq::<Literal>::empty() + phase_conditions(formula@, Phase::Start)
            =~= phase_conditions(formula@, Phase::Start));
        assert(Seq::<Literal>::empty() + phase_conditions(formula@, Phase::OverAll)
            =~= phase_conditions(formula@, Phase::OverAll));
        assert(Seq::<Literal>::empty() + phase_conditions(formula@, Phase::End)
            =~= phase_conditions(formula@, Phase::End));
    }
    (conditions_start, conditions_over_all, conditions_end)
}

/// The effects of a durative action's formula, by phase: start, end.
pub fn extract_temporal_effects(formula: &PDDLFormula) -> (groups: (Vec<Effect>, Vec<Effect>))
    ensures
        effects_view(groups.0@) == phase_effects(formula@, Phase::Start),
        effects_view(groups.1@) == phase_effects(formula@, Phase::End),
{
    let mut effects_start: Vec<Effect> = Vec::new();
    let mut effects_end: Vec<Effect> = Vec::new();
    collect_temporal_effects_recursive(formula, &mut effects_start, &mut effects_end);
    proof {
        assert(effects_view(Seq::<Effect>::empty()) =~= Seq::<Literal>::empty());
        assert(Seq::<Literal>::empty() + phase_effects(formula@, Phase::Start) =~= phase_effects(
            formula@,
            Phase::Start,
        ));
        assert(Seq::<Literal>::empty() + phase_effects(formula@, Phase::End) =~= phase_effects(
            formula@,
            Phase::End,
        ));
    }
    (effects_start, effects_end)
}

/// Every condition of a formula belongs to exactly one phase: the three
/// groups together hold each condition the formula lists as often as the
/// formula lists it, and nothing else.
pub proof fn lemma_conditions_partitioned(f: Formula)
    ensures
        phase_conditions(f, Phase::Start).to_multiset().add(
            phase_conditions(f, Phase::OverAll).to_multiset(),
        ).add(phase_conditions(f, Phase::End).to_multiset()) =~= condition_literals(
            f,
        ).to_multiset(),
    decreases f, 0nat,
{
    let none = Seq::<Literal>::empty();
    assert(none.to_multiset() =~= Multiset::<Literal>::empty()) by {
        none.to_multiset_ensures();
    }
    match f {
        Formula::And(parts) => {
            lemma_conditions_of_parts_partitioned(parts, parts.len() as int);
        },
        _ => {},
    }
}

pub proof fn lemma_conditions_of_parts_partitioned(parts: Seq<Formula>, n: int)
    requires
        0 <= n <= parts.len(),
    ensures
        phase_conditions_of_parts(parts, n, Phase::Start).to_multiset().add(
            phase_conditions_of_parts(parts, n, Phase::OverAll).to_multiset(),
        ).add(phase_conditions_of_parts(parts, n, Phase::End).to_multiset())
            =~= conditions_of_parts(parts, n).to_multiset(),
    decreases parts, n,
{
    let none = Seq::<Literal>::empty();
    assert(none.to_multiset() =~= Multiset::<Literal>::empty()) by {
        none.to_multiset_ensures();
    }
    if n > 0 {
        lemma_conditions_of_parts_partitioned(parts, n - 1);
        lemma_conditions_partitioned(parts[n - 1]);
        vstd::seq_lib::lemma_multiset_commutative(
            phase_conditions_of_parts(parts, n - 1, Phase::Start),
            phase_conditions(parts[n - 1], Phase::Start),
        );
        vstd::seq_lib::lemma_multiset_commutative(
            phase_conditions_of_parts(parts, n - 1, Phase::OverAll),
            phase_conditions(parts[n - 1], Phase::OverAll),
        );
        vstd::seq_lib::lemma_multiset_commutative(
            phase_conditions_of_parts(parts, n - 1, Phase::End),
            phase_conditions(parts[n - 1], Phase::End),
        );
        vstd::seq_lib::lemma_multiset_commutative(
            conditions_of_parts(parts, n - 1),
            condition_literals(parts[n - 1]),
        );
    }
}

/// Every effect of a formula belongs to exactly one phase: the two groups
/// together hold each effect the formula lists as often as the formula lists
/// it, and nothing else.
pub proof fn lemma_effects_partitioned(f: Formula)
    ensures
        phase_effects(f, Phase::Start).to_multiset().add(
            phase_effects(f, Phase::End).to_multiset(),
        ) =~= effect_literals(f).to_multiset(),
        phase_effects(f, Phase::OverAll) =~= Seq::<Literal>::empty(),
    decreases f, 0nat,
{
    let none = Seq::<Literal>::empty();
    assert(none.to_multiset() =~= Multiset::<Literal>::empty()) by {
        none.to_multiset_ensures();
    }
    match f {
        Formula::And(parts) => {
            lemma_effects_of_parts_partitioned(parts, parts.len() as int);
        },
        _ => {},
    }
}

pub proof fn lemma_effects_of_parts_partitioned(parts: Seq<Formula>, n: int)
    requires
        0 <= n <= parts.len(),
    ensures
        phase_effects_of_parts(parts, n, Phase::Start).to_multiset().add(
            phase_effects_of_parts(parts, n, Phase::End).to_multiset(),
        ) =~= effects_of_parts(parts, n).to_multiset(),
        phase_effects_of_parts(parts, n, Phase::OverAll) =~= Seq::<Literal>::empty(),
    decreases parts, n,
{
    let none = Seq::<Literal>::empty();
    assert(none.to_multiset() =~= Multiset::<Literal>::empty()) by {
        none.to_multiset_ensures();
    }
    if n > 0 {
        lemma_effects_of_parts_partitioned(parts, n - 1);
        lemma_effects_partitioned(parts[n - 1]);
        vstd::seq_lib::lemma_multiset_commutative(
            phase_effects_of_parts(parts, n - 1, Phase::Start),
            phase_effects(parts[n - 1], Phase::Start),
        );
        vstd::seq_lib::lemma_multiset_commutative(
            phase_effects_of_parts(parts, n - 1, Phase::End),
            phase_effects(parts[n - 1], Phase::End),
        );
        vstd::seq_lib::lemma_multiset_commutative(
            effects_of_parts(parts, n - 1),
            effect_literals(parts[n - 1]),
        );
    }
}

} // verus!
