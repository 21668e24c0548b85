use temporal_planner::actions::{convert_pddl_actions, find_predicate_index};
use temporal_planner::domain::{parse_parameters, parse_pddl_domain, PDDLAction, PDDLDuration};
use temporal_planner::error::ErrorKind;
use temporal_planner::problem::parse_pddl_problem;
use temporal_planner::sexpr::{read_expressions, SExpr};
use temporal_planner::temporal_task::TemporalTask;
use temporal_planner::TemporalPlanner;

const DOMAIN: &str = "
; a small domain
(define (domain Depot)
  (:requirements :strips :typing :durative-actions :numeric-fluents)
  (:types place crate - object)
  (:predicates (at ?c - crate ?p - place) (clear ?p - place) (done))
  (:action tidy
    :parameters ()
    :precondition (and (clear dock) (not (done)))
    :effect (and (done) (not (clear dock))))
  (:durative-action wait
    :parameters ()
    :duration (= ?duration 2.5)
    :condition (over all (clear dock))
    :effect (at end (done)))
  (:durative-action guess
    :parameters ()
    :duration (= ?duration (* 2 (load)))
    :condition (at start (done))
    :effect (at end (clear yard))))
";

const PROBLEM: &str = "
(define (problem depot-one)
  (:domain depot)
  (:objects c1 c2 - crate dock yard - place spare)
  (:init (clear dock) (at c1 dock) (= (load) 4.25) (= (weight c1) -2) (CLEAR Dock))
  (:goal (and (done) (at c2 yard))))
";

fn error_of(domain: &str, problem: &str) -> (ErrorKind, Option<String>) {
    let e = TemporalTask::from_pddl(domain, problem).unwrap_err();
    (e.kind, e.token)
}

#[test]
fn domain_sections_are_read() {
    let domain = parse_pddl_domain(DOMAIN).unwrap();
    assert_eq!(domain.name, "Depot");
    assert_eq!(domain.requirements, vec![":strips", ":typing", ":durative-actions", ":numeric-fluents"]);
    assert_eq!(domain.types, vec!["place", "crate", "object"]);
    let predicates: Vec<(&str, usize)> =
        domain.predicates.iter().map(|p| (p.name.as_str(), p.parameters.len())).collect();
    assert_eq!(predicates, vec![("at", 2), ("clear", 1), ("done", 0)]);
    assert_eq!(domain.predicates[0].parameters[0].name, "?c");
    assert_eq!(domain.predicates[0].parameters[0].type_tag.as_deref(), Some("crate"));
    let actions: Vec<(&str, bool, Option<PDDLDuration>)> =
        domain.actions.iter().map(|a| (a.name.as_str(), a.is_durative, a.duration)).collect();
    assert_eq!(
        actions,
        vec![
            ("tidy", false, None),
            ("wait", true, Some(PDDLDuration::Fixed(2_500_000))),
            ("guess", true, Some(PDDLDuration::Unsupported)),
        ]
    );
}

#[test]
fn task_counts_one_action_for_each_block() {
    let task = TemporalTask::from_pddl(DOMAIN, PROBLEM).unwrap();
    assert_eq!(task.actions.len(), 3);
    assert_eq!(task.domain_name, "Depot");
}

#[test]
fn durations_are_kept_or_defaulted() {
    let task = TemporalTask::from_pddl(DOMAIN, PROBLEM).unwrap();
    let durations: Vec<u64> = task.actions.iter().map(|a| a.duration).collect();
    assert_eq!(durations, vec![1_000_000, 2_500_000, 1_000_000]);
    assert_eq!(task.warnings.len(), 1);
    assert_eq!(task.warnings[0].kind, ErrorKind::UnsupportedDurationExpression);
    assert_eq!(task.warnings[0].action, "guess");
    assert_eq!(task.warnings[0].action_index, 2);
}

#[test]
fn plain_action_has_start_conditions_and_end_effects() {
    let task = TemporalTask::from_pddl(DOMAIN, PROBLEM).unwrap();
    let tidy = &task.actions[0];
    assert_eq!(tidy.conditions_start.len(), 2);
    assert!(tidy.conditions_start[1].is_negative);
    assert!(tidy.conditions_over_all.is_empty());
    assert!(tidy.conditions_end.is_empty());
    assert!(tidy.effects_start.is_empty());
    assert_eq!(tidy.effects_end.len(), 2);
    assert!(tidy.effects_end[1].is_delete);
}

#[test]
fn facts_are_numbered_in_first_seen_order() {
    let task = TemporalTask::from_pddl(DOMAIN, PROBLEM).unwrap();
    let facts: Vec<String> =
        task.facts.iter().map(|f| format!("{}({})", f.predicate, f.args.join(","))).collect();
    assert_eq!(facts, vec!["clear(dock)", "at(c1,dock)", "done()", "at(c2,yard)", "clear(yard)"]);
    assert_eq!(task.initial_state.facts, vec![true, true, false, false, false]);
    assert_eq!(task.goal_conditions.len(), 2);
}

#[test]
fn numeric_fluents_are_stored() {
    let task = TemporalTask::from_pddl(DOMAIN, PROBLEM).unwrap();
    let fluents: Vec<(String, Vec<String>, i64)> = task
        .initial_state
        .numeric_values
        .iter()
        .map(|f| (f.function.clone(), f.args.clone(), f.value))
        .collect();
    assert_eq!(
        fluents,
        vec![
            ("load".to_string(), vec![], 4_250_000),
            ("weight".to_string(), vec!["c1".to_string()], -2_000_000),
        ]
    );
}

#[test]
fn objects_take_the_type_that_follows_them() {
    let task = TemporalTask::from_pddl(DOMAIN, PROBLEM).unwrap();
    let objects: Vec<(&str, Option<&str>)> =
        task.objects.iter().map(|o| (o.name.as_str(), o.type_tag.as_deref())).collect();
    assert_eq!(
        objects,
        vec![
            ("c1", Some("crate")),
            ("c2", Some("crate")),
            ("dock", Some("place")),
            ("yard", Some("place")),
            ("spare", None),
        ]
    );
    let odd = TemporalTask::from_pddl(
        "(define (domain d) (:types b))",
        "(define (problem p) (:objects a - - b c - (either x y) d))",
    )
    .unwrap();
    let objects: Vec<(&str, Option<&str>)> =
        odd.objects.iter().map(|o| (o.name.as_str(), o.type_tag.as_deref())).collect();
    assert_eq!(objects, vec![("a", Some("b")), ("c", None), ("d", None)]);
}

#[test]
fn parameters_are_typed_one_by_one() {
    let trees = read_expressions("(?a - t ?b ?c - u x - ?d)").unwrap();
    let items = match &trees[0] {
        SExpr::List(items) => items,
        SExpr::Atom(_) => panic!("no list"),
    };
    let parameters = parse_parameters(items, 0);
    let seen: Vec<(&str, Option<&str>)> =
        parameters.iter().map(|p| (p.name.as_str(), p.type_tag.as_deref())).collect();
    assert_eq!(seen, vec![("?a", Some("t")), ("?b", None), ("?c", Some("u")), ("?d", None)]);
}

#[test]
fn predicate_is_found_by_name_and_arity() {
    let domain = parse_pddl_domain(DOMAIN).unwrap();
    let find = |name: &str, arity: usize| {
        find_predicate_index(&domain.predicates, &name.to_string(), &vec!["x".to_string(); arity])
    };
    assert_eq!(find("clear", 1), Some(1));
    assert_eq!(find("CLEAR", 1), Some(1));
    assert_eq!(find("clear", 2), None);
    assert_eq!(find("missing", 0), None);
    assert_eq!(find("done", 0), Some(2));
}

#[test]
fn unsupported_requirement_is_named() {
    let domain = "(define (domain d) (:requirements :strips :preferences))";
    assert_eq!(
        error_of(domain, "(define (problem p))"),
        (ErrorKind::UnsupportedFeature, Some(":preferences".to_string()))
    );
}

#[test]
fn undeclared_predicate_is_named() {
    let domain = "(define (domain d) (:predicates (p)) (:action a :precondition (p) :effect (q)))";
    assert_eq!(
        error_of(domain, "(define (problem p))"),
        (ErrorKind::UnknownSymbol, Some("q".to_string()))
    );
    let domain = "(define (domain d) (:predicates (p ?x)))";
    assert_eq!(
        error_of(domain, "(define (problem p) (:init (p)))"),
        (ErrorKind::UnknownSymbol, Some("p".to_string()))
    );
    assert_eq!(
        error_of(domain, "(define (problem p) (:init (p a)) (:goal (r)))"),
        (ErrorKind::UnknownSymbol, Some("r".to_string()))
    );
}

#[test]
fn domain_faults_come_before_problem_faults() {
    let domain = "(define (domain d) (:requirements :adl))";
    assert_eq!(error_of(domain, "(((").0, ErrorKind::UnsupportedFeature);
    assert_eq!(error_of("(define (domain d))", "(((").0, ErrorKind::MalformedSyntax);
}

#[test]
fn text_must_be_one_define_form() {
    assert_eq!(error_of("", "(define (problem p))").0, ErrorKind::MalformedSyntax);
    assert_eq!(error_of("(domain d)", "(define (problem p))").0, ErrorKind::MalformedSyntax);
    assert_eq!(
        error_of("(define (domain d)) (define (domain e))", "(define (problem p))").0,
        ErrorKind::MalformedSyntax
    );
    assert_eq!(error_of("(define (domain d))", "p").0, ErrorKind::MalformedSyntax);
}

#[test]
fn malformed_sections() {
    let problem = "(define (problem p))";
    for domain in [
        "(define (domain d) (:predicates p))",
        "(define (domain d) (:predicates ((p))))",
        "(define (domain d) (:requirements (:strips)))",
        "(define (domain d) (:action))",
        "(define (domain d) (:action (a)))",
        "(define (domain d) (:action a :parameters x))",
        "(define (domain d) (:action a :precondition p))",
        "(define (domain d) (:predicates (p)) (:action a :effect (p (q))))",
    ] {
        assert_eq!(error_of(domain, problem).0, ErrorKind::MalformedSyntax, "{}", domain);
    }
    let domain = "(define (domain d) (:predicates (p ?x)))";
    for problem in [
        "(define (problem p) (:init p))",
        "(define (problem p) (:init (p (a))))",
        "(define (problem p) (:init (= (f) x)))",
        "(define (problem p) (:init (= (f))))",
        "(define (problem p) (:init (= ((f)) 1)))",
        "(define (problem p) (:goal))",
        "(define (problem p) (:goal (p a) (p b)))",
        "(define (problem p) (:goal p))",
        "(define (problem p) (:init ()))",
    ] {
        assert_eq!(error_of(domain, problem).0, ErrorKind::MalformedSyntax, "{}", problem);
    }
}

#[test]
fn unknown_sections_and_atoms_are_passed_over() {
    let domain = "(define (domain d) stray (:constants a b) (:functions (f)) (:predicates (p)))";
    let task =
        TemporalTask::from_pddl(domain, "(define (problem p) (:metric minimize (total-time)))").unwrap();
    assert_eq!(task.predicates.len(), 1);
    assert!(task.actions.is_empty());
    assert!(task.goal_conditions.is_empty());
    assert!(task.facts.is_empty());
}

#[test]
fn problem_is_read_against_the_predicates() {
    let domain = parse_pddl_domain(DOMAIN).unwrap();
    let problem = parse_pddl_problem(PROBLEM, &domain.predicates).unwrap();
    assert_eq!(problem.name, "depot-one");
    assert_eq!(problem.init_atoms.len(), 3);
    assert_eq!(problem.init_fluents.len(), 2);
    assert_eq!(problem.goal.len(), 2);
}

#[test]
fn compiling_twice_gives_the_same_task() {
    let a = TemporalTask::from_pddl(DOMAIN, PROBLEM).unwrap();
    let b = TemporalPlanner::new().load_pddl_content(DOMAIN, PROBLEM).unwrap();
    assert_eq!(format!("{:?}", a), format!("{:?}", b));
}

#[test]
fn empty_task_is_empty() {
    let task = TemporalTask::new();
    assert!(task.actions.is_empty());
    assert!(task.facts.is_empty());
    assert!(task.goal_conditions.is_empty());
    assert!(task.initial_state.facts.is_empty());
    assert!(task.mutex_groups.is_empty());
    assert_eq!(task.domain_name, "");
}

#[test]
fn a_plain_action_takes_one_unit_whatever_it_is_handed() {
    let plain = PDDLAction {
        name: "a".to_string(),
        parameters: vec![],
        precondition: None,
        effect: None,
        duration: Some(PDDLDuration::Fixed(7_000_000)),
        is_durative: false,
    };
    let durative = PDDLAction {
        name: "b".to_string(),
        parameters: vec![],
        precondition: None,
        effect: None,
        duration: Some(PDDLDuration::Fixed(7_000_000)),
        is_durative: true,
    };
    let vague = PDDLAction {
        name: "c".to_string(),
        parameters: vec![],
        precondition: None,
        effect: None,
        duration: Some(PDDLDuration::Unsupported),
        is_durative: true,
    };
    let actions = convert_pddl_actions(&vec![plain, durative, vague], &vec![]).unwrap();
    assert_eq!(actions[0].duration, 1_000_000);
    assert_eq!(actions[1].duration, 7_000_000);
    assert_eq!(actions[2].duration, 1_000_000);
}

#[test]
fn a_type_that_is_used_has_to_be_declared() {
    let problem = "(define (problem x) (:domain d) (:objects o - t u - object) (:init) (:goal (q)))";
    let declared = "(define (domain d) (:types T) (:predicates (p ?x - t) (q))
        (:action a :parameters (?x - t ?y - OBJECT ?z) :precondition (p ?x) :effect (q)))";
    assert!(TemporalTask::from_pddl(declared, problem).is_ok());
    let in_predicate = "(define (domain d) (:types t) (:predicates (p ?x - s) (q)))";
    let err = TemporalTask::from_pddl(in_predicate, problem).unwrap_err();
    assert_eq!(err.kind, ErrorKind::UnknownSymbol);
    assert_eq!(err.token.as_deref(), Some("s"));
    let in_action = "(define (domain d) (:types t) (:predicates (p ?x - t) (q))
        (:action a :parameters (?x - t ?y - crate ?z - box) :precondition (p ?x) :effect (q)))";
    let err = TemporalTask::from_pddl(in_action, problem).unwrap_err();
    assert_eq!(err.kind, ErrorKind::UnknownSymbol);
    assert_eq!(err.token.as_deref(), Some("crate"));
    let none = "(define (domain d) (:predicates (q)))";
    let err = TemporalTask::from_pddl(none, problem).unwrap_err();
    assert_eq!(err.kind, ErrorKind::UnknownSymbol);
    assert_eq!(err.token.as_deref(), Some("t"));
    let untyped = "(define (problem x) (:domain d) (:objects o u - object) (:init) (:goal (q)))";
    assert!(TemporalTask::from_pddl(none, untyped).is_ok());
}
