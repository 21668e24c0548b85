use temporal_planner::serialise::serialise;
use temporal_planner::temporal_task::TemporalTask;

const DOMAIN: &str = "
(define (domain Depot)
  (:requirements :strips :typing :durative-actions :numeric-fluents)
  (:types place crate)
  (:predicates (at ?c - crate ?p - place) (clear ?p - place) (done))
  (:action tidy
    :parameters (?p - place ?q)
    :precondition (and (clear ?p) (not (done)))
    :effect (and (done) (not (clear dock))))
  (:durative-action wait
    :parameters ()
    :duration (= ?duration 2.5)
    :condition (and (over all (clear dock)) (at end (not (done))))
    :effect (and (at start (clear yard)) (at end (done))))
  (:durative-action guess
    :parameters ()
    :duration (= ?duration (* 2 (load)))
    :condition (at start (done))
    :effect (at end (clear yard))))
";

const PROBLEM: &str = "
(define (problem depot-one)
  (:domain depot)
  (:objects c1 c2 - crate dock yard - place spare)
  (:init (clear dock) (at c1 dock) (= (load) 4.25) (= (weight c1) -2))
  (:goal (and (done) (not (at c2 yard)))))
";

#[test]
fn small_task_is_written_in_full() {
    let domain = "(define (domain d) (:requirements :strips) (:types t) (:predicates (p ?x - t) (q))
        (:action a :parameters (?x - t) :precondition (p ?x) :effect (not (q))))";
    let problem = "(define (problem x) (:domain d) (:objects o - t) (:init (q) (= (f) 1.5)) (:goal (p o)))";
    let task = TemporalTask::from_pddl(domain, problem).unwrap();
    let (d, p) = serialise(&task);
    assert_eq!(
        d,
        "(define (domain d) (:requirements :strips) (:types t) (:predicates (p ?x - t) (q)) \
         (:durative-action a :parameters (?x - t) :duration (= ?duration 1.0) \
         :condition (and (at start (p ?x))) :effect (and (at end (not (q))))))"
    );
    assert_eq!(
        p,
        "(define (problem task) (:domain d) (:objects o - t) (:init (q) (= (f) 1.5)) (:goal (and (p o))))"
    );
}

#[test]
fn compiling_what_was_written_gives_the_task_again() {
    let first = TemporalTask::from_pddl(DOMAIN, PROBLEM).unwrap();
    assert_eq!(first.warnings.len(), 1);
    assert_eq!(first.warnings[0].action_index, 2);
    let (d, p) = serialise(&first);
    assert!(d.contains("(:durative-action guess :parameters () :duration () :condition"));
    let second = TemporalTask::from_pddl(&d, &p).unwrap();
    assert_eq!(format!("{:?}", first), format!("{:?}", second));
    let (domain_again, problem_again) = serialise(&second);
    assert_eq!((d, p), (domain_again, problem_again));
}

#[test]
fn empty_task_is_written_and_read() {
    let task = TemporalTask::new();
    let (d, p) = serialise(&task);
    assert_eq!(d, "(define (domain) (:requirements) (:types) (:predicates))");
    assert_eq!(p, "(define (problem task) (:domain) (:objects) (:init) (:goal (and)))");
    let again = TemporalTask::from_pddl(&d, &p).unwrap();
    assert_eq!(format!("{:?}", task), format!("{:?}", again));
}

#[test]
fn quoted_identifiers_are_written_as_they_are() {
    let domain = "(define (domain d) (:predicates (\"big box\" ?x)))";
    let problem = "(define (problem x) (:domain d) (:init (\"big box\" a)) (:goal (\"big box\" a)))";
    let first = TemporalTask::from_pddl(domain, problem).unwrap();
    assert_eq!(first.predicates[0].name, "\"big box\"");
    let (d, p) = serialise(&first);
    let second = TemporalTask::from_pddl(&d, &p).unwrap();
    assert_eq!(format!("{:?}", first), format!("{:?}", second));
}
