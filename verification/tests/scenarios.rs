use temporal_planner::error::ErrorKind;
use temporal_planner::search::{SearchResult, TemporalAStarSearch, TemporalSearchEngine};
use temporal_planner::temporal_task::TemporalTask;
use temporal_planner::TemporalPlanner;

fn units(ticks: u64) -> f64 {
    ticks as f64 / 1_000_000.0
}

const REACH_DOMAIN: &str = "
(define (domain reach)
  (:requirements :strips)
  (:predicates (p) (q))
  (:action a
    :parameters ()
    :precondition (p)
    :effect (q)))
";

const REACH_PROBLEM: &str = "
(define (problem reach-1)
  (:domain reach)
  (:init (p))
  (:goal (q)))
";

#[test]
fn trivial_reach_finds_one_step_plan() {
    let task = TemporalTask::from_pddl(REACH_DOMAIN, REACH_PROBLEM).unwrap();
    let mut engine = TemporalAStarSearch::new();
    match engine.search(&task) {
        SearchResult::Solution(plan) => {
            assert_eq!(plan.actions, vec![0]);
            assert_eq!(plan.start_times, vec![0]);
            assert_eq!(units(plan.cost), 1.0);
        }
        other => panic!("expected a plan, got {:?}", other),
    }
}

#[test]
fn trivial_reach_with_admissible_heuristic() {
    let task = TemporalTask::from_pddl(REACH_DOMAIN, REACH_PROBLEM).unwrap();
    let mut engine = TemporalAStarSearch::admissible();
    match engine.search(&task) {
        SearchResult::Solution(plan) => {
            assert_eq!(plan.actions, vec![0]);
            assert_eq!(units(plan.cost), 1.0);
        }
        other => panic!("expected a plan, got {:?}", other),
    }
}

#[test]
fn simple_durative_delivery() {
    let domain = "
(define (domain simple-robot)
  (:requirements :strips :durative-actions)
  (:predicates (robot-at ?loc) (delivered))
  (:durative-action deliver
    :parameters ()
    :duration (= ?duration 2.0)
    :condition (at start (robot-at depot))
    :effect (at end (delivered))))
";
    let problem = "
(define (problem delivery-task)
  (:domain simple-robot)
  (:init (robot-at depot))
  (:goal (delivered)))
";
    let mut planner = TemporalPlanner::new();
    match planner.solve_from_content(domain, problem).unwrap() {
        SearchResult::Solution(plan) => {
            assert_eq!(plan.actions, vec![0]);
            assert_eq!(plan.start_times, vec![0]);
            assert_eq!(units(plan.cost), 2.0);
        }
        other => panic!("expected a plan, got {:?}", other),
    }
}

#[test]
fn over_all_violation_leaves_one_plan() {
    let domain = "
(define (domain guarded)
  (:requirements :strips :durative-actions)
  (:predicates (p))
  (:durative-action a1
    :parameters ()
    :duration (= ?duration 5)
    :condition (and)
    :effect (at end (p)))
  (:durative-action a2
    :parameters ()
    :duration (= ?duration 1)
    :condition (at start (not (p)))
    :effect (at start (not (p)))))
";
    let problem = "
(define (problem guarded-1)
  (:domain guarded)
  (:init)
  (:goal (p)))
";
    let task = TemporalTask::from_pddl(domain, problem).unwrap();
    let mut engine = TemporalAStarSearch::new();
    match engine.search(&task) {
        SearchResult::Solution(plan) => {
            assert_eq!(plan.actions, vec![0]);
            assert_eq!(units(plan.cost), 5.0);
        }
        other => panic!("expected a plan, got {:?}", other),
    }
}

#[test]
fn infeasible_goal_has_no_solution() {
    let domain = "
(define (domain stuck)
  (:requirements :strips)
  (:predicates (p) (q) (r))
  (:action a
    :parameters ()
    :precondition (p)
    :effect (q)))
";
    let problem = "
(define (problem stuck-1)
  (:domain stuck)
  (:init (p))
  (:goal (r)))
";
    let task = TemporalTask::from_pddl(domain, problem).unwrap();
    let mut zero = TemporalAStarSearch::new();
    assert!(matches!(zero.search(&task), SearchResult::Failure));
    let mut relaxed = TemporalAStarSearch::admissible();
    assert!(matches!(relaxed.search(&task), SearchResult::Failure));
}

#[test]
fn an_unreachable_goal_fails_whatever_the_budget() {
    let domain = "
(define (domain idle)
  (:requirements :strips :durative-actions)
  (:predicates (p) (q) (r))
  (:durative-action spin
    :parameters ()
    :duration (= ?duration 2)
    :condition (at start (p))
    :effect (and (at start (q)) (at end (not (r))))))
";
    let problem = "
(define (problem idle-1)
  (:domain idle)
  (:init (p))
  (:goal (and (p) (r))))
";
    let task = TemporalTask::from_pddl(domain, problem).unwrap();
    for budget in [0, 1, 1_000] {
        let mut engine = TemporalAStarSearch::new();
        engine.budget = budget;
        assert!(matches!(engine.search(&task), SearchResult::Failure));
    }
}

#[test]
fn unbalanced_parentheses_are_malformed() {
    let domain = "(define (domain broken) (:predicates (p))";
    let problem = "(define (problem x) (:domain broken) (:init) (:goal (p)))";
    let err = TemporalTask::from_pddl(domain, problem).unwrap_err();
    assert_eq!(err.kind, ErrorKind::MalformedSyntax);
    assert_eq!(err.offset, Some(0));
    let err = TemporalTask::from_pddl("(define (domain d)))", problem).unwrap_err();
    assert_eq!(err.kind, ErrorKind::MalformedSyntax);
    assert_eq!(err.offset, Some(19));
    for text in ["(", ")", "(define (domain d) ; )\n", "(define \"(domain d))", ")(define (domain d))("] {
        let err = TemporalTask::from_pddl(text, problem).unwrap_err();
        assert_eq!(err.kind, ErrorKind::MalformedSyntax);
    }
}

#[test]
fn budget_of_zero_interrupts() {
    let task = TemporalTask::from_pddl(REACH_DOMAIN, REACH_PROBLEM).unwrap();
    let mut engine = TemporalAStarSearch::new();
    engine.budget = 0;
    assert!(matches!(engine.search(&task), SearchResult::Interrupted));
}
