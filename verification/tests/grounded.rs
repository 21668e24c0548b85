use temporal_planner::search::{SearchResult, TemporalAStarSearch, TemporalSearchEngine};
use temporal_planner::state_space::StateSpace;
use temporal_planner::temporal_task::TemporalTask;

const ROBOT_DOMAIN: &str = "
(define (domain robot)
  (:requirements :strips :typing :durative-actions)
  (:types location robot)
  (:predicates (at ?r - robot ?l - location) (connected ?a - location ?b - location))
  (:durative-action move
    :parameters (?r - robot ?from - location ?to - location)
    :duration (= ?duration 3)
    :condition (and (at start (at ?r ?from)) (over all (connected ?from ?to)))
    :effect (and (at start (not (at ?r ?from))) (at end (at ?r ?to)))))
";

const ROBOT_PROBLEM: &str = "
(define (problem there)
  (:domain robot)
  (:objects r1 - robot a b c - location)
  (:init (at r1 a) (connected a b) (connected b c))
  (:goal (at r1 c)))
";

#[test]
fn templates_are_grounded_over_fitting_objects() {
    let task = TemporalTask::from_pddl(ROBOT_DOMAIN, ROBOT_PROBLEM).unwrap();
    assert_eq!(task.actions.len(), 1);
    assert_eq!(task.objects.len(), 4);
    let space = StateSpace::new(&task);
    assert_eq!(space.actions.len(), 9);
    let names: Vec<Vec<String>> = space.actions.iter().map(|a| a.args.clone()).collect();
    assert_eq!(names[0], vec!["r1", "a", "a"]);
    assert_eq!(names[1], vec!["r1", "a", "b"]);
    assert_eq!(names[5], vec!["r1", "b", "c"]);
    assert_eq!(names[8], vec!["r1", "c", "c"]);
    assert!(space.actions.iter().all(|a| a.template == 0 && a.name == "move"));
    assert_eq!(space.initial.facts.len(), space.facts.len());
    assert_eq!(space.initial.facts.iter().filter(|b| **b).count(), 3);
}

#[test]
fn robot_walks_two_legs() {
    let task = TemporalTask::from_pddl(ROBOT_DOMAIN, ROBOT_PROBLEM).unwrap();
    for mut engine in [TemporalAStarSearch::new(), TemporalAStarSearch::admissible()] {
        match engine.search(&task) {
            SearchResult::Solution(plan) => {
                assert_eq!(plan.actions, vec![1, 5]);
                assert_eq!(plan.start_times, vec![0, 3_000_000]);
                // two legs of three units, and three units of waiting before the second
                assert_eq!(plan.cost, 9_000_000);
            }
            other => panic!("expected a plan, got {:?}", other),
        }
    }
}

#[test]
fn untyped_parameter_takes_every_object() {
    let domain = "
(define (domain paint)
  (:requirements :strips)
  (:predicates (painted ?x))
  (:action paint
    :parameters (?x)
    :precondition (and)
    :effect (painted ?x)))
";
    let problem = "
(define (problem two)
  (:domain paint)
  (:objects wall door)
  (:init)
  (:goal (and (painted wall) (painted door))))
";
    let task = TemporalTask::from_pddl(domain, problem).unwrap();
    let space = StateSpace::new(&task);
    assert_eq!(space.actions.len(), 2);
    let mut engine = TemporalAStarSearch::new();
    match engine.search(&task) {
        SearchResult::Solution(plan) => {
            assert_eq!(plan.actions.len(), 2);
            assert_eq!(plan.start_times, vec![0, 0]);
            assert_eq!(plan.cost, 2_000_000);
        }
        other => panic!("expected a plan, got {:?}", other),
    }
}

#[test]
fn plan_replays_to_the_goal() {
    let task = TemporalTask::from_pddl(ROBOT_DOMAIN, ROBOT_PROBLEM).unwrap();
    let space = StateSpace::new(&task);
    let mut engine = TemporalAStarSearch::admissible();
    let plan = match engine.search(&task) {
        SearchResult::Solution(plan) => plan,
        other => panic!("expected a plan, got {:?}", other),
    };
    let mut state = space.initial_state();
    for (action, start) in plan.actions.iter().zip(plan.start_times.iter()) {
        while state.scheduled_effects.iter().any(|e| e.time <= *start) {
            state = space.advance_time(&state);
        }
        assert!(state.time <= *start);
        state.time = *start;
        assert!(space.is_applicable(*action, &state));
        state = space.apply_action(&state, *action, *start);
    }
    while !state.scheduled_effects.is_empty() {
        state = space.advance_time(&state);
    }
    assert!(space.is_goal(&state));
    assert_eq!(state.time, 6_000_000);
}

#[test]
fn plan_text_names_the_objects() {
    let task = TemporalTask::from_pddl(ROBOT_DOMAIN, ROBOT_PROBLEM).unwrap();
    let space = StateSpace::new(&task);
    let mut engine = TemporalAStarSearch::new();
    match engine.search(&task) {
        SearchResult::Solution(plan) => {
            assert_eq!(
                temporal_planner::output::format_plan(&plan, &space).unwrap(),
                vec!["0.000 : move(r1,a,b) [3.0]", "3.000 : move(r1,b,c) [3.0]"]
            );
        }
        other => panic!("expected a plan, got {:?}", other),
    }
}
