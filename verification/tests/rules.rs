use temporal_planner::clock::Stopwatch;
use temporal_planner::ffi::PlannerResult;
use temporal_planner::heuristics::{TemporalAdmissibleHeuristic, TemporalFFHeuristic, TemporalHeuristic, INFINITE};
use temporal_planner::output::{format_plan, write_duration, write_start};
use temporal_planner::plan::Plan;
use temporal_planner::search::{
    same_state, SearchResult, TemporalAStarSearch, TemporalSearchEngine,
};
use temporal_planner::state_space::{nothing_due, EventKind, ScheduledEffect, StateSpace};
use temporal_planner::temporal_task::{NumericFluent, State, TemporalTask};
use temporal_planner::error::ErrorKind;
use temporal_planner::TemporalPlanner;

const DOMAIN: &str = "
(define (domain kitchen)
  (:requirements :strips :durative-actions)
  (:predicates (raw) (hot) (cooked) (lid) (served))
  (:durative-action heat
    :parameters ()
    :duration (= ?duration 4)
    :condition (and (at start (raw)) (over all (lid)))
    :effect (and (at start (hot)) (at end (cooked)) (at end (not (raw)))))
  (:action lift
    :parameters ()
    :precondition (lid)
    :effect (not (lid)))
  (:durative-action serve
    :parameters ()
    :duration (= ?duration 0.5)
    :condition (and (at start (cooked)) (at end (hot)))
    :effect (and (at start (served)) (at start (not (lid))))))
";

const PROBLEM: &str = "
(define (problem dinner)
  (:domain kitchen)
  (:init (raw) (lid))
  (:goal (served)))
";

fn space() -> StateSpace {
    StateSpace::new(&TemporalTask::from_pddl(DOMAIN, PROBLEM).unwrap())
}

fn text(chars: Vec<char>) -> String {
    chars.into_iter().collect()
}

#[test]
fn applicable_actions_come_in_order_of_their_numbers() {
    let space = space();
    let start = space.initial_state();
    assert_eq!(space.get_applicable_actions(&start), vec![(0, 0), (1, 0)]);
}

#[test]
fn applying_schedules_end_effects_and_protections() {
    let space = space();
    let start = space.initial_state();
    let heating = space.apply_action(&start, 0, 0);
    assert_eq!(heating.time, 0);
    // facts: raw, lid, hot, cooked, served in first-seen order
    let names: Vec<String> = space.facts.iter().map(|f| f.predicate.clone()).collect();
    assert_eq!(names, vec!["raw", "lid", "served", "hot", "cooked"]);
    assert_eq!(heating.classical_state.facts, vec![true, true, false, true, false]);
    assert_eq!(
        heating.scheduled_effects,
        vec![
            ScheduledEffect { time: 4_000_000, fact: 4, kind: EventKind::Add, action_id: 0 },
            ScheduledEffect { time: 4_000_000, fact: 0, kind: EventKind::Delete, action_id: 0 },
        ]
    );
    assert_eq!(
        heating.protections,
        vec![ScheduledEffect { time: 4_000_000, fact: 1, kind: EventKind::KeepTrue, action_id: 0 }]
    );
    assert_eq!(start.classical_state.facts, vec![true, true, false, false, false]);
    assert!(start.scheduled_effects.is_empty());
}

#[test]
fn new_entries_follow_what_was_scheduled() {
    let space = space();
    let mut state = space.initial_state();
    state.classical_state.facts[4] = true;
    let late = ScheduledEffect { time: 9_000_000, fact: 3, kind: EventKind::Add, action_id: 2 };
    let early = ScheduledEffect { time: 1_000_000, fact: 3, kind: EventKind::Delete, action_id: 1 };
    state.scheduled_effects = vec![late, early];
    let next = space.apply_action(&state, 0, 0);
    assert_eq!(
        next.scheduled_effects,
        vec![
            late,
            early,
            ScheduledEffect { time: 4_000_000, fact: 4, kind: EventKind::Add, action_id: 0 },
            ScheduledEffect { time: 4_000_000, fact: 0, kind: EventKind::Delete, action_id: 0 },
        ]
    );
    let first = space.advance_time(&next);
    assert_eq!(first.time, 1_000_000);
    assert_eq!(first.scheduled_effects.len(), 3);
    assert_eq!(first.scheduled_effects[0], late);
    assert_eq!(first.protections, next.protections);
}

#[test]
fn an_action_under_way_can_start_again() {
    let space = space();
    let heating = space.apply_action(&space.initial_state(), 0, 0);
    assert!(space.is_applicable(0, &heating));
    let twice = space.apply_action(&heating, 0, 0);
    assert_eq!(twice.scheduled_effects.len(), 4);
    assert_eq!(twice.protections.len(), 2);
}

#[test]
fn protected_fact_cannot_be_deleted_by_a_parallel_action() {
    let space = space();
    let heating = space.apply_action(&space.initial_state(), 0, 0);
    // lifting the lid would break the over-all condition of heating;
    // heating can start once more, and serving needs what is cooked
    assert_eq!(space.get_applicable_actions(&heating), vec![(0, 0)]);
    let done = space.advance_time(&heating);
    assert_eq!(done.time, 4_000_000);
    assert!(done.scheduled_effects.is_empty());
    assert_eq!(done.classical_state.facts, vec![false, true, false, true, true]);
    assert_eq!(space.get_applicable_actions(&done), vec![(1, 4_000_000), (2, 4_000_000)]);
}

#[test]
fn clock_never_runs_backwards() {
    let space = space();
    let heating = space.apply_action(&space.initial_state(), 0, 0);
    let done = space.advance_time(&heating);
    let late = space.apply_action(&done, 1, 1_000_000);
    assert_eq!(late.time, 4_000_000);
    let idle = space.advance_time(&done);
    assert_eq!(idle.time, 4_000_000);
}

#[test]
fn deletions_fire_before_additions() {
    let space = space();
    let mut state = space.initial_state();
    state.scheduled_effects = vec![
        ScheduledEffect { time: 7, fact: 2, kind: EventKind::Add, action_id: 0 },
        ScheduledEffect { time: 7, fact: 2, kind: EventKind::Delete, action_id: 1 },
        ScheduledEffect { time: 7, fact: 0, kind: EventKind::Delete, action_id: 1 },
        ScheduledEffect { time: 9, fact: 1, kind: EventKind::Delete, action_id: 1 },
    ];
    let next = space.advance_time(&state);
    assert_eq!(next.time, 7);
    assert_eq!(next.classical_state.facts, vec![false, true, true, false, false]);
    assert_eq!(
        next.scheduled_effects,
        vec![ScheduledEffect { time: 9, fact: 1, kind: EventKind::Delete, action_id: 1 }]
    );
}

#[test]
fn goal_needs_conditions_and_an_empty_agenda() {
    let space = space();
    let mut state = space.initial_state();
    assert!(!space.is_goal(&state));
    state.classical_state.facts[2] = true;
    assert!(space.is_goal(&state));
    state.scheduled_effects.push(ScheduledEffect {
        time: 1,
        fact: 0,
        kind: EventKind::KeepTrue,
        action_id: 0,
    });
    assert!(!space.is_goal(&state));
}

#[test]
fn a_state_ends_in_the_goal_once_the_agenda_has_run() {
    let space = space();
    let mut state = space.initial_state();
    assert!(!space.ends_in_goal(&state));
    state.scheduled_effects.push(ScheduledEffect {
        time: 4,
        fact: 2,
        kind: EventKind::Add,
        action_id: 0,
    });
    assert!(!space.is_goal(&state));
    assert!(space.ends_in_goal(&state));
    state.scheduled_effects.push(ScheduledEffect {
        time: 6,
        fact: 2,
        kind: EventKind::Delete,
        action_id: 1,
    });
    assert!(!space.ends_in_goal(&state));
    state.scheduled_effects[1].time = 4;
    assert!(space.ends_in_goal(&state));
}

#[test]
fn waiting_costs_the_time_that_passes() {
    let task = TemporalTask::from_pddl(DOMAIN, PROBLEM).unwrap();
    let outcome = TemporalAStarSearch::new().search_traced(&task);
    let waits: Vec<_> = outcome
        .nodes
        .iter()
        .filter(|n| n.parent.is_some() && n.action_idx.is_none())
        .collect();
    assert!(!waits.is_empty());
    for node in waits {
        let parent = &outcome.nodes[node.parent.unwrap()];
        assert_eq!(node.g_value - parent.g_value, node.state.time - parent.state.time);
    }
    for node in outcome.nodes.iter().filter(|n| n.action_idx.is_some()) {
        let parent = &outcome.nodes[node.parent.unwrap()];
        let space = StateSpace::new(&task);
        assert_eq!(node.g_value - parent.g_value, space.actions[node.action_idx.unwrap()].duration);
    }
}

#[test]
fn identity_ignores_the_clock_but_not_the_agenda() {
    let space = space();
    let mut a = space.initial_state();
    let mut b = space.initial_state();
    b.time = 5;
    assert!(same_state(&a, &b));
    a.scheduled_effects.push(ScheduledEffect { time: 3, fact: 0, kind: EventKind::Add, action_id: 1 });
    b.scheduled_effects.push(ScheduledEffect { time: 8, fact: 0, kind: EventKind::Add, action_id: 1 });
    assert!(same_state(&a, &b));
    b.scheduled_effects[0].time = 9;
    assert!(!same_state(&a, &b));
    b.scheduled_effects[0].time = 8;
    b.classical_state.facts[0] = false;
    assert!(!same_state(&a, &b));
}

#[test]
fn heuristic_values() {
    let space = space();
    let start = space.initial_state();
    assert_eq!(TemporalFFHeuristic::new().compute(&start, &space), 0);
    // served needs cooked, which heat gives after 4; serve adds it at its start
    assert_eq!(TemporalAdmissibleHeuristic::new().compute(&start, &space), 4_000_000);
    let mut dry = space.initial_state();
    dry.classical_state.facts[0] = false;
    assert_eq!(TemporalAdmissibleHeuristic::new().compute(&dry, &space), INFINITE);
    let mut fed = space.initial_state();
    fed.classical_state.facts[2] = true;
    assert_eq!(TemporalAdmissibleHeuristic::new().compute(&fed, &space), 0);
    let costs = TemporalAdmissibleHeuristic::build_relaxed_planning_graph(&start, &space);
    assert_eq!(costs, vec![0, 0, 4_000_000, 0, 4_000_000]);
}

#[test]
fn dinner_is_served() {
    let task = TemporalTask::from_pddl(DOMAIN, PROBLEM).unwrap();
    for engine in [TemporalAStarSearch::new(), TemporalAStarSearch::admissible()] {
        let outcome = engine.search_traced(&task);
        match &outcome.result {
            SearchResult::Solution(plan) => {
                assert_eq!(plan.actions, vec![0, 2]);
                assert_eq!(plan.start_times, vec![0, 4_000_000]);
                // heating, four units of waiting for it, and serving
                assert_eq!(plan.cost, 8_500_000);
                let space = StateSpace::new(&task);
                for node in &outcome.nodes {
                    if space.ends_in_goal(&node.state) {
                        assert!(plan.cost <= node.g_value);
                    }
                }
                assert_eq!(
                    format_plan(plan, &space).unwrap(),
                    vec!["0.000 : heat() [4.0]", "4.000 : serve() [0.5]"]
                );
            }
            other => panic!("expected a plan, got {:?}", other),
        }
    }
}

#[test]
fn same_search_gives_the_same_plan() {
    let task = TemporalTask::from_pddl(DOMAIN, PROBLEM).unwrap();
    let mut engine = TemporalAStarSearch::new();
    let first = format!("{:?}", engine.search(&task));
    let second = format!("{:?}", engine.search(&task));
    assert_eq!(first, second);
}

#[test]
fn time_limit_of_zero_interrupts() {
    let task = TemporalTask::from_pddl(DOMAIN, PROBLEM).unwrap();
    let mut engine = TemporalAStarSearch::new();
    engine.time_limit_millis = Some(0);
    assert!(matches!(engine.search(&task), SearchResult::Interrupted));
    engine.time_limit_millis = Some(3_600_000);
    assert!(matches!(engine.search(&task), SearchResult::Solution(_)));
}

#[test]
fn numbers_in_plan_text() {
    assert_eq!(text(write_start(0)), "0.000");
    assert_eq!(text(write_start(1_234_567)), "1.234");
    assert_eq!(text(write_start(12_000_999)), "12.000");
    assert_eq!(text(write_start(999)), "0.000");
    assert_eq!(text(write_duration(1_000_000)), "1.0");
    assert_eq!(text(write_duration(2_500_000)), "2.5");
    assert_eq!(text(write_duration(0)), "0.0");
    assert_eq!(text(write_duration(10_000_001)), "10.000001");
    assert_eq!(text(write_duration(120_030_000)), "120.03");
}

#[test]
fn plan_text_is_ordered_by_start_time_then_action() {
    let space = space();
    let plan = Plan { actions: vec![2, 1, 0, 1], start_times: vec![5_000_000, 0, 0, 5_000_000], cost: 0 };
    assert_eq!(
        format_plan(&plan, &space).unwrap(),
        vec![
            "0.000 : heat() [4.0]",
            "0.000 : lift() [1.0]",
            "5.000 : lift() [1.0]",
            "5.000 : serve() [0.5]",
        ]
    );
    let unknown = Plan { actions: vec![7], start_times: vec![0], cost: 0 };
    assert_eq!(format_plan(&unknown, &space), None);
}

#[test]
fn result_codes() {
    let codes: Vec<i32> = [
        PlannerResult::Success,
        PlannerResult::SolutionFound,
        PlannerResult::NoSolutionFound,
        PlannerResult::ParseError,
        PlannerResult::FileError,
        PlannerResult::InvalidHandle,
    ]
    .iter()
    .map(|r| r.code())
    .collect();
    assert_eq!(codes, vec![0, 1, 2, 3, 4, 5]);
    assert_eq!(PlannerResult::of_search(&SearchResult::Failure), PlannerResult::NoSolutionFound);
    assert_eq!(PlannerResult::of_search(&SearchResult::Interrupted), PlannerResult::NoSolutionFound);
    let plan = Plan { actions: vec![], start_times: vec![], cost: 0 };
    assert_eq!(PlannerResult::of_search(&SearchResult::Solution(plan)), PlannerResult::SolutionFound);
    assert_eq!(PlannerResult::of_error(ErrorKind::IOFailure), PlannerResult::FileError);
    assert_eq!(PlannerResult::of_error(ErrorKind::MalformedSyntax), PlannerResult::ParseError);
    assert_eq!(PlannerResult::of_error(ErrorKind::UnknownSymbol), PlannerResult::ParseError);
}

#[test]
fn planner_reports_what_it_is() {
    let info = TemporalPlanner::new().get_info();
    assert_eq!(info.version, "0.1.0");
    assert_eq!(info.search_algorithm, "Temporal A*");
    assert!(info.supports_durative_actions);
    assert!(info.supports_numeric_fluents);
}

#[test]
fn test_temporal_properties() {
    let domain_content = r#"
(define (domain test-temporal)
  (:requirements :strips :durative-actions)
  (:predicates (p) (q) (r))
  
  (:durative-action test-action
    :parameters ()
    :duration (= ?duration 5.0)
    :condition (and (at start (p))
                    (over all (q))
                    (at end (r)))
    :effect (and (at start (not (p)))
                 (at end (r)))
  )
)
"#;
    let problem_content = r#"
(define (problem test-problem)
  (:domain test-temporal)
  (:objects)
  (:init (p) (q))
  (:goal (r))
)
"#;
    let task = TemporalTask::from_pddl(domain_content, problem_content).unwrap();
    assert_eq!(task.actions.len(), 1);
    let action = &task.actions[0];
    assert_eq!(action.name, "test-action");
    assert_eq!(action.duration as f64 / 1_000_000.0, 5.0);
    assert_eq!(action.conditions_start.len(), 1);
    assert_eq!(action.conditions_over_all.len(), 1);
    assert_eq!(action.conditions_end.len(), 1);
    assert_eq!(action.effects_start.len(), 1);
    assert_eq!(action.effects_end.len(), 1);
}

#[test]
fn test_planning_integration() {
    let domain_content = r#"
(define (domain simple-test)
  (:requirements :strips)
  (:predicates (at-start) (at-goal))
  
  (:action move-to-goal
    :parameters ()
    :precondition (at-start)
    :effect (and (not (at-start)) (at-goal))
  )
)
"#;
    let problem_content = r#"
(define (problem test-plan)
  (:domain simple-test)
  (:objects)
  (:init (at-start))
  (:goal (at-goal))
)
"#;
    let task = TemporalTask::from_pddl(domain_content, problem_content).unwrap();
    let mut search_engine = TemporalAStarSearch::new();
    match search_engine.search(&task) {
        SearchResult::Solution(plan) => {
            assert_eq!(plan.actions.len(), 1);
            assert_eq!(plan.cost as f64 / 1_000_000.0, 1.0);
        }
        other => panic!("expected a plan, got {:?}", other),
    }
}

#[test]
fn states_with_the_same_facts_are_one_key() {
    let space = space();
    let a = space.initial_state().classical_state;
    let b = space.initial_state().classical_state;
    let mut c = space.initial_state().classical_state;
    c.facts[2] = true;
    assert!(a.equals(&b));
    assert!(!a.equals(&c));
    assert_eq!(a, b);
    assert_ne!(a, c);
    let fluent = |name: &str, value: i64| NumericFluent {
        function: name.to_string(),
        args: vec!["x".to_string()],
        value,
    };
    let one = State { facts: vec![true], numeric_values: vec![fluent("f", 1), fluent("g", 2)] };
    let other = State { facts: vec![true], numeric_values: vec![fluent("g", 2), fluent("f", 1)] };
    let less = State { facts: vec![true], numeric_values: vec![fluent("f", 1)] };
    let changed = State { facts: vec![true], numeric_values: vec![fluent("g", 2), fluent("f", 3)] };
    let rewritten = State {
        facts: vec![true],
        numeric_values: vec![fluent("f", 7), fluent("g", 2), fluent("f", 1)],
    };
    assert!(one.equals(&other) && other.equals(&one));
    assert!(one.equals(&one));
    assert!(!one.equals(&less) && !less.equals(&one));
    assert!(!one.equals(&changed));
    assert!(one.equals(&rewritten));
    let mut seen = std::collections::HashSet::new();
    assert!(seen.insert(a));
    assert!(!seen.insert(b));
    assert!(seen.insert(c));
}

#[test]
fn a_stopwatch_keeps_its_limit() {
    assert!(!Stopwatch::start(None).expired());
    assert!(Stopwatch::start(Some(0)).expired());
    assert!(!Stopwatch::start(Some(3_600_000)).expired());
    assert!(Stopwatch::reached(5, 5));
    assert!(Stopwatch::reached(6, 5));
    assert!(!Stopwatch::reached(4, 5));
}

#[test]
fn what_is_due_does_not_decide_whether_an_action_can_start() {
    let space = space();
    let mut state = space.initial_state();
    state.time = 5;
    state.scheduled_effects.push(ScheduledEffect { time: 5, fact: 3, kind: EventKind::Add, action_id: 2 });
    assert!(!nothing_due(&state));
    assert!(space.is_applicable(0, &state));
    let passed = space.advance_time(&state);
    assert!(nothing_due(&passed));
    assert_eq!(passed.time, 5);
    assert!(passed.classical_state.facts[3]);
}
