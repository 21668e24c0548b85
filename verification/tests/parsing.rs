use temporal_planner::error::ErrorKind;
use temporal_planner::temporal_task::TemporalTask;

fn units(ticks: u64) -> f64 {
    ticks as f64 / 1_000_000.0
}

#[test]
fn test_action_temporal_properties() {
    let domain_content = r#"
(define (domain test-temporal)
  (:requirements :strips :durative-actions)
  (:predicates (p) (q) (r))
  
  (:durative-action test-action
    :parameters ()
    :duration (= ?duration 5.0)
    :condition (and (at start (p))
                    (over all (q))
                    (at end (r)))
    :effect (and (at start (not (p)))
                 (at end (r)))
  )
)
"#;

    let problem_content = r#"
(define (problem test-problem)
  (:domain test-temporal)
  (:objects)
  (:init (p) (q))
  (:goal (r))
)
"#;

    let task = TemporalTask::from_pddl(domain_content, problem_content).unwrap();

    assert_eq!(task.actions.len(), 1, "Expected 1 action");

    let action = &task.actions[0];
    assert_eq!(action.name, "test-action");
    assert_eq!(units(action.duration), 5.0);
    assert_eq!(action.conditions_start.len(), 1, "Expected 1 start condition");
    assert_eq!(action.conditions_over_all.len(), 1, "Expected 1 over-all condition");
    assert_eq!(action.conditions_end.len(), 1, "Expected 1 end condition");
    assert_eq!(action.effects_start.len(), 1, "Expected 1 start effect");
    assert_eq!(action.effects_end.len(), 1, "Expected 1 end effect");

    println!("   - Start conditions: {}", action.conditions_start.len());
    println!("   - Over-all conditions: {}", action.conditions_over_all.len());
    println!("   - End conditions: {}", action.conditions_end.len());
}

#[test]
fn test_error_handling_invalid_domain() {
    let invalid_domain = r#"
(define (domain invalid)
  this is not valid PDDL
)
"#;

    let valid_problem = r#"
(define (problem test)
  (:domain invalid)
  (:objects)
  (:init)
  (:goal (p))
)
"#;

    match TemporalTask::from_pddl(invalid_domain, valid_problem) {
        Ok(task) => println!("   - Actions parsed from invalid domain: {}", task.actions.len()),
        Err(e) => {
            assert_eq!(e.kind, ErrorKind::UnknownSymbol);
            println!("   - Invalid domain rejected: {:?}", e.kind);
        }
    }
}
