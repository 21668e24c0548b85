use temporal_planner::error::ErrorKind;
use temporal_planner::scheduler::SimpleTemporalNetwork;

#[test]
fn new_network_is_consistent() {
    let network = SimpleTemporalNetwork::new();
    assert!(network.is_consistent());
    assert_eq!(network.schedule(), vec![(0, 0)]);
}

#[test]
fn timepoints_are_numbered_in_order() {
    let mut network = SimpleTemporalNetwork::new();
    assert_eq!(network.add_timepoint(), 1);
    assert_eq!(network.add_timepoint(), 2);
    assert_eq!(network.schedule(), vec![(0, 0), (1, 0), (2, 0)]);
}

#[test]
fn earliest_times_follow_lower_bounds() {
    let mut network = SimpleTemporalNetwork::new();
    let a = network.add_timepoint();
    let b = network.add_timepoint();
    assert!(network.add_constraint(0, a, Some(3), None).is_ok());
    assert!(network.add_constraint(a, b, Some(5), Some(5)).is_ok());
    assert!(network.is_consistent());
    assert_eq!(network.schedule(), vec![(0, 0), (1, 3), (2, 8)]);
}

#[test]
fn negative_cycle_is_inconsistent() {
    let mut network = SimpleTemporalNetwork::new();
    let a = network.add_timepoint();
    let b = network.add_timepoint();
    assert!(network.add_constraint(a, b, Some(5), None).is_ok());
    let err = network.add_constraint(b, a, Some(1), None).unwrap_err();
    assert_eq!(err.kind, ErrorKind::InconsistentTemporalConstraints);
    assert!(!network.is_consistent());
    assert!(network.schedule().is_empty());
    assert!(network.add_constraint(0, a, None, None).is_err());
}

#[test]
fn constraint_on_unknown_timepoint_is_turned_away() {
    let mut network = SimpleTemporalNetwork::new();
    let err = network.add_constraint(0, 7, Some(0), None).unwrap_err();
    assert_eq!(err.kind, ErrorKind::InconsistentTemporalConstraints);
    assert!(network.is_consistent());
    assert!(network.constraints.is_empty());
}

#[test]
fn upper_bound_below_lower_bound_is_inconsistent() {
    let mut network = SimpleTemporalNetwork::new();
    let a = network.add_timepoint();
    assert!(network.add_constraint(0, a, Some(4), Some(3)).is_err());
    assert!(!network.is_consistent());
}

#[test]
fn actions_are_scheduled_at_their_earliest() {
    let mut network = SimpleTemporalNetwork::new();
    assert!(network.add_action(4, 2_000_000, 5_000_000).is_ok());
    assert!(network.add_action(9, 2_000_000, 1_000_000).is_ok());
    let plan = network.get_schedule();
    assert_eq!(plan.len(), 2);
    assert_eq!(plan[0].action_idx, 4);
    assert_eq!(plan[0].start_time, 2_000_000);
    assert_eq!(plan[0].end_time, 7_000_000);
    assert_eq!(plan[1].action_idx, 9);
    assert_eq!(plan[1].start_time, 2_000_000);
    assert_eq!(plan[1].end_time, 3_000_000);
}

#[test]
fn action_beyond_the_horizon_is_inconsistent() {
    let mut network = SimpleTemporalNetwork::new();
    assert!(network.add_action(0, u64::MAX, 1).is_err());
    assert!(network.get_schedule().is_empty());
}

#[test]
fn copy_is_independent() {
    let mut network = SimpleTemporalNetwork::new();
    let a = network.add_timepoint();
    let copy = network.copy();
    assert!(network.add_constraint(0, a, Some(9), None).is_ok());
    assert_eq!(network.schedule(), vec![(0, 0), (1, 9)]);
    assert_eq!(copy.schedule(), vec![(0, 0), (1, 0)]);
}
