use dbake::tui::state::{BuildProgress, DashboardState, TargetStatus};

fn make_state(targets: Vec<&str>, nodes: Vec<&str>) -> DashboardState {
    DashboardState::new(
        targets.into_iter().map(String::from).collect(),
        nodes.into_iter().map(String::from).collect(),
    )
}

#[test]
fn test_new_empty() {
    let s = make_state(vec![], vec![]);
    assert_eq!(s.total, 0);
    assert!(s.is_complete());
    assert_eq!(s.count_done(), 0);
    assert_eq!(s.count_building(), 0);
    assert_eq!(s.count_pending(), 0);
    assert_eq!(s.count_failed(), 0);
}

#[test]
fn test_new_initializes_all_pending() {
    let s = make_state(vec!["a", "b", "c"], vec!["node1"]);
    assert_eq!(s.total, 3);
    assert_eq!(s.count_pending(), 3);
    assert_eq!(s.count_building(), 0);
    assert_eq!(s.count_done(), 0);
    assert!(!s.is_complete());
}

#[test]
fn test_status_transitions() {
    let mut s = make_state(vec!["a"], vec!["node1"]);

    s.set_target_status("a", "node1", TargetStatus::Building);
    assert_eq!(s.count_building(), 1);
    assert_eq!(s.count_pending(), 0);
    assert!(s.targets.get("a").unwrap().started_at.is_some());

    s.set_target_status("a", "node1", TargetStatus::Done(5));
    assert_eq!(s.count_done(), 1);
    assert_eq!(s.count_building(), 0);
    assert!(s.is_complete());
}

#[test]
fn test_status_building_to_failed() {
    let mut s = make_state(vec!["a"], vec!["node1"]);
    s.set_target_status("a", "node1", TargetStatus::Building);
    s.set_target_status("a", "node1", TargetStatus::Failed("error".into()));
    assert_eq!(s.count_failed(), 1);
    assert_eq!(s.count_building(), 0);
    assert!(s.is_complete());
}

#[test]
fn test_set_status_nonexistent_target() {
    let mut s = make_state(vec!["a"], vec!["node1"]);
    s.set_target_status("nonexistent", "node1", TargetStatus::Building);
    assert_eq!(s.count_building(), 0);
    assert_eq!(s.count_pending(), 1);
}

#[test]
fn test_targets_for_node() {
    let mut s = make_state(vec!["a", "b", "c"], vec!["n1", "n2"]);
    s.set_target_status("a", "n1", TargetStatus::Building);
    s.set_target_status("b", "n2", TargetStatus::Building);
    s.set_target_status("c", "n1", TargetStatus::Done(1));

    let n1_targets = s.targets_for_node("n1");
    assert_eq!(n1_targets.len(), 2);
    assert_eq!(n1_targets[0].name, "a");
    assert_eq!(n1_targets[1].name, "c");

    let n2_targets = s.targets_for_node("n2");
    assert_eq!(n2_targets.len(), 1);
    assert_eq!(n2_targets[0].name, "b");
}

#[test]
fn test_targets_for_unknown_node() {
    let s = make_state(vec!["a"], vec!["n1"]);
    assert!(s.targets_for_node("unknown").is_empty());
}

#[test]
fn test_pending_targets_preserves_order() {
    let mut s = make_state(vec!["z", "a", "m"], vec!["n1"]);
    s.set_target_status("a", "n1", TargetStatus::Building);
    let pending = s.pending_targets();
    assert_eq!(pending, vec!["z", "m"]);
}

#[test]
fn test_failed_targets() {
    let mut s = make_state(vec!["a", "b", "c"], vec!["n1"]);
    s.set_target_status("a", "n1", TargetStatus::Failed("err1".into()));
    s.set_target_status("b", "n1", TargetStatus::Done(1));
    s.set_target_status("c", "n1", TargetStatus::Failed("err2".into()));

    let failed = s.failed_targets();
    assert_eq!(failed.len(), 2);
}

#[test]
fn test_active_targets_grouped_by_node_sorted() {
    let mut s = make_state(vec!["z", "a", "m", "b"], vec!["n1", "n2"]);
    s.set_target_status("z", "n1", TargetStatus::Building);
    s.set_target_status("m", "n1", TargetStatus::Done(1));
    s.set_target_status("b", "n2", TargetStatus::Building);
    s.set_target_status("a", "n2", TargetStatus::Failed("err".into()));

    let active = s.active_targets();
    assert_eq!(active, vec!["m", "z", "a", "b"]);
}

#[test]
fn test_active_targets_excludes_pending() {
    let mut s = make_state(vec!["a", "b", "c"], vec!["n1"]);
    s.set_target_status("a", "n1", TargetStatus::Building);
    let active = s.active_targets();
    assert_eq!(active, vec!["a"]);
}

#[test]
fn test_is_complete_mixed() {
    let mut s = make_state(vec!["a", "b", "c"], vec!["n1"]);
    s.set_target_status("a", "n1", TargetStatus::Done(1));
    s.set_target_status("b", "n1", TargetStatus::Failed("err".into()));
    assert!(!s.is_complete());

    s.set_target_status("c", "n1", TargetStatus::Done(2));
    assert!(s.is_complete());
}

#[test]
fn cancelled_and_blocked_count_as_complete() {
    let mut s = make_state(vec!["a", "b", "c"], vec!["n1"]);
    s.set_target_status("a", "n1", TargetStatus::Done(1));
    assert!(!s.is_complete());
    s.set_target_status("b", "", TargetStatus::Cancelled);
    assert!(!s.is_complete());
    s.set_target_status("c", "", TargetStatus::Blocked(vec!["a".into()]));
    assert!(s.is_complete());
    assert_eq!(s.count_skipped(), 2);
}

#[test]
fn unassigned_targets_are_selectable() {
    let mut s = make_state(vec!["a", "b"], vec!["n1"]);
    s.set_target_status("a", "n1", TargetStatus::Building);
    s.set_target_status("b", "", TargetStatus::Blocked(vec!["a".into()]));

    assert_eq!(s.unassigned_targets().len(), 1);
    assert_eq!(s.active_targets(), vec!["a", "b"]);
}

#[test]
fn a_target_on_an_unknown_node_is_still_rendered() {
    let mut s = make_state(vec!["a"], vec!["n1"]);
    s.set_target_status("a", "ghost-node", TargetStatus::Building);
    assert_eq!(s.unassigned_targets().len(), 1);
    assert_eq!(s.active_targets(), vec!["a"]);
}

#[test]
fn pending_targets_are_not_unassigned() {
    let s = make_state(vec!["a"], vec!["n1"]);
    assert!(s.unassigned_targets().is_empty());
}

#[test]
fn every_mutation_bumps_the_version() {
    let mut s = make_state(vec!["a"], vec!["n1"]);
    let v0 = s.version();
    s.set_target_status("a", "n1", TargetStatus::Building);
    let v1 = s.version();
    assert!(v1 > v0, "status change must be observable");
    s.update_progress("a", BuildProgress::default());
    assert!(s.version() > v1, "progress change must be observable");
}

#[test]
fn terminal_states_are_classified() {
    assert!(TargetStatus::Done(1).is_terminal());
    assert!(TargetStatus::Failed("x".into()).is_terminal());
    assert!(TargetStatus::Cancelled.is_terminal());
    assert!(TargetStatus::Blocked(vec![]).is_terminal());
    assert!(!TargetStatus::Pending.is_terminal());
    assert!(!TargetStatus::Building.is_terminal());
}

#[test]
fn test_node_reassignment() {
    let mut s = make_state(vec!["a"], vec!["n1", "n2"]);
    s.set_target_status("a", "n1", TargetStatus::Building);
    assert_eq!(s.targets.get("a").unwrap().node, "n1");

    s.set_target_status("a", "n2", TargetStatus::Building);
    assert_eq!(s.targets.get("a").unwrap().node, "n2");
}
