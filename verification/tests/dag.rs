use dbake::dag::DagQueue;
use dbake::names::NameMap;
use dbake::platform::{platform_base, platform_matches, platforms_compatible};

fn no_platforms() -> NameMap<Vec<String>> {
    NameMap::new()
}

#[test]
fn test_independent_targets() {
    let targets = vec!["a".into(), "b".into(), "c".into()];
    let mut q = DagQueue::new(targets, NameMap::new(), no_platforms());

    assert_eq!(q.ready_count(), 3);
    let all = vec!["linux/amd64".into()];
    assert!(q.claim_for_platforms(&all).is_some());
    assert!(q.claim_for_platforms(&all).is_some());
    assert!(q.claim_for_platforms(&all).is_some());
    assert!(q.claim_for_platforms(&all).is_none());
}

#[test]
fn test_linear_chain() {
    let targets = vec!["a".into(), "b".into(), "c".into()];
    let deps = NameMap::from_pairs(vec![
        ("b".to_string(), vec!["a".to_string()]),
        ("c".to_string(), vec!["b".to_string()]),
    ]);
    let mut q = DagQueue::new(targets, deps, no_platforms());
    let any = vec!["linux/amd64".into()];

    assert_eq!(q.ready_count(), 1);
    let t = q.claim_for_platforms(&any).unwrap();
    assert_eq!(t, "a");

    q.complete("a");
    assert_eq!(q.ready_count(), 1);
    let t = q.claim_for_platforms(&any).unwrap();
    assert_eq!(t, "b");

    q.complete("b");
    let t = q.claim_for_platforms(&any).unwrap();
    assert_eq!(t, "c");

    q.complete("c");
    assert!(q.is_done());
}

#[test]
fn test_diamond_dag() {
    let targets = vec!["a".into(), "b".into(), "c".into(), "d".into()];
    let deps = NameMap::from_pairs(vec![
        ("b".to_string(), vec!["a".to_string()]),
        ("c".to_string(), vec!["a".to_string()]),
        ("d".to_string(), vec!["b".to_string(), "c".to_string()]),
    ]);
    let mut q = DagQueue::new(targets, deps, no_platforms());
    let any = vec!["linux/amd64".into()];

    assert_eq!(q.ready_count(), 1);
    q.claim_for_platforms(&any).unwrap();
    q.complete("a");
    assert_eq!(q.ready_count(), 2);

    let t1 = q.claim_for_platforms(&any).unwrap();
    let t2 = q.claim_for_platforms(&any).unwrap();
    assert!(q.claim_for_platforms(&any).is_none());

    q.complete(&t1);
    assert_eq!(q.ready_count(), 0);
    q.complete(&t2);
    assert_eq!(q.ready_count(), 1);

    q.claim_for_platforms(&any).unwrap();
    q.complete("d");
    assert!(q.is_done());
}

#[test]
fn test_failure_blocks_dependents() {
    let targets = vec!["a".into(), "b".into(), "c".into()];
    let deps = NameMap::from_pairs(vec![
        ("b".to_string(), vec!["a".to_string()]),
        ("c".to_string(), vec!["b".to_string()]),
    ]);
    let mut q = DagQueue::new(targets, deps, no_platforms());
    let any = vec!["linux/amd64".into()];

    q.claim_for_platforms(&any).unwrap();
    q.fail("a");
    assert_eq!(q.ready_count(), 0);
    assert!(q.is_stalled());
    assert_eq!(
        q.unfinished_targets(),
        vec!["b".to_string(), "c".to_string()]
    );
}

#[test]
fn test_deps_outside_target_set_ignored() {
    let targets = vec!["a".into(), "b".into()];
    let deps = NameMap::from_pairs(vec![("b".to_string(), vec!["external".to_string()])]);
    let q = DagQueue::new(targets, deps, no_platforms());
    assert_eq!(q.ready_count(), 2);
}

#[test]
fn test_platform_filtering() {
    let targets = vec!["arm-app".into(), "amd-app".into(), "any-app".into()];
    let platforms = NameMap::from_pairs(vec![
        ("arm-app".to_string(), vec!["linux/arm64".to_string()]),
        ("amd-app".to_string(), vec!["linux/amd64".to_string()]),
    ]);
    let mut q = DagQueue::new(targets, NameMap::new(), platforms);

    let arm_node = vec!["linux/arm64".into()];
    let amd_node = vec!["linux/amd64".into()];

    let t = q.claim_for_platforms(&arm_node).unwrap();
    assert_eq!(t, "arm-app");

    let t = q.claim_for_platforms(&amd_node).unwrap();
    assert_eq!(t, "amd-app");

    let t = q.claim_for_platforms(&arm_node).unwrap();
    assert_eq!(t, "any-app");

    assert!(q.claim_for_platforms(&arm_node).is_none());
    assert!(q.claim_for_platforms(&amd_node).is_none());
}

#[test]
fn test_platform_variant_matching() {
    let targets = vec!["app".into()];
    let platforms = NameMap::from_pairs(vec![("app".to_string(), vec!["linux/amd64".to_string()])]);
    let mut q = DagQueue::new(targets, NameMap::new(), platforms);

    let node = vec!["linux/amd64/v2".into()];
    let t = q.claim_for_platforms(&node);
    assert!(t.is_some());
}

#[test]
fn test_no_compatible_node_skips() {
    let targets = vec!["arm-only".into()];
    let platforms = NameMap::from_pairs(vec![("arm-only".to_string(), vec!["linux/arm64".to_string()])]);
    let mut q = DagQueue::new(targets, NameMap::new(), platforms);

    let amd_node = vec!["linux/amd64".into()];
    assert!(q.claim_for_platforms(&amd_node).is_none());
    assert_eq!(q.ready_count(), 1);
}

#[test]
fn test_empty_targets() {
    let q = DagQueue::new(vec![], NameMap::new(), no_platforms());
    assert!(q.is_done());
    assert!(!q.is_stalled());
}

#[test]
fn test_single_target() {
    let mut q = DagQueue::new(vec!["solo".into()], NameMap::new(), no_platforms());
    let any = vec!["linux/amd64".into()];
    let t = q.claim_for_platforms(&any).unwrap();
    assert_eq!(t, "solo");
    q.complete("solo");
    assert!(q.is_done());
}

#[test]
fn test_self_dependency_filtered() {
    let deps = NameMap::from_pairs(vec![("a".to_string(), vec!["a".to_string()])]);
    let mut q = DagQueue::new(vec!["a".into()], deps, no_platforms());
    let any = vec!["linux/amd64".into()];
    assert!(q.claim_for_platforms(&any).is_some());
}

#[test]
fn test_cycle_detection() {
    let deps = NameMap::from_pairs(vec![
        ("a".to_string(), vec!["b".to_string()]),
        ("b".to_string(), vec!["a".to_string()]),
    ]);
    let q = DagQueue::new(vec!["a".into(), "b".into()], deps, no_platforms());
    let cycles = q.detect_cycles();
    assert!(!cycles.is_empty());
}

#[test]
fn test_diamond_partial_failure() {
    let deps = NameMap::from_pairs(vec![
        ("b".to_string(), vec!["a".to_string()]),
        ("c".to_string(), vec!["a".to_string()]),
        ("d".to_string(), vec!["b".to_string(), "c".to_string()]),
    ]);
    let mut q = DagQueue::new(
        vec!["a".into(), "b".into(), "c".into(), "d".into()],
        deps,
        no_platforms(),
    );
    let any = vec!["linux/amd64".into()];

    q.claim_for_platforms(&any);
    q.complete("a");

    q.claim_for_platforms(&any);
    q.claim_for_platforms(&any);

    q.fail("b");
    q.complete("c");

    assert!(q.claim_for_platforms(&any).is_none());
    assert!(!q.is_done());
    assert!(q.unfinished_targets().contains(&"d".to_string()));
    assert_eq!(q.failed_dependencies("d"), vec!["b".to_string()]);
}

#[test]
fn test_platforms_both_empty() {
    assert!(platforms_compatible(&[], &[]));
}

#[test]
fn test_node_platforms_empty_target_constrained() {
    assert!(!platforms_compatible(
        &[],
        &["linux/amd64".to_string()]
    ));
}

#[test]
fn explicit_variants_must_match_exactly() {
    assert!(!platform_matches("linux/arm/v7", "linux/arm/v6"));
    assert!(platform_matches("linux/arm/v7", "linux/arm/v7"));
}

#[test]
fn an_unspecified_variant_matches_any() {
    assert!(platform_matches("linux/arm64", "linux/arm64/v8"));
    assert!(platform_matches("linux/amd64/v3", "linux/amd64"));
    assert!(platform_matches("linux/amd64", "linux/amd64"));
    assert!(!platform_matches("linux/amd64", "linux/arm64"));
}

#[test]
fn test_platform_base_edge_cases() {
    assert_eq!(platform_base(""), "");
    assert_eq!(platform_base("linux"), "linux");
    assert_eq!(platform_base("linux/amd64"), "linux/amd64");
    assert_eq!(platform_base("linux/amd64/v2"), "linux/amd64");
    assert_eq!(platform_base("linux/arm/v7/extra"), "linux/arm");
    assert_eq!(platform_base("/amd64"), "/amd64");
}

#[test]
fn unclaimable_target_is_stalled_not_a_deadlock() {
    let targets = vec!["a".into(), "arm_only".into()];
    let platforms = NameMap::from_pairs(vec![("arm_only".to_string(), vec!["linux/arm64".to_string()])]);
    let mut q = DagQueue::new(targets, NameMap::new(), platforms)
        .with_nodes(vec![vec!["linux/amd64".to_string()]]);

    let amd = vec!["linux/amd64".to_string()];
    let t = q.claim_for_platforms(&amd).unwrap();
    q.complete(&t);

    assert!(q.claim_for_platforms(&amd).is_none());
    assert!(!q.is_done());
    assert!(q.is_stalled(), "worker must be able to exit its loop");
}

#[test]
fn unsatisfiable_targets_are_reported_with_their_platforms() {
    let targets = vec!["a".into(), "arm_only".into()];
    let platforms = NameMap::from_pairs(vec![("arm_only".to_string(), vec!["linux/arm64".to_string()])]);
    let q = DagQueue::new(targets, NameMap::new(), platforms)
        .with_nodes(vec![vec!["linux/amd64".to_string()]]);

    assert_eq!(
        q.unsatisfiable_targets(),
        vec![("arm_only".to_string(), vec!["linux/arm64".to_string()])]
    );
}

#[test]
fn multi_arch_node_satisfies_everything() {
    let targets = vec!["arm".into(), "amd".into()];
    let platforms = NameMap::from_pairs(vec![
        ("arm".to_string(), vec!["linux/arm64".to_string()]),
        ("amd".to_string(), vec!["linux/amd64".to_string()]),
    ]);
    let q = DagQueue::new(targets, NameMap::new(), platforms).with_nodes(vec![vec![
        "linux/amd64".to_string(),
        "linux/arm64".to_string(),
    ]]);
    assert!(q.unsatisfiable_targets().is_empty());
    assert!(!q.is_stalled());
}

#[test]
fn without_node_information_nothing_is_unsatisfiable() {
    let targets = vec!["arm".into(), "amd".into()];
    let platforms = NameMap::from_pairs(vec![
        ("arm".to_string(), vec!["linux/arm64".to_string()]),
        ("amd".to_string(), vec!["linux/amd64".to_string()]),
    ]);
    let q = DagQueue::new(targets, NameMap::new(), platforms);

    assert!(q.unsatisfiable_targets().is_empty());
    assert!(!q.is_stalled(), "ready work must not look stalled");
    let q = q.with_nodes(vec![vec!["linux/amd64".to_string()]]);
    assert_eq!(
        q.unsatisfiable_targets(),
        vec![("arm".to_string(), vec!["linux/arm64".to_string()])]
    );
}

#[test]
fn in_flight_work_is_never_stalled() {
    let mut q = DagQueue::new(vec!["a".into(), "b".into()], NameMap::new(), no_platforms())
        .with_nodes(vec![vec!["linux/amd64".to_string()]]);
    let amd = vec!["linux/amd64".to_string()];
    q.claim_for_platforms(&amd).unwrap();
    q.claim_for_platforms(&amd).unwrap();
    assert!(!q.is_stalled());
}

#[test]
fn unfinished_targets_covers_pending_and_blocked() {
    let deps = NameMap::from_pairs(vec![("b".to_string(), vec!["a".to_string()])]);
    let mut q = DagQueue::new(
        vec!["a".into(), "b".into(), "c".into()],
        deps,
        no_platforms(),
    );
    let amd = vec!["linux/amd64".to_string()];
    let t = q.claim_for_platforms(&amd).unwrap();
    q.complete(&t);

    let unfinished = q.unfinished_targets();
    assert!(unfinished.contains(&"b".to_string()));
    assert!(unfinished.contains(&"c".to_string()));
    assert!(!unfinished.contains(&"a".to_string()));
}

#[test]
fn unfinished_targets_is_empty_when_everything_settled() {
    let mut q = DagQueue::new(vec!["a".into(), "b".into()], NameMap::new(), no_platforms());
    q.complete("a");
    q.fail("b");
    assert!(q.unfinished_targets().is_empty());
    assert!(q.is_done());
}

#[test]
fn failed_dependencies_are_reported_transitively() {
    let deps = NameMap::from_pairs(vec![
        ("b".to_string(), vec!["a".to_string()]),
        ("c".to_string(), vec!["b".to_string()]),
    ]);
    let mut q = DagQueue::new(
        vec!["a".into(), "b".into(), "c".into()],
        deps,
        no_platforms(),
    );
    let amd = vec!["linux/amd64".to_string()];
    q.claim_for_platforms(&amd);
    q.fail("a");

    assert_eq!(q.failed_dependencies("b"), vec!["a".to_string()]);
    assert_eq!(q.failed_dependencies("c"), vec!["a".to_string()]);
}

#[test]
fn a_cancelled_dependency_is_not_reported_as_failed() {
    let deps = NameMap::from_pairs(vec![
        ("b".to_string(), vec!["a".to_string()]),
        ("d".to_string(), vec!["c".to_string()]),
    ]);
    let mut q = DagQueue::new(
        vec!["a".into(), "b".into(), "c".into(), "d".into()],
        deps,
        no_platforms(),
    );
    let amd = vec!["linux/amd64".to_string()];
    q.claim_for_platforms(&amd);
    q.claim_for_platforms(&amd);
    q.cancel("a");
    q.fail("c");

    assert!(
        q.failed_dependencies("b").is_empty(),
        "a cancelled dependency is not a failure"
    );
    assert_eq!(q.failed_dependencies("d"), vec!["c".to_string()]);
}

#[test]
fn cancelled_targets_are_terminal() {
    let mut q = DagQueue::new(vec!["a".into(), "b".into()], NameMap::new(), no_platforms());
    q.complete("a");
    assert!(!q.is_done());
    q.cancel("b");
    assert!(q.is_done(), "cancelled targets must not keep the run open");
    assert!(q.unfinished_targets().is_empty());
}

#[test]
fn test_wide_fanout() {
    let mut targets = vec!["root".to_string()];
    let mut deps = NameMap::new();
    for i in 0..50 {
        let name = format!("child_{}", i);
        deps.insert(name.clone(), vec!["root".to_string()]);
        targets.push(name);
    }
    let mut q = DagQueue::new(targets, deps, no_platforms());
    let any = vec!["linux/amd64".into()];

    assert_eq!(q.ready_count(), 1);
    q.claim_for_platforms(&any);
    q.complete("root");
    assert_eq!(q.ready_count(), 50);
}
