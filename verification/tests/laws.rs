use dbake::dag::DagQueue;
use dbake::executor::progress::ProgressParser;
use dbake::names::NameMap;
use dbake::plan::nodes::effective_platforms;
use dbake::builder::node::Node;
use dbake::platform::{platform_base, platform_matches, platforms_compatible};
use dbake::selection::{expand_deps, select_targets, SelectionInput};
use dbake::tui::state::{DashboardState, TargetStatus};

fn names(v: &[&str]) -> Vec<String> {
    v.iter().map(|s| s.to_string()).collect()
}

fn queue(targets: &[&str], deps: &[(&str, &[&str])]) -> DagQueue {
    let deps = deps
        .iter()
        .map(|(t, d)| (t.to_string(), names(d)))
        .collect();
    DagQueue::new(names(targets), NameMap::from_pairs(deps), NameMap::new())
}

#[test]
fn cycles_apart_are_all_found() {
    let q = queue(
        &["a", "b", "c", "d", "e"],
        &[
            ("a", &["b"]),
            ("b", &["a"]),
            ("c", &["d"]),
            ("d", &["c"]),
            ("e", &["a", "c"]),
        ],
    );
    let mut cycles = q.detect_cycles();
    for cycle in &mut cycles {
        cycle.sort();
    }
    cycles.sort();
    assert_eq!(cycles, vec![names(&["a", "b"]), names(&["c", "d"])]);
}

#[test]
fn cycles_that_share_a_target_are_opened_one_by_one() {
    let q = queue(
        &["a", "b", "c"],
        &[("a", &["b", "c"]), ("b", &["a"]), ("c", &["a"])],
    );
    let cycles = q.detect_cycles();
    assert_eq!(cycles.len(), 2);
    let closing: Vec<(&String, &String)> = cycles
        .iter()
        .map(|c| (c.last().unwrap(), &c[0]))
        .collect();
    assert_ne!(closing[0], closing[1]);
    assert!(queue(&["a", "b"], &[("a", &["b"])]).detect_cycles().is_empty());
}

#[test]
fn a_target_is_claimed_once_and_after_its_dependencies() {
    let mut q = queue(&["app", "base"], &[("app", &["base"])]);
    let any = names(&["linux/amd64"]);
    assert_eq!(q.claim_for_platforms(&any), Some("base".to_string()));
    assert_eq!(q.claim_for_platforms(&any), None);
    q.complete("base");
    assert_eq!(q.claim_for_platforms(&any), Some("app".to_string()));
    q.fail("app");
    assert_eq!(q.claim_for_platforms(&any), None);
    assert!(q.is_done());
    assert!(q.unfinished_targets().is_empty());
}

#[test]
fn a_cancelled_build_blocks_nothing_by_failing() {
    let mut q = queue(&["app", "base"], &[("app", &["base"])]);
    q.claim_for_platforms(&names(&["linux/amd64"]));
    q.cancel("base");
    assert!(q.failed_dependencies("app").is_empty());
    assert!(q.is_stalled());
}

#[test]
fn a_failure_blocks_through_others() {
    let mut q = queue(
        &["a", "b", "c"],
        &[("b", &["a"]), ("c", &["b"])],
    );
    q.claim_for_platforms(&names(&["linux/amd64"]));
    q.fail("a");
    assert_eq!(q.failed_dependencies("c"), names(&["a"]));
    assert_eq!(q.ready_count(), 0);
    assert_eq!(q.unfinished_targets(), names(&["b", "c"]));
}

#[test]
fn a_platform_matches_itself_and_in_both_directions() {
    let all = ["linux/amd64", "linux/amd64/v2", "linux/arm/v7", "linux/arm/v6", "windows"];
    for a in all {
        assert!(platform_matches(a, a));
        assert!(platforms_compatible(&names(&[a]), &names(&[a])));
        assert!(platform_matches(platform_base(a), a));
        for b in all {
            assert_eq!(platform_matches(a, b), platform_matches(b, a));
        }
    }
}

#[test]
fn a_node_builds_only_for_what_it_has() {
    let node = Node {
        name: "n".to_string(),
        endpoint: "tcp://n:1".to_string(),
        platforms: names(&["linux/amd64", "linux/arm64"]),
    };
    let asked = Some(names(&["linux/arm64", "linux/riscv64"]));
    for p in effective_platforms(&node, &asked) {
        assert!(node.platforms.contains(&p));
    }
}

#[test]
fn the_number_of_steps_never_falls() {
    let mut parser = ProgressParser::new();
    let total = |p: &mut ProgressParser, line: &str| p.parse_line(line).map(|x| x.total_steps);
    assert_eq!(total(&mut parser, "#5 [build 2/7] RUN make"), Some(7));
    assert_eq!(total(&mut parser, "#6 [final 1/3] COPY . ."), Some(7));
    assert_eq!(total(&mut parser, "some other line"), None);
    assert_eq!(total(&mut parser, "#7 [final 2/9] RUN x"), Some(9));
}

#[test]
fn a_new_board_waits_for_all_its_targets() {
    let mut s = DashboardState::new(names(&["a", "b"]), names(&["n1"]));
    assert_eq!((s.total, s.count_pending(), s.count_terminal()), (2, 2, 0));
    assert!(s.active_targets().is_empty());
    s.set_target_status("a", "n1", TargetStatus::Done(1));
    s.set_target_status("b", "n1", TargetStatus::Failed("x".to_string()));
    assert!(s.is_complete());
    assert_eq!(s.active_targets(), vec!["a", "b"]);
    assert_eq!(s.failed_targets()[0].name, "b");
}

#[test]
fn selected_targets_bring_their_dependencies() {
    let all = names(&["a", "b", "c"]);
    let deps = NameMap::from_pairs(vec![
        ("a".to_string(), names(&["b", "gone"])),
        ("b".to_string(), names(&["c"])),
    ]);
    let outcome = select_targets(SelectionInput {
        all_targets: &all,
        deps: &deps,
        profiles: None,
        profiles_wanted: &[],
        requested: &names(&["a"]),
        exclude: &[],
        with_deps: true,
        deps_are_build_deps: true,
    })
    .unwrap();
    assert_eq!(outcome.targets, names(&["a", "b", "c"]));
    assert_eq!(
        expand_deps(&names(&["a"]), &deps),
        names(&["a", "b", "c", "gone"])
    );
}

#[test]
fn a_name_outside_the_targets_settles_nothing() {
    let mut q = queue(&["a"], &[]);
    q.complete("ghost");
    assert!(!q.is_done());
    assert_eq!(q.unfinished_targets(), names(&["a"]));
}

#[test]
fn a_cancelled_target_is_not_offered_again() {
    let mut q = queue(&["a", "b"], &[("b", &["a"])]);
    assert_eq!(q.claim_for_platforms(&[]), Some("a".to_string()));
    q.cancel("b");
    q.complete("a");
    assert_eq!(q.ready_count(), 0);
    assert_eq!(q.claim_for_platforms(&[]), None);
    assert!(q.is_done());
}

#[test]
fn only_a_start_changes_when_a_target_was_started() {
    let mut s = DashboardState::new(names(&["a", "b"]), names(&["n1"]));
    let start = s.start_time;
    s.set_target_status("a", "n1", TargetStatus::Building);
    let started = s.info("a").unwrap().started_at;
    assert!(started.is_some());
    s.set_log_path("a", "/l/a.log".to_string());
    s.set_target_status("b", "n1", TargetStatus::Building);
    s.set_target_status("a", "n1", TargetStatus::Done(1));
    s.update_progress("a", Default::default());
    assert_eq!(s.info("a").unwrap().started_at, started);
    assert_eq!(s.start_time, start);
}
