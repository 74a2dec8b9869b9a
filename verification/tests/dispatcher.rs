use dbake::builder::node::ShardNode;
use dbake::dag::DagQueue;
use dbake::executor::bake::BuildError;
use dbake::names::NameMap;
use dbake::scheduler::dispatcher::{
    begin_build, build_end, cycle_warning_lines, finish_build, record_end, settle_unfinished,
    was_cancelled, worker_turn, BuildRequest, Cause, Turn,
};
use dbake::tui::state::{DashboardState, TargetStatus};

fn node(name: &str, platforms: &[&str]) -> ShardNode {
    ShardNode {
        name: name.to_string(),
        shard_builder: format!("shard-{name}"),
        platforms: platforms.iter().map(|s| s.to_string()).collect(),
    }
}

fn names(v: &[&str]) -> Vec<String> {
    v.iter().map(|s| s.to_string()).collect()
}

fn state_for(targets: &[&str], nodes: &[&str]) -> DashboardState {
    DashboardState::new(names(targets), names(nodes))
}

struct Run {
    state: DashboardState,
    built: Vec<String>,
    lines: Vec<String>,
}

fn run<F: Fn(&str) -> Vec<Cause>>(
    nodes: Vec<ShardNode>,
    dag: DagQueue,
    outcome: F,
    fail_fast: bool,
    mut state: DashboardState,
    mut cancelled: bool,
) -> Run {
    let mut queue = dag.with_nodes(nodes.iter().map(|n| n.platforms.clone()).collect());
    let mut built = Vec::new();
    let mut gone = vec![false; nodes.len()];
    let mut busy: Vec<Option<BuildRequest>> = nodes.iter().map(|_| None).collect();
    let mut rounds = 0;
    while gone.iter().any(|g| !g) {
        rounds += 1;
        assert!(rounds < 1000, "dispatch must not hang");
        for i in 0..nodes.len() {
            if gone[i] || busy[i].is_some() {
                continue;
            }
            match worker_turn(&mut queue, &nodes[i], "/tmp/dbake-logs/1", cancelled) {
                Turn::Exit => gone[i] = true,
                Turn::Wait => {}
                Turn::Build(request) => {
                    begin_build(&mut state, &nodes[i].name, &request);
                    built.push(request.target.clone());
                    busy[i] = Some(request);
                }
            }
        }
        for i in 0..nodes.len() {
            if let Some(request) = busy[i].take() {
                let end = build_end(&outcome(&request.target));
                record_end(&mut state, &nodes[i].name, &request.target, &end, 0);
                if finish_build(&mut queue, &request.target, &end, fail_fast, cancelled) {
                    cancelled = true;
                }
            }
        }
    }
    let lines = settle_unfinished(&queue, &mut state);
    Run {
        state,
        built,
        lines,
    }
}

fn boom() -> Vec<Cause> {
    vec![Cause::Other("boom".to_string())]
}

#[test]
fn every_target_is_built_exactly_once_across_nodes() {
    let targets = names(&["a", "b", "c", "d", "e"]);
    let dag = DagQueue::new(targets.clone(), NameMap::new(), NameMap::new());
    let state = state_for(&["a", "b", "c", "d", "e"], &["n1", "n2", "n3"]);

    let done = run(
        vec![
            node("n1", &["linux/amd64"]),
            node("n2", &["linux/amd64"]),
            node("n3", &["linux/amd64"]),
        ],
        dag,
        |_| vec![],
        false,
        state,
        false,
    );

    let mut seen = done.built.clone();
    seen.sort();
    assert_eq!(seen, targets, "each target built once, no duplicates");
    assert!(done.state.is_complete());
    assert_eq!(done.state.count_done(), 5);
}

#[test]
fn a_failure_blocks_its_dependents() {
    let deps = NameMap::from_pairs(vec![
        ("app".to_string(), names(&["base"])),
        ("tests".to_string(), names(&["app"])),
    ]);
    let dag = DagQueue::new(names(&["base", "app", "tests"]), deps, NameMap::new());
    let state = state_for(&["base", "app", "tests"], &["n1"]);

    let done = run(
        vec![node("n1", &["linux/amd64"])],
        dag,
        |t| if t == "base" { boom() } else { vec![] },
        false,
        state,
        false,
    );

    assert_eq!(done.built, vec!["base".to_string()]);
    let s = &done.state;
    assert_eq!(s.count_failed(), 1);
    assert!(s.is_complete(), "dependents must reach a terminal state");
    assert!(matches!(
        s.targets.get("app").unwrap().status,
        TargetStatus::Blocked(ref d) if d == &names(&["base"])
    ));
    assert_eq!(
        done.lines,
        vec!["\nSkipped 2 targets blocked by failed dependencies: app (needs base), tests (needs base)"]
    );
}

#[test]
fn an_unclaimable_platform_target_does_not_hang() {
    let platforms = NameMap::from_pairs(vec![("arm_only".to_string(), names(&["linux/arm64"]))]);
    let dag = DagQueue::new(names(&["a", "arm_only"]), NameMap::new(), platforms);
    let state = state_for(&["a", "arm_only"], &["n1", "n2"]);

    let done = run(
        vec![node("n1", &["linux/amd64"]), node("n2", &["linux/amd64"])],
        dag,
        |_| vec![],
        false,
        state,
        false,
    );

    let s = &done.state;
    assert!(s.is_complete(), "unbuildable target must still settle");
    assert_eq!(s.count_done(), 1);
    assert_eq!(s.count_skipped(), 1);
    assert_eq!(
        done.lines,
        vec!["\nSkipped 1 targets that never started: arm_only"]
    );
}

#[test]
fn cancellation_drives_every_target_terminal() {
    let dag = DagQueue::new(names(&["a", "b", "c", "d"]), NameMap::new(), NameMap::new());
    let state = state_for(&["a", "b", "c", "d"], &["n1"]);

    let done = run(
        vec![node("n1", &["linux/amd64"])],
        dag,
        |_| vec![],
        false,
        state,
        true,
    );

    let s = &done.state;
    assert!(
        s.is_complete(),
        "no target may be left Pending after a cancel"
    );
    assert_eq!(s.count_skipped(), 4);
}

#[test]
fn fail_fast_stops_scheduling_further_work() {
    let targets: Vec<&str> = vec!["a", "b", "c", "d", "e", "f", "g", "h"];
    let dag = DagQueue::new(names(&targets), NameMap::new(), NameMap::new());
    let state = state_for(&targets, &["n1"]);

    let done = run(
        vec![node("n1", &["linux/amd64"])],
        dag,
        |t| if t == "a" { boom() } else { vec![] },
        true,
        state,
        false,
    );

    assert!(
        done.built.len() < targets.len(),
        "--fail-fast must stop scheduling, but every target was started"
    );
    assert!(done.state.is_complete());
}

#[test]
fn dependencies_are_built_before_dependents() {
    let deps = NameMap::from_pairs(vec![
        ("app".to_string(), names(&["base"])),
        ("tests".to_string(), names(&["app"])),
    ]);
    let dag = DagQueue::new(names(&["base", "app", "tests"]), deps, NameMap::new());
    let state = state_for(&["base", "app", "tests"], &["n1", "n2"]);

    let done = run(
        vec![node("n1", &["linux/amd64"]), node("n2", &["linux/amd64"])],
        dag,
        |_| vec![],
        false,
        state,
        false,
    );

    assert_eq!(done.built, names(&["base", "app", "tests"]));
    assert!(done.state.is_complete());
    assert!(done.lines.is_empty());
}

#[test]
fn a_turn_hands_out_a_whole_request() {
    let platforms = NameMap::from_pairs(vec![("a/b".to_string(), names(&["linux/arm64"]))]);
    let mut queue = DagQueue::new(names(&["a/b"]), NameMap::new(), platforms)
        .with_nodes(vec![names(&["linux/arm64"])]);
    let n = node("n1", &["linux/arm64"]);
    match worker_turn(&mut queue, &n, "/logs", false) {
        Turn::Build(request) => {
            assert_eq!(request.shard_builder, "shard-n1");
            assert_eq!(request.target, "a/b");
            assert_eq!(request.platforms, names(&["linux/arm64"]));
            assert!(request.log_path.starts_with("/logs/"));
            assert!(request.log_path.ends_with(".log"));
            assert!(!request.log_path["/logs/".len()..].contains('/'));
        }
        _ => panic!("the target is due"),
    }
    assert!(matches!(
        worker_turn(&mut queue, &n, "/logs", false),
        Turn::Wait
    ));
    assert!(matches!(
        worker_turn(&mut queue, &n, "/logs", true),
        Turn::Exit
    ));
    queue.complete("a/b");
    assert!(matches!(
        worker_turn(&mut queue, &n, "/logs", false),
        Turn::Exit
    ));
}

#[test]
fn a_cancelled_build_is_told_by_any_of_its_causes() {
    let deep = vec![
        Cause::Other("outer".to_string()),
        Cause::Build(BuildError::Cancelled),
    ];
    assert!(was_cancelled(&deep));
    assert!(!was_cancelled(&boom()));
    assert!(!was_cancelled(&[]));

    let mut state = state_for(&["a", "b"], &["n1"]);
    record_end(&mut state, "n1", "a", &build_end(&deep), 3);
    let failed = vec![
        Cause::Build(BuildError::Failed {
            target: "b".to_string(),
            log: "/l/b.log".to_string(),
        }),
        Cause::Other("inner".to_string()),
    ];
    record_end(&mut state, "n1", "b", &build_end(&failed), 3);
    assert!(matches!(
        state.targets.get("a").unwrap().status,
        TargetStatus::Cancelled
    ));
    assert!(matches!(
        state.targets.get("b").unwrap().status,
        TargetStatus::Failed(ref e) if *e == failed[0].message()
    ));
}

#[test]
fn a_cancelled_dependency_does_not_block() {
    let deps = NameMap::from_pairs(vec![("app".to_string(), names(&["base"]))]);
    let dag = DagQueue::new(names(&["base", "app"]), deps, NameMap::new());
    let done = run(
        vec![node("n1", &["linux/amd64"])],
        dag,
        |_| vec![Cause::Build(BuildError::Cancelled)],
        false,
        state_for(&["base", "app"], &["n1"]),
        false,
    );
    assert!(matches!(
        done.state.targets.get("app").unwrap().status,
        TargetStatus::Cancelled
    ));
    assert_eq!(done.state.count_failed(), 0);
    assert_eq!(
        done.lines,
        vec!["\nSkipped 1 targets that never started: app"]
    );
}

#[test]
fn cycles_are_shown_from_end_to_end() {
    assert!(cycle_warning_lines(&vec![]).is_empty());
    assert_eq!(
        cycle_warning_lines(&vec![names(&["a", "b"])]),
        vec![
            "\nWarning: dependency cycles detected:",
            "  a → b → a",
            "Targets in cycles will never be built.\n",
        ]
    );
}
