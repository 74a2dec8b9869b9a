use dbake::bakeprint::{BakePrint, BakeTarget, CacheEntry};
use dbake::builder::node::Node;
use dbake::dag::DagQueue;
use dbake::names::NameMap;
use dbake::plan::nodes::{
    check_satisfiable, choose_nodes, effective_platforms, greet_builder, node_names,
    node_platform_lists, parse_platforms, shard_line, shard_platform, PlanError,
};
use dbake::plan::outcome::{
    bake_progress, close_run, dispatch_line, exit_code, uses_screen, Outcome,
};
use dbake::plan::targets::{
    active_builder, all_target_names, cache_configs, report_targets, scoped_deps,
    target_platforms, wanted, BuilderFault,
};
use dbake::tui::state::{DashboardState, TargetStatus};

fn names(v: &[&str]) -> Vec<String> {
    v.iter().map(|s| s.to_string()).collect()
}

fn keys<V>(map: &NameMap<V>) -> Vec<String> {
    (0..map.len()).map(|i| map.key_at(i).clone()).collect()
}

fn node(name: &str, platforms: &[&str]) -> Node {
    Node {
        name: name.to_string(),
        endpoint: format!("tcp://{name}:1234"),
        platforms: names(platforms),
    }
}

fn target(platforms: &[&str], cache_from: &[&str]) -> BakeTarget {
    BakeTarget {
        context: None,
        dockerfile: None,
        cache_from: cache_from
            .iter()
            .map(|c| CacheEntry::String(c.to_string()))
            .collect(),
        cache_to: vec![],
        no_cache: None,
        push: None,
        load: None,
        tags: vec![],
        platforms: names(platforms),
    }
}

fn print() -> BakePrint {
    BakePrint {
        group: NameMap::new(),
        target: NameMap::from_pairs(vec![
            ("web".to_string(), target(&["linux/arm64"], &[])),
            ("base".to_string(), target(&[], &["type=gha"])),
            ("other".to_string(), target(&["linux/s390x"], &["type=local"])),
        ]),
    }
}

fn chain() -> NameMap<Vec<String>> {
    NameMap::from_pairs(vec![
        ("web".to_string(), names(&["api"])),
        ("api".to_string(), names(&["base"])),
    ])
}

#[test]
fn the_active_builder_is_read_from_json() {
    assert_eq!(
        active_builder(r#"{"Key":"k","Name":"farm","Global":false}"#).unwrap(),
        "farm"
    );
    for none in [r#"{"Name":""}"#, r#"{"Name":1}"#, "{}", "[]", r#""farm""#] {
        let fault = active_builder(none).err().unwrap();
        assert!(matches!(fault, BuilderFault::NoneActive), "{none}");
        assert_eq!(
            fault.message(),
            "no active builder set — specify --builder explicitly"
        );
    }
    let fault = active_builder("Name: farm").err().unwrap();
    assert_eq!(fault.message(), "invalid JSON in ~/.docker/buildx/current");
}

#[test]
fn dependencies_are_asked_for_where_they_are_builds() {
    let asked = names(&["web"]);
    assert_eq!(
        wanted(&asked, &chain(), true, true),
        names(&["api", "base", "web"])
    );
    assert_eq!(wanted(&asked, &chain(), true, false), asked);
    assert_eq!(wanted(&asked, &chain(), false, true), asked);
}

#[test]
fn the_print_gives_names_caches_and_platforms() {
    let print = print();
    assert_eq!(all_target_names(&print), names(&["base", "other", "web"]));

    let targets = names(&["web", "base", "gone"]);
    let caches = cache_configs(&targets, &print);
    assert_eq!(keys(&caches), names(&["base"]));
    assert_eq!(caches.get("base").unwrap().cache_from[0].to_arg(), "type=gha");

    let platforms = target_platforms(&targets, &print);
    assert_eq!(keys(&platforms), names(&["web"]));
    assert_eq!(*platforms.get("web").unwrap(), names(&["linux/arm64"]));
}

#[test]
fn only_dependencies_of_targets_order_builds() {
    let scoped = scoped_deps(&names(&["web"]), &chain(), true);
    assert_eq!(keys(&scoped), names(&["web"]));
    assert_eq!(*scoped.get("web").unwrap(), names(&["api"]));
    assert!(scoped_deps(&names(&["web"]), &chain(), false).is_empty());
}

#[test]
fn targets_are_reported_line_by_line() {
    let print = print();
    let targets = names(&["api", "base", "web"]);
    let deps = scoped_deps(&targets, &chain(), true);
    let platforms = target_platforms(&targets, &print);
    let caches = cache_configs(&targets, &print);
    let head = [
        "Targets: 3 (1 independent, 2 with dependencies)",
        "  api → depends on [base]",
        "  web → depends on [api]",
        "  web → platform [linux/arm64]",
    ];
    assert_eq!(
        report_targets(&targets, &deps, &platforms, &caches, false),
        head
    );
    let with_registry = report_targets(&targets, &deps, &platforms, &caches, true);
    assert_eq!(with_registry[..4], head);
    assert_eq!(
        with_registry[4..],
        [
            "  registry cache added alongside the bake file's own entries for:",
            "    base → [type=gha]",
        ]
    );
}

#[test]
fn a_builder_without_nodes_is_an_error() {
    let nodes = [node("n1", &[]), node("n2", &[])];
    assert_eq!(
        greet_builder("farm", &nodes).unwrap(),
        "Builder: farm (2 nodes: n1, n2)"
    );
    assert_eq!(node_names(&nodes), names(&["n1", "n2"]));
    let error = greet_builder("farm", &[]).err().unwrap();
    assert_eq!(error.message(), "no TCP nodes found in builder 'farm'");
}

#[test]
fn platforms_are_asked_for_with_commas() {
    assert!(parse_platforms(None).unwrap().is_none());
    assert_eq!(
        parse_platforms(Some(" linux/amd64, ,linux/arm64 ")).unwrap(),
        Some(names(&["linux/amd64", "linux/arm64"]))
    );
    let error = parse_platforms(Some(" , ")).err().unwrap();
    assert_eq!(error.message(), "--platform ' , ' names no platforms");
}

#[test]
fn what_is_asked_for_narrows_what_a_node_has() {
    let n = node("n1", &["linux/amd64", "linux/arm64", "linux/arm/v7"]);
    assert_eq!(effective_platforms(&n, &None), n.platforms);
    assert_eq!(
        effective_platforms(&n, &Some(names(&["linux/arm64", "linux/s390x"]))),
        names(&["linux/arm64"])
    );
    let silent = node("n2", &[]);
    assert_eq!(
        effective_platforms(&silent, &Some(names(&["linux/s390x"]))),
        names(&["linux/s390x"])
    );
    assert_eq!(
        node_platform_lists(&[n, silent], &Some(names(&["linux/amd64"]))),
        vec![names(&["linux/amd64"]), names(&["linux/amd64"])]
    );
}

#[test]
fn nodes_without_a_platform_take_no_part() {
    let nodes = [
        node("amd", &["linux/amd64"]),
        node("arm", &["linux/arm64"]),
    ];
    let all = choose_nodes("farm", &nodes, &None).unwrap_or_else(|e| panic!("{}", e.message()));
    assert_eq!(node_names(&all.nodes), names(&["amd", "arm"]));
    assert!(all.warnings.is_empty());

    let some = choose_nodes("farm", &nodes, &Some(names(&["linux/arm64"])))
        .unwrap_or_else(|e| panic!("{}", e.message()));
    assert_eq!(node_names(&some.nodes), names(&["arm"]));
    assert_eq!(
        some.warnings,
        vec![
            "warning: node amd does not support --platform linux/arm64 — skipping it",
            "note: only one node is usable — builds will run sequentially",
        ]
    );

    let none = choose_nodes("farm", &nodes, &Some(names(&["linux/s390x", "windows"])))
        .err()
        .unwrap();
    assert_eq!(
        none.message(),
        "no node in builder 'farm' supports --platform linux/s390x,windows\n  nodes report: amd [linux/amd64]; arm [linux/arm64]"
    );
    let empty = choose_nodes("farm", &[], &None).err().unwrap();
    assert!(matches!(empty, PlanError::NoUsableNodes { .. }));
    assert_eq!(empty.message(), "no usable nodes left in builder 'farm'");
}

#[test]
fn targets_that_no_node_can_build_are_an_error() {
    let lists = vec![names(&["linux/arm64", "linux/amd64"]), names(&["linux/amd64"])];
    let queue = |platform: &str| {
        DagQueue::new(
            names(&["a", "b"]),
            NameMap::new(),
            NameMap::from_pairs(vec![("b".to_string(), names(&[platform]))]),
        )
        .with_nodes(lists.clone())
    };
    assert!(check_satisfiable("farm", &queue("linux/arm64"), &lists).is_ok());
    let error = check_satisfiable("farm", &queue("linux/s390x"), &lists)
        .err()
        .unwrap();
    assert_eq!(
        error.message(),
        "no node in builder 'farm' can build 1 target(s):\n  b requires [linux/s390x]\n  available platforms: linux/amd64, linux/arm64"
    );
}

#[test]
fn a_shard_is_told_its_platforms_where_some_were_asked_for() {
    let own = names(&["linux/amd64", "linux/arm64"]);
    assert_eq!(shard_platform(&None, &own), None);
    assert_eq!(
        shard_platform(&Some(names(&["linux/amd64"])), &own),
        Some("linux/amd64,linux/arm64".to_string())
    );
    assert_eq!(
        shard_line("farm-shard-n1", "tcp://n1:1", &own),
        "Created shard: farm-shard-n1 → tcp://n1:1 [linux/amd64, linux/arm64]"
    );
}

fn board(statuses: Vec<TargetStatus>) -> DashboardState {
    let targets: Vec<String> = (0..statuses.len()).map(|i| format!("t{i}")).collect();
    let mut state = DashboardState::new(targets, names(&["n1", "n2"]));
    for (i, status) in statuses.into_iter().enumerate() {
        state.set_target_status(&format!("t{i}"), "n1", status);
    }
    state
}

#[test]
fn a_clean_run_succeeds_even_where_it_is_cancelled_too_late() {
    let state = board(vec![TargetStatus::Done(1), TargetStatus::Done(2)]);
    for cancelled in [false, true] {
        let closing = close_run(&state, cancelled, "/l", 125);
        assert!(matches!(closing.outcome, Outcome::Success));
        assert_eq!(
            closing.lines,
            vec!["\n2 of 2 targets built across 2 nodes in 2m 05s."]
        );
    }
}

#[test]
fn failures_are_named_with_their_reasons() {
    let state = board(vec![
        TargetStatus::Failed("boom".to_string()),
        TargetStatus::Blocked(names(&["t0"])),
    ]);
    let closing = close_run(&state, true, "/l/7", 0);
    assert!(matches!(closing.outcome, Outcome::Failed));
    assert_eq!(
        closing.lines,
        vec!["\nFAILED targets:", "  - t0 (boom)", "Logs: /l/7"]
    );
}

#[test]
fn skipped_targets_fail_a_run_unless_it_was_cancelled() {
    let state = board(vec![TargetStatus::Done(1), TargetStatus::Cancelled]);
    let closing = close_run(&state, true, "/l", 60);
    assert!(matches!(closing.outcome, Outcome::Cancelled));
    assert_eq!(
        closing.lines,
        vec!["\n1 of 2 targets built across 2 nodes in 1m 00s. 1 skipped."]
    );
    assert!(matches!(
        close_run(&state, false, "/l", 60).outcome,
        Outcome::Failed
    ));
}

#[test]
fn outcomes_have_their_exit_codes() {
    assert_eq!(exit_code(Outcome::Success), 0);
    assert_eq!(exit_code(Outcome::Failed), 1);
    assert_eq!(exit_code(Outcome::Cancelled), 130);
}

#[test]
fn the_screen_is_for_terminals() {
    assert!(uses_screen(true, "auto"));
    assert!(!uses_screen(true, "plain"));
    assert!(!uses_screen(false, "auto"));
    assert_eq!(bake_progress("auto"), "plain");
    assert_eq!(bake_progress("rawjson"), "rawjson");
    assert_eq!(
        dispatch_line(3, 2),
        "Dispatching 3 targets across 2 nodes (1 build/node)..."
    );
}
