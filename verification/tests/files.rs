use dbake::bakeprint::{
    compose_depends_on, covers, needs_retry, print_args, print_failure, settle_print, BakePrint,
    DependsOn, ResolveError,
};
use dbake::builder::inspect::{inspect_args, inspect_failure, parse_inspect_output};
use dbake::builder::node::Node;
use dbake::builder::shard::{
    classify_shard, create_args, create_failure, remove_args, shard_name, stale_shards,
    ShardGuard, ShardKind,
};
use dbake::cli::{normalize_args, Invocation};
use dbake::dag::self_dependency_warnings;
use dbake::hcl::{
    extract_quoted_string, hcl_depends_on, parse_hcl_string_list, strip_hcl_inline_comment,
};
use dbake::logs::{log_path, run_log_dir, safe_file_stem, vet_log_dir, LogDirFault};
use dbake::names::NameMap;
use dbake::selection::{select_targets, SelectionError, SelectionInput};

fn names(v: &[&str]) -> Vec<String> {
    v.iter().map(|s| s.to_string()).collect()
}

fn keys<V>(map: &NameMap<V>) -> Vec<String> {
    (0..map.len()).map(|i| map.key_at(i).clone()).collect()
}

#[test]
fn escaped_names_read_back() {
    for name in ["a", "a b", "a\"b", "a\\b", "\\\"", "✓"] {
        let quoted = format!("\"{}\"", name.replace('\\', "\\\\").replace('"', "\\\""));
        assert_eq!(extract_quoted_string(&quoted), Some(name.to_string()));
    }
    let list = names(&["a,b", "c", "d e"]);
    let written = format!(
        "[{}]",
        list.iter()
            .map(|s| format!("\"{s}\""))
            .collect::<Vec<_>>()
            .join(", ")
    );
    assert_eq!(parse_hcl_string_list(&written), list);
}

#[test]
fn what_holds_no_comment_stays() {
    for line in ["depends_on = [\"a\"]", "", "x / y", "\"a // b\""] {
        assert_eq!(strip_hcl_inline_comment(line), line);
    }
}

#[test]
fn only_bake_files_hold_build_dependencies() {
    let hcl = "target \"a\" {\n  depends_on = [\"b\"]\n}\n";
    let deps = hcl_depends_on("docker-bake.hcl", hcl).unwrap();
    assert_eq!(*deps.get("a").unwrap(), names(&["b"]));
    assert!(hcl_depends_on("compose.yml", "services: {}\n").is_none());
    let mention = "# see target \"web\" in the bake file\nservices:\n  a:\n    depends_on: [b]\n";
    assert!(hcl_depends_on("compose.yml", mention).is_none());
    assert!(hcl_depends_on("compose.yaml", hcl).is_none());
    let deps = hcl_depends_on("bakefile", hcl).unwrap();
    assert_eq!(*deps.get("a").unwrap(), names(&["b"]));
}

#[test]
fn a_mention_of_a_target_decides_where_the_extension_does_not() {
    let mention = "# see target \"web\" in the bake file\nservices:\n  a:\n    depends_on: [b]\n";
    assert!(hcl_depends_on("compose", mention).unwrap().is_empty());
    assert!(hcl_depends_on("compose.txt", mention).is_some());
    let indented = "  target \"a\" {\n    depends_on = [\"b\"]\n  }\n";
    let deps = hcl_depends_on("bakefile", indented).unwrap();
    assert_eq!(*deps.get("a").unwrap(), names(&["b"]));
    assert!(hcl_depends_on("compose", "services:\n  target: {}\n").is_none());
    let json = "{\"target\": {\"a\": {\"depends_on\": [\"b\"]}}}";
    assert!(hcl_depends_on("docker-bake.json", json).is_none());
    assert!(hcl_depends_on("docker-bake.hcl", "# nothing yet\n").unwrap().is_empty());
}

#[test]
fn nodes_that_cannot_be_reached_are_left_out() {
    let output = "Name: farm\nDriver: remote\n\nNodes:\nName: n1\nEndpoint: tcp://h1:1\nStatus: running\nPlatforms: linux/amd64*, linux/arm64\n\nName: n2\nEndpoint: unix:///x\nStatus: running\nPlatforms: linux/amd64\n";
    let nodes = parse_inspect_output(output);
    for n in &nodes {
        assert!(n.endpoint.starts_with("tcp://"), "{n:?}");
    }
    assert_eq!(nodes.len(), 1);
    assert_eq!(nodes[0].name, "n1");
    assert_eq!(inspect_args("farm"), names(&["buildx", "inspect", "farm"]));
    assert!(inspect_failure("no such builder").contains("no such builder"));
}

#[test]
fn shard_names_read_back() {
    for (prefix, node) in [("farm", "n1"), ("farm", "a--run7"), ("a-shard-b", "x")] {
        for id in [0u32, 7, u32::MAX] {
            let name = shard_name(prefix, node, id);
            assert_eq!(classify_shard(&name, prefix), ShardKind::Owned(id));
        }
    }
    assert_ne!(shard_name("f", "n", 1), shard_name("f", "n", 2));
    assert_eq!(shard_name("farm", "n1", 42), "farm-shard-n1--run42");
}

#[test]
fn only_runs_on_our_own_shards_are_asked_after() {
    let asked = std::cell::RefCell::new(Vec::new());
    let ls = "NAME\nother-shard-a--run9 remote\nfarm-shard-b--run2 remote\nfarm-shard-c remote\n";
    stale_shards(ls, "farm", |id| {
        asked.borrow_mut().push(id);
        true
    });
    assert_eq!(*asked.borrow(), vec![2]);
}

#[test]
fn shards_of_live_runs_stay() {
    let ls = "NAME/NODE DRIVER\nfarm-shard-a--run1* remote\nfarm-shard-b--run2 remote\nfarm-shard-c remote\nother remote\n";
    assert_eq!(
        stale_shards(ls, "farm", |id| id == 2),
        names(&["farm-shard-a--run1", "farm-shard-c"])
    );
}

#[test]
fn shards_are_made_and_removed() {
    let node = Node {
        name: "n1".to_string(),
        endpoint: "tcp://h:1".to_string(),
        platforms: vec![],
    };
    assert_eq!(
        create_args("s", &node, None),
        names(&["buildx", "create", "--name", "s", "--driver", "remote", "tcp://h:1"])
    );
    assert_eq!(
        create_args("s", &node, Some("linux/arm64")),
        names(&[
            "buildx",
            "create",
            "--name",
            "s",
            "--platform",
            "linux/arm64",
            "--driver",
            "remote",
            "tcp://h:1",
        ])
    );
    assert_eq!(remove_args("s"), names(&["buildx", "rm", "s"]));
    assert!(create_failure("s", "nope").contains("nope"));
    let mut guard = ShardGuard::new();
    guard.push("a".to_string());
    guard.push("b".to_string());
    assert_eq!(guard.names(), names(&["a", "b"]));
}

#[test]
fn log_files_stay_in_the_directory_of_their_run() {
    for target in ["a", "", "..", "../../etc/x", "/etc/passwd", ".hidden", "a/b", "✓"] {
        let stem = safe_file_stem(target);
        assert!(!stem.is_empty() && !stem.starts_with('.'), "{stem}");
        assert!(!stem.contains("..") && !stem.contains('/'), "{stem}");
        let path = log_path("/tmp/dbake-logs/7", target);
        assert_eq!(path, format!("/tmp/dbake-logs/7/{stem}.log"));
    }
    assert_eq!(safe_file_stem("web-1.2_x"), "web-1.2_x");
    assert_eq!(safe_file_stem("a...b"), "a__.b");
    assert_eq!(run_log_dir("/tmp", 7), "/tmp/dbake-logs/7");
}

#[test]
fn strange_log_directories_are_refused() {
    assert!(vet_log_dir(false, true, 7, 7).is_ok());
    let link = vet_log_dir(true, true, 7, 7).err().unwrap();
    assert_eq!(link, LogDirFault::Symlink);
    assert_eq!(
        link.message("/l"),
        "refusing to write logs through the symlink /l — remove it"
    );
    let file = vet_log_dir(false, false, 7, 7).err().unwrap();
    assert_eq!(
        file.message("/l"),
        "log path /l exists and is not a directory"
    );
    let foreign = vet_log_dir(false, true, 0, 7).err().unwrap();
    assert_eq!(
        foreign.message("/l"),
        "log directory /l is owned by uid 0, not 7 — refusing to use it"
    );
}

#[test]
fn only_the_first_argument_is_taken_for_the_plugin() {
    match normalize_args(names(&["docker-dbake", "dbake", "dbake", "-f", "x"])) {
        Invocation::Run(args) => assert_eq!(args, names(&["docker-dbake", "dbake", "-f", "x"])),
        Invocation::Metadata => panic!("not asked for metadata"),
    }
    assert!(matches!(
        normalize_args(names(&["docker-dbake", "docker-cli-plugin-metadata"])),
        Invocation::Metadata
    ));
}

fn empty_print() -> BakePrint {
    BakePrint {
        group: NameMap::new(),
        target: NameMap::new(),
    }
}

#[test]
fn a_print_is_asked_for_again_where_it_lacks_a_target() {
    let targets = names(&["a"]);
    assert!(!covers(&empty_print(), &targets));
    assert!(covers(&empty_print(), &[]));
    assert!(needs_retry(&Ok(empty_print()), &targets));
    assert!(needs_retry(&Err("x".to_string()), &targets));
    assert!(!needs_retry(&Err("x".to_string()), &[]));
    assert_eq!(
        print_args("f.hcl", "farm", &targets),
        names(&["buildx", "bake", "--builder", "farm", "-f", "f.hcl", "--print", "a"])
    );
    assert!(print_failure("no such file").contains("no such file"));
}

#[test]
fn a_print_that_cannot_be_had_says_why() {
    let both = settle_print(
        "f.hcl",
        &names(&["a"]),
        Err("first".to_string()),
        Some(Err("second".to_string())),
    )
    .err()
    .unwrap();
    assert!(matches!(both, ResolveError::Both { .. }));
    assert!(both.message().contains("first") && both.message().contains("second"));
    let none = settle_print("f.hcl", &[], Err("why".to_string()), None)
        .err()
        .unwrap();
    assert!(matches!(none, ResolveError::NoDefaultGroup { .. }));
    assert!(none.message().contains("why"));
    let kept = settle_print(
        "f.hcl",
        &names(&["a"]),
        Ok(empty_print()),
        Some(Err("second".to_string())),
    )
    .unwrap();
    assert!(kept.warning.is_some());
}

#[test]
fn compose_dependencies_are_lists_or_conditions() {
    let services = NameMap::from_pairs(vec![
        ("a".to_string(), Some(DependsOn::List(names(&["c", "b"])))),
        (
            "b".to_string(),
            Some(DependsOn::Conditions(names(&["c"]))),
        ),
        ("c".to_string(), None),
        ("d".to_string(), Some(DependsOn::List(vec![]))),
    ]);
    let deps = compose_depends_on(&services);
    assert_eq!(keys(&deps), names(&["a", "b"]));
    assert_eq!(*deps.get("a").unwrap(), names(&["c", "b"]));
    assert_eq!(*deps.get("b").unwrap(), names(&["c"]));
}

#[test]
fn a_target_that_depends_on_itself_is_warned_of() {
    let deps = NameMap::from_pairs(vec![
        ("a".to_string(), names(&["a", "b"])),
        ("b".to_string(), names(&[])),
    ]);
    let lines = self_dependency_warnings(&names(&["a", "b"]), &deps);
    assert_eq!(lines.len(), 1);
    assert!(lines[0].contains('a'));
}

#[test]
fn selections_fail_for_their_reasons() {
    let all = names(&["api", "web"]);
    let deps = NameMap::new();
    let profiles = NameMap::from_pairs(vec![("web".to_string(), names(&["front"]))]);
    let input = |wanted: &'static [&'static str], requested: &'static [&'static str], exclude: &'static [&'static str]| {
        select_targets(SelectionInput {
            all_targets: &all,
            deps: &deps,
            profiles: Some(&profiles),
            profiles_wanted: &names(wanted),
            requested: &names(requested),
            exclude: &names(exclude),
            with_deps: false,
            deps_are_build_deps: false,
        })
    };
    let e = input(&["back"], &[], &[]).unwrap_err();
    assert!(matches!(e, SelectionError::UnknownProfile { .. }));
    assert_eq!(
        e.message(),
        "no service declares profile 'back'\n  available profiles: front"
    );
    let e = input(&[], &["wb"], &[]).unwrap_err();
    assert_eq!(
        e.message(),
        "unknown target 'wb'\n  available: api, web\n  did you mean 'web'?"
    );
    let e = input(&[], &[], &["api", "web"]).unwrap_err();
    assert!(matches!(e, SelectionError::Empty));
    assert_eq!(e.message(), "no targets to build after filtering");
    assert_eq!(input(&["front"], &["web"], &[]).unwrap().targets, names(&["web"]));
    let outcome = input(&[], &[], &["api", "db"]).unwrap();
    assert_eq!(outcome.targets, names(&["web"]));
    assert_eq!(outcome.warnings, vec!["--exclude 'db' matches no target"]);
}
