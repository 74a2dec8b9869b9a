use dbake::names::NameMap;
use dbake::selection::{
    expand_deps, is_hcl_bake_file, select_targets, SelectionInput, SelectionOutcome,
};
use dbake::typo::levenshtein;

fn names(v: &[&str]) -> Vec<String> {
    v.iter().map(|s| s.to_string()).collect()
}

fn input<'a>(all: &'a [String]) -> SelectionInput<'a> {
    SelectionInput {
        all_targets: all,
        deps: Box::leak(Box::new(NameMap::new())),
        profiles: None,
        profiles_wanted: &[],
        requested: &[],
        exclude: &[],
        with_deps: false,
        deps_are_build_deps: true,
    }
}



#[test]
fn selects_everything_by_default() {
    let all = names(&["api", "web"]);
    let out = select_targets(input(&all)).unwrap();
    assert_eq!(out.targets, names(&["api", "web"]));
    assert!(out.warnings.is_empty());
}

#[test]
fn errors_when_no_targets_at_all() {
    let all: Vec<String> = vec![];
    let err = select_targets(input(&all)).unwrap_err();
    assert!(err.message().contains("no targets to build"));
}

#[test]
fn profile_keeps_services_without_profiles() {
    let all = names(&["api", "web"]);
    let profiles = NameMap::from_pairs(vec![
        ("web".to_string(), names(&["frontend"])),
        ("api".to_string(), vec![]),
    ]);
    let out = select_targets(SelectionInput {
        profiles: Some(&profiles),
        profiles_wanted: &names(&["frontend"]),
        ..input(&all)
    })
    .unwrap();
    assert_eq!(out.targets, names(&["api", "web"]));
}

#[test]
fn profile_excludes_services_gated_behind_another_profile() {
    let all = names(&["api", "batch", "web"]);
    let profiles = NameMap::from_pairs(vec![
        ("web".to_string(), names(&["frontend"])),
        ("batch".to_string(), names(&["jobs"])),
        ("api".to_string(), vec![]),
    ]);
    let out = select_targets(SelectionInput {
        profiles: Some(&profiles),
        profiles_wanted: &names(&["frontend"]),
        ..input(&all)
    })
    .unwrap();
    assert_eq!(out.targets, names(&["api", "web"]));
}

#[test]
fn unknown_profile_is_an_error_naming_the_valid_ones() {
    let all = names(&["web"]);
    let profiles = NameMap::from_pairs(vec![("web".to_string(), names(&["frontend"]))]);
    let err = select_targets(SelectionInput {
        profiles: Some(&profiles),
        profiles_wanted: &names(&["frontnd"]),
        ..input(&all)
    })
    .unwrap_err()
    .message();
    assert!(
        err.contains("no service declares profile 'frontnd'"),
        "{err}"
    );
    assert!(err.contains("frontend"), "{err}");
}

#[test]
fn unknown_requested_target_is_an_error() {
    let all = names(&["api", "web", "worker"]);
    let requested = names(&["web", "wroker"]);
    let err = select_targets(SelectionInput {
        requested: &requested,
        ..input(&all)
    })
    .unwrap_err()
    .message();
    assert!(err.contains("unknown target 'wroker'"), "{err}");
    assert!(err.contains("available: api, web, worker"), "{err}");
    assert!(err.contains("did you mean 'worker'?"), "{err}");
}

#[test]
fn known_requested_targets_are_selected() {
    let all = names(&["api", "web", "worker"]);
    let requested = names(&["web", "api"]);
    let out = select_targets(SelectionInput {
        requested: &requested,
        ..input(&all)
    })
    .unwrap();
    assert_eq!(out.targets, names(&["api", "web"]));
}

#[test]
fn wildly_different_name_gets_no_suggestion() {
    let all = names(&["api"]);
    let requested = names(&["zzzzzzzzzz"]);
    let err = select_targets(SelectionInput {
        requested: &requested,
        ..input(&all)
    })
    .unwrap_err()
    .message();
    assert!(!err.contains("did you mean"), "{err}");
}

#[test]
fn requesting_a_target_gated_out_by_profile_names_the_conflict() {
    let all = names(&["api", "batch", "web"]);
    let profiles = NameMap::from_pairs(vec![
        ("web".to_string(), names(&["frontend"])),
        ("batch".to_string(), names(&["jobs"])),
        ("api".to_string(), vec![]),
    ]);
    let requested = names(&["batch"]);
    let err = select_targets(SelectionInput {
        profiles: Some(&profiles),
        profiles_wanted: &names(&["frontend"]),
        requested: &requested,
        ..input(&all)
    })
    .unwrap_err()
    .message();
    assert!(
        err.contains("target(s) batch are not in profile(s) frontend"),
        "{err}"
    );
}

#[test]
fn multiple_profiles_are_additive() {
    let all = names(&["api", "batch", "web"]);
    let profiles = NameMap::from_pairs(vec![
        ("web".to_string(), names(&["frontend"])),
        ("batch".to_string(), names(&["jobs"])),
        ("api".to_string(), vec![]),
    ]);
    let wanted = names(&["frontend", "jobs"]);
    let out = select_targets(SelectionInput {
        profiles: Some(&profiles),
        profiles_wanted: &wanted,
        ..input(&all)
    })
    .unwrap();
    assert_eq!(out.targets, names(&["api", "batch", "web"]));
}

#[test]
fn a_target_absent_from_the_profile_map_is_always_active() {
    let all = names(&["hcl-only", "web"]);
    let profiles = NameMap::from_pairs(vec![("web".to_string(), names(&["frontend"]))]);
    let out = select_targets(SelectionInput {
        profiles: Some(&profiles),
        profiles_wanted: &names(&["frontend"]),
        ..input(&all)
    })
    .unwrap();
    assert_eq!(out.targets, names(&["hcl-only", "web"]));
}

#[test]
fn compose_deps_do_not_produce_build_dependency_warnings() {
    let all = names(&["db", "web"]);
    let deps = NameMap::from_pairs(vec![("web".to_string(), names(&["db"]))]);
    let exclude = names(&["db"]);
    let out = select_targets(SelectionInput {
        deps: &deps,
        exclude: &exclude,
        deps_are_build_deps: false,
        ..input(&all)
    })
    .unwrap();
    assert_eq!(out.targets, names(&["web"]));
    assert!(out.warnings.is_empty(), "{:?}", out.warnings);
}

#[test]
fn expand_deps_is_transitive_and_terminates_on_cycles() {
    let deps = NameMap::from_pairs(vec![
        ("app".to_string(), names(&["base"])),
        ("base".to_string(), names(&["utils"])),
        ("utils".to_string(), names(&["app"])),
    ]);
    assert_eq!(
        expand_deps(&names(&["app"]), &deps),
        names(&["app", "base", "utils"])
    );
    assert_eq!(expand_deps(&[], &deps), Vec::<String>::new());
}

#[test]
fn expand_deps_keeps_dependencies_the_bake_file_has_not_printed_yet() {
    let deps = NameMap::from_pairs(vec![("app".to_string(), names(&["base"]))]);
    assert_eq!(
        expand_deps(&names(&["app"]), &deps),
        names(&["app", "base"])
    );
}

#[test]
fn with_deps_expands_transitively() {
    let all = names(&["app", "base", "utils", "unrelated"]);
    let deps = NameMap::from_pairs(vec![
        ("app".to_string(), names(&["base"])),
        ("base".to_string(), names(&["utils"])),
    ]);
    let requested = names(&["app"]);
    let out = select_targets(SelectionInput {
        deps: &deps,
        requested: &requested,
        with_deps: true,
        ..input(&all)
    })
    .unwrap();
    assert_eq!(out.targets, names(&["app", "base", "utils"]));
}

#[test]
fn with_deps_ignores_deps_outside_the_bake_file() {
    let all = names(&["app"]);
    let deps = NameMap::from_pairs(vec![("app".to_string(), names(&["external"]))]);
    let requested = names(&["app"]);
    let out = select_targets(SelectionInput {
        deps: &deps,
        requested: &requested,
        with_deps: true,
        ..input(&all)
    })
    .unwrap();
    assert_eq!(out.targets, names(&["app"]));
}

#[test]
fn with_deps_terminates_on_a_dependency_cycle() {
    let all = names(&["a", "b"]);
    let deps = NameMap::from_pairs(vec![
        ("a".to_string(), names(&["b"])),
        ("b".to_string(), names(&["a"])),
    ]);
    let requested = names(&["a"]);
    let out = select_targets(SelectionInput {
        deps: &deps,
        requested: &requested,
        with_deps: true,
        ..input(&all)
    })
    .unwrap();
    assert_eq!(out.targets, names(&["a", "b"]));
}

#[test]
fn exclude_removes_targets() {
    let all = names(&["api", "web"]);
    let exclude = names(&["web"]);
    let out = select_targets(SelectionInput {
        exclude: &exclude,
        ..input(&all)
    })
    .unwrap();
    assert_eq!(out.targets, names(&["api"]));
}

#[test]
fn excluding_an_unknown_target_warns() {
    let all = names(&["api"]);
    let exclude = names(&["nope"]);
    let out = select_targets(SelectionInput {
        exclude: &exclude,
        ..input(&all)
    })
    .unwrap();
    assert_eq!(out.targets, names(&["api"]));
    assert!(
        out.warnings.iter().any(|w| w.contains("matches no target")),
        "{:?}",
        out.warnings
    );
}

#[test]
fn excluding_a_dependency_of_a_kept_target_warns() {
    let all = names(&["app", "base"]);
    let deps = NameMap::from_pairs(vec![("app".to_string(), names(&["base"]))]);
    let exclude = names(&["base"]);
    let out = select_targets(SelectionInput {
        deps: &deps,
        exclude: &exclude,
        ..input(&all)
    })
    .unwrap();
    assert_eq!(out.targets, names(&["app"]));
    assert!(
        out.warnings
            .iter()
            .any(|w| w.contains("depends on excluded")),
        "{:?}",
        out.warnings
    );
}

#[test]
fn excluding_everything_is_an_error() {
    let all = names(&["api"]);
    let exclude = names(&["api"]);
    let err = select_targets(SelectionInput {
        exclude: &exclude,
        ..input(&all)
    })
    .unwrap_err();
    assert!(err.message().contains("no targets to build"));
}

#[test]
fn hcl_detection_uses_the_extension_first() {
    assert!(is_hcl_bake_file("docker-bake.hcl", None));
    assert!(!is_hcl_bake_file(
        "docker-compose.yml",
        Some("target \"x\" {")
    ));
    assert!(!is_hcl_bake_file("compose.yaml", None));
}

#[test]
fn hcl_detection_falls_back_to_a_block_header() {
    assert!(is_hcl_bake_file(
        "bakefile",
        Some("target \"app\" {\n  context = \".\"\n}")
    ));
}

#[test]
fn a_json_bake_file_is_hcl_not_compose() {
    let bake = r#"{"target": {"app": {"context": "."}}}"#;
    assert!(is_hcl_bake_file("docker-bake.json", Some(bake)));

    let compose = r#"{"services": {"web": {"build": "."}}}"#;
    assert!(!is_hcl_bake_file("compose.json", Some(compose)));
}

#[test]
fn hcl_detection_handles_a_brace_on_the_next_line() {
    assert!(is_hcl_bake_file(
        "bakefile",
        Some("target \"app\"\n{\n  context = \".\"\n}")
    ));
}

#[test]
fn an_hcl_snippet_quoted_inside_compose_yaml_is_not_hcl() {
    let compose = "services:\n  web:\n    build: .\nx-notes: |\n  target \"app\" { }\n";
    assert!(!is_hcl_bake_file("stack", Some(compose)));
}

#[test]
fn hcl_detection_handles_a_single_line_block() {
    assert!(is_hcl_bake_file(
        "bakefile",
        Some("target \"empty\" {}\n")
    ));
    assert!(is_hcl_bake_file(
        "bakefile",
        Some("target \"x\" { context = \".\" }\n")
    ));
}

#[test]
fn a_compose_file_merely_mentioning_target_is_not_hcl() {
    let compose = "services:\n  web:\n    build:\n      target: \"builder\"\n";
    assert!(!is_hcl_bake_file("stack", Some(compose)));
    let commented = "# see target \"app\" in the old bakefile\nservices:\n  web: {}\n";
    assert!(!is_hcl_bake_file("stack", Some(commented)));
}

#[test]
fn levenshtein_basics() {
    assert_eq!(levenshtein("worker", "worker"), 0);
    assert_eq!(levenshtein("wroker", "worker"), 2);
    assert_eq!(levenshtein("", "abc"), 3);
    assert_eq!(levenshtein("abc", ""), 3);
}

#[test]
fn an_outcome_starts_empty() {
    let outcome = SelectionOutcome::default();
    assert!(outcome.targets.is_empty());
    assert!(outcome.warnings.is_empty());
}
