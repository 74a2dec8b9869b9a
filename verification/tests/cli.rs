use dbake::cli::{normalize_args, Invocation};

fn argv(v: &[&str]) -> Vec<String> {
    v.iter().map(|s| s.to_string()).collect()
}

#[test]
fn strips_the_plugin_name_at_argv1() {
    assert_eq!(
        normalize_args(argv(&["docker-dbake", "dbake", "web"])),
        Invocation::Run(argv(&["docker-dbake", "web"]))
    );
}

#[test]
fn keeps_a_target_named_dbake() {
    assert_eq!(
        normalize_args(argv(&["docker-dbake", "dbake", "dbake"])),
        Invocation::Run(argv(&["docker-dbake", "dbake"]))
    );
}

#[test]
fn keeps_dbake_when_it_is_not_the_plugin_name() {
    assert_eq!(
        normalize_args(argv(&["docker-dbake", "--file", "x.yml", "dbake"])),
        Invocation::Run(argv(&["docker-dbake", "--file", "x.yml", "dbake"]))
    );
}

#[test]
fn detects_metadata_only_at_argv1() {
    assert_eq!(
        normalize_args(argv(&["docker-dbake", "docker-cli-plugin-metadata"])),
        Invocation::Metadata
    );
}

#[test]
fn a_target_named_like_the_metadata_subcommand_is_not_metadata() {
    assert_eq!(
        normalize_args(argv(&[
            "docker-dbake",
            "dbake",
            "docker-cli-plugin-metadata"
        ])),
        Invocation::Run(argv(&["docker-dbake", "docker-cli-plugin-metadata"]))
    );
}
