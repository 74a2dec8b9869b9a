use dbake::bakeprint::CacheEntry;
use dbake::executor::bake::{
    after_grace, after_probe, bake_args, cache_entry_args, classify_after_signal, conclude_build,
    wait_step, BakeConfig, BuildError, BuildOutcome, ExitStatus, Probe, StopStep,
    TargetCacheConfig, WaitStep,
};

fn exited(code: i32) -> ExitStatus {
    ExitStatus {
        code: Some(code),
        signal: None,
    }
}

fn signalled(signal: i32) -> ExitStatus {
    ExitStatus {
        code: None,
        signal: Some(signal),
    }
}

fn stop(probe: Probe, in_grace: Option<ExitStatus>) -> Option<BuildOutcome> {
    match after_probe(probe) {
        StopStep::Finished(outcome) => Some(outcome),
        StopStep::Terminate => match after_grace(in_grace) {
            StopStep::Finished(outcome) => Some(outcome),
            _ => None,
        },
        StopStep::Kill => None,
    }
}

fn config() -> BakeConfig {
    BakeConfig {
        file: "docker-bake.hcl".to_string(),
        progress: "plain".to_string(),
        cache_registry: None,
        no_cache: false,
        load: false,
        push: false,
        fail_fast: false,
    }
}

#[test]
fn a_build_that_already_failed_keeps_its_status() {
    match stop(Probe::Exited(exited(7)), None) {
        Some(BuildOutcome::Exited(s)) => assert_eq!(s.code, Some(7)),
        _ => panic!("a self-inflicted failure was misreported as cancelled"),
    }
}

#[test]
fn a_build_failing_inside_the_grace_window_keeps_its_failure() {
    match stop(Probe::Running { has_pid: true }, Some(exited(3))) {
        Some(BuildOutcome::Exited(s)) => assert_eq!(s.code, Some(3)),
        _ => panic!("a non-zero exit the build chose itself is a failure, not a cancel"),
    }
}

#[test]
fn a_build_that_traps_sigterm_and_exits_zero_is_still_cancelled() {
    assert_eq!(
        stop(Probe::Running { has_pid: true }, Some(exited(0))),
        Some(BuildOutcome::Killed)
    );
}

#[test]
fn a_build_that_finishes_first_is_not_reported_as_cancelled() {
    let outcome = wait_step(Some(exited(0)), true);
    assert!(
        matches!(outcome, WaitStep::Finished(BuildOutcome::Exited(s)) if s.success()),
        "a finished build must be reported on its own merits"
    );
}

#[test]
fn a_build_is_waited_for_until_it_ends_or_the_run_is_cancelled() {
    assert!(matches!(wait_step(None, false), WaitStep::Wait));
    assert!(matches!(wait_step(None, true), WaitStep::Stop));
    assert!(
        matches!(wait_step(Some(exited(0)), false), WaitStep::Finished(BuildOutcome::Exited(s)) if s.success())
    );
}

#[test]
fn a_running_build_is_told_to_stop_before_it_is_killed() {
    assert!(matches!(
        after_probe(Probe::Running { has_pid: true }),
        StopStep::Terminate
    ));
    assert!(matches!(after_grace(None), StopStep::Kill));
    assert!(matches!(
        after_probe(Probe::Running { has_pid: false }),
        StopStep::Kill
    ));
}

#[test]
fn an_end_that_cannot_be_told_is_a_kill() {
    assert_eq!(stop(Probe::Lost, None), Some(BuildOutcome::Killed));
}

#[test]
fn a_signal_is_no_failure_of_the_build() {
    assert_eq!(classify_after_signal(signalled(15)), BuildOutcome::Killed);
    assert_eq!(classify_after_signal(exited(0)), BuildOutcome::Killed);
    assert_eq!(
        classify_after_signal(exited(1)),
        BuildOutcome::Exited(exited(1))
    );
    assert!(!signalled(9).success());
    assert!(exited(0).success());
    assert!(!exited(1).success());
}

#[test]
fn a_build_is_concluded_by_its_outcome() {
    let log = "/l/app.log".to_string();
    assert_eq!(
        conclude_build(BuildOutcome::Exited(exited(0)), "app", log.clone()).unwrap(),
        "/l/app.log"
    );
    let failed = conclude_build(BuildOutcome::Exited(exited(2)), "app", log.clone())
        .err()
        .unwrap();
    assert_eq!(
        failed.message(),
        "bake failed for target app (log: /l/app.log)"
    );
    let killed = conclude_build(BuildOutcome::Killed, "app", log)
        .err()
        .unwrap();
    assert!(matches!(killed, BuildError::Cancelled));
    assert_eq!(killed.message(), "cancelled");
}

#[test]
fn a_plain_build_names_file_builder_and_target() {
    assert_eq!(
        bake_args("shard-1", &config(), "app", None, &[]),
        vec![
            "buildx",
            "bake",
            "--builder",
            "shard-1",
            "-f",
            "docker-bake.hcl",
            "--progress",
            "plain",
            "app",
        ]
    );
}

#[test]
fn own_caches_come_before_the_registry() {
    let mut c = config();
    c.cache_registry = Some("reg.io/cache".to_string());
    let own = TargetCacheConfig {
        cache_from: vec![CacheEntry::String("type=local,src=/c".to_string())],
        cache_to: vec![CacheEntry::String("type=local,dest=/c".to_string())],
    };
    assert_eq!(
        bake_args("s", &c, "app", Some(&own), &[]),
        vec![
            "buildx",
            "bake",
            "--builder",
            "s",
            "-f",
            "docker-bake.hcl",
            "--progress",
            "plain",
            "--set",
            "app.cache-from=type=local,src=/c",
            "--set",
            "app.cache-from=type=registry,ref=reg.io/cache/buildcache/app",
            "--set",
            "app.cache-to=type=local,dest=/c",
            "--set",
            "app.cache-to=type=registry,ref=reg.io/cache/buildcache/app,mode=max",
            "app",
        ]
    );
    assert_eq!(cache_entry_args(&own.cache_from), vec!["type=local,src=/c"]);
}

#[test]
fn without_a_registry_the_bake_file_decides_on_caches() {
    let own = TargetCacheConfig {
        cache_from: vec![CacheEntry::String("type=local,src=/c".to_string())],
        cache_to: vec![],
    };
    let args = bake_args("s", &config(), "app", Some(&own), &[]);
    assert!(!args.contains(&"--set".to_string()), "{args:?}");
}

#[test]
fn platforms_and_flags_come_before_the_target() {
    let mut c = config();
    c.no_cache = true;
    c.load = true;
    c.push = true;
    let platforms = vec!["linux/amd64".to_string(), "linux/arm64".to_string()];
    let args = bake_args("s", &c, "app", None, &platforms);
    assert_eq!(
        args[8..],
        [
            "--set",
            "app.platform=linux/amd64,linux/arm64",
            "--no-cache",
            "--load",
            "--push",
            "app",
        ]
    );
}
