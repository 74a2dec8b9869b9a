//! What holds of the call of every build.
use super::{
    BakeConfigView, BuildErrorView, BuildOutcome, ExitStatus, Probe, StopStep, TargetCacheConfig,
    WaitStep,
};
use crate::bakeprint;
use crate::names;
use crate::text;
use vstd::prelude::*;

verus! {

/// The settings of a list: one `--set` for each value, in the order of the values.
proof fn lemma_settings(key: Seq<char>, values: Seq<Seq<char>>, k: int)
    ensures
        super::settings(key, values).len() == 2 * values.len(),
        0 <= k < values.len() ==> super::settings(key, values)[2 * k] == "--set"@,
        0 <= k < values.len() ==> super::settings(key, values)[2 * k + 1] == key + values[k],
    decreases values.len(),
{
    if values.len() > 0 {
        lemma_settings(key, values.drop_last(), k);
    }
}

/// Where the settings for caches start: behind those for platforms, where there are any.
pub open spec fn caches_start(platforms: Seq<Seq<char>>) -> int {
    if platforms.len() > 0 {
        10
    } else {
        8
    }
}

/// A build is called with the builder, the file and the kind of progress that it was given, for
/// its target and no other: the target stands at the end.
pub proof fn law_command_names_its_target(
    builder: Seq<char>,
    config: BakeConfigView,
    target: Seq<char>,
    from: Seq<Seq<char>>,
    to: Seq<Seq<char>>,
    platforms: Seq<Seq<char>>,
)
    ensures
        ({
            let c = super::bake_command(builder, config, target, from, to, platforms);
            &&& c[0] == "buildx"@ && c[1] == "bake"@
            &&& c[2] == "--builder"@ && c[3] == builder
            &&& c[4] == "-f"@ && c[5] == config.file
            &&& c[6] == "--progress"@ && c[7] == config.progress
            &&& c.last() == target
        }),
{
}

/// Where a target asks for platforms they are set, all of them and in their order, for that
/// target.
pub proof fn law_platforms_are_set(
    builder: Seq<char>,
    config: BakeConfigView,
    target: Seq<char>,
    from: Seq<Seq<char>>,
    to: Seq<Seq<char>>,
    platforms: Seq<Seq<char>>,
)
    requires
        platforms.len() > 0,
    ensures
        ({
            let c = super::bake_command(builder, config, target, from, to, platforms);
            &&& c[8] == "--set"@
            &&& c[9] == target + ".platform="@ + text::join(platforms, ","@)
        }),
{
}

/// With a registry a build reads from the bake file's own caches and the registry's, and writes
/// to them: one setting for each, the registry's behind the others, with all layers written.
pub proof fn law_registry_caches_are_set(
    builder: Seq<char>,
    config: BakeConfigView,
    target: Seq<char>,
    from: Seq<Seq<char>>,
    to: Seq<Seq<char>>,
    platforms: Seq<Seq<char>>,
    registry: Seq<char>,
    k: int,
)
    requires
        config.cache_registry == Some(registry),
        0 <= k <= from.len() + to.len() + 1,
    ensures
        ({
            let c = super::bake_command(builder, config, target, from, to, platforms);
            let at = caches_start(platforms) + 2 * k;
            let shared = "type=registry,ref="@ + registry + "/buildcache/"@ + target;
            &&& c[at] == "--set"@
            &&& c[at + 1] == if k < from.len() {
                target + ".cache-from="@ + from[k]
            } else if k == from.len() {
                target + ".cache-from="@ + shared
            } else if k < from.len() + 1 + to.len() {
                target + ".cache-to="@ + to[k - from.len() - 1]
            } else {
                target + ".cache-to="@ + (shared + ",mode=max"@)
            }
        }),
{
    let c = super::bake_command(builder, config, target, from, to, platforms);
    let in_list = super::caches_from(registry, target, from);
    let out_list = super::caches_to(registry, target, to);
    let in_key = target + ".cache-from="@;
    let out_key = target + ".cache-to="@;
    let a = super::settings(in_key, in_list);
    let b = super::settings(out_key, out_list);
    lemma_settings(in_key, in_list, k);
    lemma_settings(out_key, out_list, k - from.len() - 1);
    let start = caches_start(platforms);
    let p = super::platform_settings(target, platforms);
    assert(p.len() == start - 8);
    let at = start + 2 * k;
    if k <= from.len() {
        assert(a[2 * k] == "--set"@ && a[2 * k + 1] == in_key + in_list[k]);
        assert(c[at] == a[2 * k]);
        assert(c[at + 1] == a[2 * k + 1]);
    } else {
        let m = k - from.len() - 1;
        assert(b[2 * m] == "--set"@ && b[2 * m + 1] == out_key + out_list[m]);
        assert(c[at] == b[2 * m]);
        assert(c[at + 1] == b[2 * m + 1]);
    }
}

/// A call holds nothing but what it was made for: the platforms' setting where there are any, the
/// caches' settings where there is a registry, a flag for each setting that is on, and the target.
pub proof fn law_command_holds_nothing_else(
    builder: Seq<char>,
    config: BakeConfigView,
    target: Seq<char>,
    from: Seq<Seq<char>>,
    to: Seq<Seq<char>>,
    platforms: Seq<Seq<char>>,
)
    ensures
        ({
            let one = |on: bool|
                if on {
                    1int
                } else {
                    0int
                };
            super::bake_command(builder, config, target, from, to, platforms).len()
                == caches_start(platforms) + (if config.cache_registry is Some {
                2 * (from.len() + to.len() + 2)
            } else {
                0
            }) + one(config.no_cache) + one(config.load) + one(config.push) + 1
        }),
{
    if config.cache_registry is Some {
        let registry = config.cache_registry->0;
        lemma_settings(target + ".cache-from="@, super::caches_from(registry, target, from), 0);
        lemma_settings(target + ".cache-to="@, super::caches_to(registry, target, to), 0);
    }
}

/// A setting is no flag.
proof fn lemma_setting_is_no_flag(x: Seq<char>, key: Seq<char>, value: Seq<char>)
    requires
        key.contains('='),
        x == "--no-cache"@ || x == "--load"@ || x == "--push"@,
    ensures
        x != key + value,
        x != "--set"@,
{
    reveal_strlit("--no-cache");
    reveal_strlit("--load");
    reveal_strlit("--push");
    reveal_strlit("--set");
    let i: int = choose|i: int| 0 <= i < key.len() && key[i] == '=';
    assert((key + value)[i] == '=');
    assert(forall|j: int| 0 <= j < "--no-cache"@.len() ==> "--no-cache"@[j] != '=');
    assert(forall|j: int| 0 <= j < "--load"@.len() ==> "--load"@[j] != '=');
    assert(forall|j: int| 0 <= j < "--push"@.len() ==> "--push"@[j] != '=');
    assert("--set"@.len() == 5);
}

proof fn lemma_settings_hold_no_flag(key: Seq<char>, values: Seq<Seq<char>>, x: Seq<char>)
    requires
        key.contains('='),
        x == "--no-cache"@ || x == "--load"@ || x == "--push"@,
    ensures
        !super::settings(key, values).contains(x),
    decreases values.len(),
{
    if values.len() > 0 {
        lemma_settings_hold_no_flag(key, values.drop_last(), x);
        lemma_setting_is_no_flag(x, key, values.last());
        let last = seq!["--set"@, key + values.last()];
        names::lemma_sum_contains(super::settings(key, values.drop_last()), last, x);
    }
}

proof fn lemma_flag_in_command(
    builder: Seq<char>,
    config: BakeConfigView,
    target: Seq<char>,
    from: Seq<Seq<char>>,
    to: Seq<Seq<char>>,
    platforms: Seq<Seq<char>>,
    x: Seq<char>,
)
    requires
        x == "--no-cache"@ || x == "--load"@ || x == "--push"@,
        builder != x,
        config.file != x,
        config.progress != x,
        target != x,
    ensures
        super::bake_command(builder, config, target, from, to, platforms).contains(x) <==> (
        config.no_cache && x == "--no-cache"@) || (config.load && x == "--load"@) || (config.push && x
            == "--push"@),
{
    let head = seq![
        "buildx"@,
        "bake"@,
        "--builder"@,
        builder,
        "-f"@,
        config.file,
        "--progress"@,
        config.progress,
    ];
    let p = super::platform_settings(target, platforms);
    let c = super::cache_settings(config.cache_registry, target, from, to);
    let f = super::flag(config.no_cache, "--no-cache"@);
    let g = super::flag(config.load, "--load"@);
    let h = super::flag(config.push, "--push"@);
    let last = seq![target];
    names::lemma_sum_contains(head + p + c + f + g + h, last, x);
    names::lemma_sum_contains(head + p + c + f + g, h, x);
    names::lemma_sum_contains(head + p + c + f, g, x);
    names::lemma_sum_contains(head + p + c, f, x);
    names::lemma_sum_contains(head + p, c, x);
    names::lemma_sum_contains(head, p, x);
    reveal_strlit("buildx");
    reveal_strlit("bake");
    reveal_strlit("--builder");
    reveal_strlit("-f");
    reveal_strlit("--progress");
    reveal_strlit("--no-cache");
    reveal_strlit("--load");
    reveal_strlit("--push");
    reveal_strlit(".platform=");
    reveal_strlit(".cache-from=");
    reveal_strlit(".cache-to=");
    assert("--progress"@[2] == 'p' && "--progress"@[3] == 'r');
    assert("--builder"@[2] == 'b');
    assert("--push"@[2] == 'p' && "--push"@[3] == 'u');
    assert("--no-cache"@[2] == 'n');
    assert("--load"@[2] == 'l');
    assert("buildx"@[0] == 'b');
    assert("bake"@[0] == 'b');
    assert("-f"@.len() == 2);
    assert(!head.contains(x));
    let platform_key = target + ".platform="@;
    assert(platform_key[target.len() as int + 9] == '=');
    assert(platform_key.contains('='));
    lemma_setting_is_no_flag(x, platform_key, text::join(platforms, ","@));
    assert(!p.contains(x));
    if config.cache_registry is Some {
        let registry = config.cache_registry->0;
        let in_key = target + ".cache-from="@;
        let out_key = target + ".cache-to="@;
        assert(in_key[target.len() as int + 11] == '=');
        assert(out_key[target.len() as int + 9] == '=');
        assert(in_key.contains('=') && out_key.contains('='));
        let a = super::settings(in_key, super::caches_from(registry, target, from));
        let b = super::settings(out_key, super::caches_to(registry, target, to));
        lemma_settings_hold_no_flag(in_key, super::caches_from(registry, target, from), x);
        lemma_settings_hold_no_flag(out_key, super::caches_to(registry, target, to), x);
        names::lemma_sum_contains(a, b, x);
    }
    assert(!c.contains(x));
    assert(!last.contains(x));
    if config.no_cache {
        assert(f[0] == "--no-cache"@);
    }
    if config.load {
        assert(g[0] == "--load"@);
    }
    if config.push {
        assert(h[0] == "--push"@);
    }
}

/// Whether a name is spelled like a flag of a build.
pub open spec fn spelled_like_a_flag(x: Seq<char>) -> bool {
    x == "--no-cache"@ || x == "--load"@ || x == "--push"@
}

/// Each of `--no-cache`, `--load` and `--push` is passed on exactly where its own setting is on,
/// whatever the others are. No name that stands in the call may itself be spelled like one of
/// them.
pub proof fn law_flags_follow_their_settings(
    builder: Seq<char>,
    config: BakeConfigView,
    target: Seq<char>,
    from: Seq<Seq<char>>,
    to: Seq<Seq<char>>,
    platforms: Seq<Seq<char>>,
)
    requires
        !spelled_like_a_flag(builder),
        !spelled_like_a_flag(config.file),
        !spelled_like_a_flag(config.progress),
        !spelled_like_a_flag(target),
    ensures
        ({
            let c = super::bake_command(builder, config, target, from, to, platforms);
            &&& c.contains("--no-cache"@) <==> config.no_cache
            &&& c.contains("--load"@) <==> config.load
            &&& c.contains("--push"@) <==> config.push
        }),
{
    lemma_flag_in_command(builder, config, target, from, to, platforms, "--no-cache"@);
    lemma_flag_in_command(builder, config, target, from, to, platforms, "--load"@);
    lemma_flag_in_command(builder, config, target, from, to, platforms, "--push"@);
    reveal_strlit("--no-cache");
    reveal_strlit("--load");
    reveal_strlit("--push");
    assert("--load"@[2] == 'l');
    assert("--push"@[2] == 'p');
    assert("--no-cache"@[2] == 'n');
}

/// To push is to add `--push` before the target, and to change nothing else of the call.
pub proof fn law_push_only_adds(
    builder: Seq<char>,
    config: BakeConfigView,
    target: Seq<char>,
    from: Seq<Seq<char>>,
    to: Seq<Seq<char>>,
    platforms: Seq<Seq<char>>,
)
    ensures
        ({
            let on = BakeConfigView { push: true, ..config };
            let off = BakeConfigView { push: false, ..config };
            let c = super::bake_command(builder, off, target, from, to, platforms);
            super::bake_command(builder, on, target, from, to, platforms) == c.drop_last().push(
                "--push"@,
            ).push(target)
        }),
{
    let on = BakeConfigView { push: true, ..config };
    let off = BakeConfigView { push: false, ..config };
    let c = super::bake_command(builder, off, target, from, to, platforms);
    assert(super::bake_command(builder, on, target, from, to, platforms) =~= c.drop_last().push(
        "--push"@,
    ).push(target));
}

/// Without a registry nothing is said of caches: the bake file's own stand as they are.
pub proof fn law_caches_stand_without_registry(
    builder: Seq<char>,
    config: BakeConfigView,
    target: Seq<char>,
    from: Seq<Seq<char>>,
    to: Seq<Seq<char>>,
    platforms: Seq<Seq<char>>,
)
    requires
        config.cache_registry is None,
    ensures
        super::bake_command(builder, config, target, from, to, platforms) == super::bake_command(
            builder,
            config,
            target,
            Seq::empty(),
            Seq::empty(),
            platforms,
        ),
{
}

/// A build succeeds where it ended by itself with the code 0, and only there. One that ended with
/// another code, or without one, failed, with its target and its log; one that was stopped was
/// cancelled.
pub proof fn law_only_code_zero_succeeds(
    outcome: BuildOutcome,
    target: Seq<char>,
    log: Seq<char>,
)
    ensures
        match outcome {
            BuildOutcome::Killed => super::conclusion(outcome, target, log) == Err::<
                Seq<char>,
                BuildErrorView,
            >(BuildErrorView::Cancelled),
            BuildOutcome::Exited(status) => if status.code == Some(0i32) {
                super::conclusion(outcome, target, log) == Ok::<Seq<char>, BuildErrorView>(log)
            } else {
                super::conclusion(outcome, target, log) == Err::<Seq<char>, BuildErrorView>(
                    BuildErrorView::Failed { target, log },
                )
            },
        },
{
}

/// A build that a signal ended after it was told to stop was stopped, and so was one that has no
/// code or the code 0; any other has failed by itself.
pub proof fn law_told_builds_are_stopped(status: ExitStatus)
    ensures
        status.signal is Some ==> super::outcome_after_signal(status) is Killed,
        status.code is None ==> super::outcome_after_signal(status) is Killed,
        status.signal is None && (status.code matches Some(c) && c != 0)
            ==> super::outcome_after_signal(status) == BuildOutcome::Exited(status),
{
}

/// What is said of a failed build names its target and its log.
pub proof fn law_failures_name_their_log(target: Seq<char>, log: Seq<char>)
    ensures
        text::occurs(super::build_error_text(BuildErrorView::Failed { target, log }), target),
        text::occurs(super::build_error_text(BuildErrorView::Failed { target, log }), log),
{
    let a = "bake failed for target "@;
    let b = " (log: "@;
    let c = ")"@;
    text::lemma_occurs_between(a, target, b + log + c);
    assert(a + target + (b + log + c) =~= a + target + b + log + c);
    text::lemma_occurs_between(a + target + b, log, c);
}

/// The caches that a call says again are those that the bake file gives the target: to read from
/// where it reads, to write to where it writes, each as it takes it, in their order.
pub proof fn law_own_caches_are_said_again(cache: Option<&TargetCacheConfig>, i: int)
    ensures
        match cache {
            Some(c) => {
                &&& super::own_from(cache).len() == c.cache_from@.len()
                &&& super::own_to(cache).len() == c.cache_to@.len()
                &&& 0 <= i < c.cache_from@.len() ==> super::own_from(cache)[i]
                    == bakeprint::cache_arg(c.cache_from@[i]@)
                &&& 0 <= i < c.cache_to@.len() ==> super::own_to(cache)[i] == bakeprint::cache_arg(
                    c.cache_to@[i]@,
                )
            },
            None => super::own_from(cache).len() == 0 && super::own_to(cache).len() == 0,
        },
{
}

/// A build that has ended is not waited for, and how it ended counts even where the run is
/// cancelled; only a cancelled run stops a build that is going on.
pub proof fn law_an_end_counts_before_a_stop(
    ended: Option<ExitStatus>,
    cancelled: bool,
    r: WaitStep,
)
    requires
        call_ensures(super::wait_step, (ended, cancelled), r),
    ensures
        ended matches Some(status) ==> r == WaitStep::Finished(BuildOutcome::Exited(status)),
        r is Stop <==> ended is None && cancelled,
        r is Wait <==> ended is None && !cancelled,
{
}

/// A build that is to be stopped is told so where it can be told, and killed where it cannot. One
/// that had ended by itself keeps its end, and one that nothing is known of counts as stopped.
pub proof fn law_a_running_build_is_told_to_stop(probe: Probe, r: StopStep)
    requires
        call_ensures(super::after_probe, (probe,), r),
    ensures
        r is Terminate <==> probe == (Probe::Running { has_pid: true }),
        r is Kill <==> probe == (Probe::Running { has_pid: false }),
        probe matches Probe::Exited(status) ==> r == StopStep::Finished(
            BuildOutcome::Exited(status),
        ),
        probe is Lost ==> r == StopStep::Finished(BuildOutcome::Killed),
{
}

/// A build that does not end in the time it is given is killed. One that ends on a signal or
/// without an error counts as stopped, and one that ends with an error of its own as failed.
pub proof fn law_time_to_stop_runs_out(waited: Option<ExitStatus>, r: StopStep)
    requires
        call_ensures(super::after_grace, (waited,), r),
    ensures
        r is Kill <==> waited is None,
        !(r is Terminate),
        waited matches Some(status) ==> (status.signal is Some || status.code == Some(0i32)
            || status.code is None ==> r == StopStep::Finished(BuildOutcome::Killed)),
        waited matches Some(status) ==> (status.signal is None && status.code is Some && status.code
            != Some(0i32) ==> r == StopStep::Finished(BuildOutcome::Exited(status))),
{
}

}
