//! The build of one target: how it is called, and how it ends.
use crate::bakeprint;
use crate::bakeprint::CacheEntry;
use crate::names;
use crate::text;
use crate::text::{add_text, joined};
use vstd::prelude::*;
use vstd::string::*;

pub mod laws;

verus! {

/// What holds for all builds of a run.
#[derive(Debug, Clone)]
pub struct BakeConfig {
    pub file: String,
    pub progress: String,
    pub cache_registry: Option<String>,
    pub no_cache: bool,
    pub load: bool,
    pub push: bool,
    pub fail_fast: bool,
}

/// What a build goes by.
pub struct BakeConfigView {
    pub file: Seq<char>,
    pub progress: Seq<char>,
    pub cache_registry: Option<Seq<char>>,
    pub no_cache: bool,
    pub load: bool,
    pub push: bool,
    pub fail_fast: bool,
}

impl View for BakeConfig {
    type V = BakeConfigView;

    open spec fn view(&self) -> BakeConfigView {
        BakeConfigView {
            file: self.file@,
            progress: self.progress@,
            cache_registry: match self.cache_registry {
                Some(r) => Some(r@),
                None => None,
            },
            no_cache: self.no_cache,
            load: self.load,
            push: self.push,
            fail_fast: self.fail_fast,
        }
    }
}

/// The caches that the bake file gives a target.
#[derive(Debug)]
pub struct TargetCacheConfig {
    pub cache_from: Vec<CacheEntry>,
    pub cache_to: Vec<CacheEntry>,
}

impl Default for TargetCacheConfig {
    fn default() -> (r: TargetCacheConfig)
        ensures
            r.cache_from@ == Seq::<CacheEntry>::empty(),
            r.cache_to@ == Seq::<CacheEntry>::empty(),
    {
        TargetCacheConfig { cache_from: Vec::new(), cache_to: Vec::new() }
    }
}

/// Cache entries the way `--set` takes them.
pub open spec fn cache_args(entries: Seq<CacheEntry>) -> Seq<Seq<char>> {
    entries.map_values(|e: CacheEntry| bakeprint::cache_arg(e@))
}

/// Cache entries the way `--set` takes them.
pub fn cache_entry_args(entries: &[CacheEntry]) -> (r: Vec<String>)
    ensures
        text::texts(r@) == cache_args(entries@),
{
    let mut r: Vec<String> = Vec::new();
    let mut i: usize = 0;
    assert(text::texts(r@) =~= cache_args(entries@).take(0));
    while i < entries.len()
        invariant
            i <= entries@.len(),
            text::texts(r@) == cache_args(entries@).take(i as int),
        decreases entries@.len() - i,
    {
        add_text(&mut r, entries[i].to_arg());
        assert(text::texts(r@) =~= cache_args(entries@).take(i + 1));
        i += 1;
    }
    assert(cache_args(entries@).take(i as int) =~= cache_args(entries@));
    r
}

/// A `--set` for each value.
pub open spec fn settings(key: Seq<char>, values: Seq<Seq<char>>) -> Seq<Seq<char>>
    decreases values.len(),
{
    if values.len() == 0 {
        Seq::empty()
    } else {
        settings(key, values.drop_last()) + seq!["--set"@, key + values.last()]
    }
}

fn add_settings(out: &mut Vec<String>, key: &str, values: &[String])
    ensures
        text::texts(final(out)@) == text::texts(old(out)@) + settings(key@, text::texts(values@)),
{
    let ghost before = text::texts(out@);
    let ghost all = text::texts(values@);
    let mut i: usize = 0;
    assert(before + settings(key@, all.take(0)) =~= before);
    while i < values.len()
        invariant
            i <= values@.len(),
            all == text::texts(values@),
            text::texts(out@) == before + settings(key@, all.take(i as int)),
        decreases values@.len() - i,
    {
        proof {
            assert(all.take(i + 1).drop_last() =~= all.take(i as int));
            assert(all.take(i + 1).last() == values@[i as int]@);
        }
        add_text(out, "--set".to_string());
        add_text(out, key.to_string().concat(values[i].as_str()));
        assert(text::texts(out@) =~= before + settings(key@, all.take(i + 1)));
        i += 1;
    }
    assert(all.take(i as int) =~= all);
}

/// The caches to read from: the bake file's own, and the registry's.
pub open spec fn caches_from(
    registry: Seq<char>,
    target: Seq<char>,
    own: Seq<Seq<char>>,
) -> Seq<Seq<char>> {
    own.push("type=registry,ref="@ + registry + "/buildcache/"@ + target)
}

/// The caches to write to: the bake file's own, and the registry's.
pub open spec fn caches_to(
    registry: Seq<char>,
    target: Seq<char>,
    own: Seq<Seq<char>>,
) -> Seq<Seq<char>> {
    own.push("type=registry,ref="@ + registry + "/buildcache/"@ + target + ",mode=max"@)
}

/// The settings for the platforms that a target asks for.
pub open spec fn platform_settings(target: Seq<char>, platforms: Seq<Seq<char>>) -> Seq<Seq<char>> {
    if platforms.len() == 0 {
        Seq::empty()
    } else {
        seq!["--set"@, target + ".platform="@ + text::join(platforms, ","@)]
    }
}

/// The settings for caches. One `--set` would replace what the bake file says, so that is said
/// again beside what the registry adds.
pub open spec fn cache_settings(
    registry: Option<Seq<char>>,
    target: Seq<char>,
    own_from: Seq<Seq<char>>,
    own_to: Seq<Seq<char>>,
) -> Seq<Seq<char>> {
    match registry {
        Some(r) => settings(target + ".cache-from="@, caches_from(r, target, own_from)) + settings(
            target + ".cache-to="@,
            caches_to(r, target, own_to),
        ),
        None => Seq::empty(),
    }
}

/// A flag, if it is set.
pub open spec fn flag(on: bool, name: Seq<char>) -> Seq<Seq<char>> {
    if on {
        seq![name]
    } else {
        Seq::empty()
    }
}

/// The arguments of `docker` that build a target.
pub open spec fn bake_command(
    builder: Seq<char>,
    config: BakeConfigView,
    target: Seq<char>,
    own_from: Seq<Seq<char>>,
    own_to: Seq<Seq<char>>,
    platforms: Seq<Seq<char>>,
) -> Seq<Seq<char>> {
    seq![
        "buildx"@,
        "bake"@,
        "--builder"@,
        builder,
        "-f"@,
        config.file,
        "--progress"@,
        config.progress,
    ] + platform_settings(target, platforms) + cache_settings(
        config.cache_registry,
        target,
        own_from,
        own_to,
    ) + flag(config.no_cache, "--no-cache"@) + flag(config.load, "--load"@) + flag(
        config.push,
        "--push"@,
    ) + seq![target]
}

/// The caches that the bake file gives a target to read from.
pub open spec fn own_from(cache: Option<&TargetCacheConfig>) -> Seq<Seq<char>> {
    match cache {
        Some(c) => cache_args(c.cache_from@),
        None => Seq::empty(),
    }
}

/// The caches that the bake file gives a target to write to.
pub open spec fn own_to(cache: Option<&TargetCacheConfig>) -> Seq<Seq<char>> {
    match cache {
        Some(c) => cache_args(c.cache_to@),
        None => Seq::empty(),
    }
}

fn add_cache_settings(
    out: &mut Vec<String>,
    registry: &Option<String>,
    target: &str,
    cache: Option<&TargetCacheConfig>,
)
    ensures
        text::texts(final(out)@) == text::texts(old(out)@) + cache_settings(
            match *registry {
                Some(r) => Some(r@),
                None => None,
            },
            target@,
            own_from(cache),
            own_to(cache),
        ),
{
    let ghost before = text::texts(out@);
    match registry {
        Some(r) => {
            let mut from: Vec<String> = Vec::new();
            let mut to: Vec<String> = Vec::new();
            if let Some(c) = cache {
                from = cache_entry_args(c.cache_from.as_slice());
                to = cache_entry_args(c.cache_to.as_slice());
            } else {
                assert(text::texts(from@) =~= Seq::empty());
                assert(text::texts(to@) =~= Seq::empty());
            }
            let place = "type=registry,ref=".to_string().concat(r.as_str()).concat(
                "/buildcache/",
            ).concat(target);
            add_text(&mut from, place.clone());
            add_text(&mut to, place.concat(",mode=max"));
            add_settings(
                out,
                target.to_string().concat(".cache-from=").as_str(),
                from.as_slice(),
            );
            let ghost mid = text::texts(out@);
            add_settings(out, target.to_string().concat(".cache-to=").as_str(), to.as_slice());
            proof {
                let a = settings(
                    target@ + ".cache-from="@,
                    caches_from(r@, target@, own_from(cache)),
                );
                let b = settings(target@ + ".cache-to="@, caches_to(r@, target@, own_to(cache)));
                assert((before + a) + b =~= before + (a + b));
            }
        },
        None => {
            assert(before + Seq::empty() =~= before);
        },
    }
}

/// The arguments of `docker` that build a target with the builder of a node.
///
/// The platforms that the target asks for are set, so that a node of many architectures, or of
/// another one, pulls the right images.
pub fn bake_args(
    builder: &str,
    config: &BakeConfig,
    target: &str,
    target_cache: Option<&TargetCacheConfig>,
    target_platforms: &[String],
) -> (r: Vec<String>)
    ensures
        text::texts(r@) == bake_command(
            builder@,
            config@,
            target@,
            own_from(target_cache),
            own_to(target_cache),
            text::texts(target_platforms@),
        ),
{
    let mut r: Vec<String> = Vec::new();
    add_text(&mut r, "buildx".to_string());
    add_text(&mut r, "bake".to_string());
    add_text(&mut r, "--builder".to_string());
    add_text(&mut r, builder.to_string());
    add_text(&mut r, "-f".to_string());
    add_text(&mut r, config.file.clone());
    add_text(&mut r, "--progress".to_string());
    add_text(&mut r, config.progress.clone());
    let ghost head = seq![
        "buildx"@,
        "bake"@,
        "--builder"@,
        builder@,
        "-f"@,
        config@.file,
        "--progress"@,
        config@.progress,
    ];
    assert(text::texts(r@) =~= head);
    let ghost plats = platform_settings(target@, text::texts(target_platforms@));
    if target_platforms.len() > 0 {
        add_text(&mut r, "--set".to_string());
        let list = joined(target_platforms, ",");
        add_text(&mut r, target.to_string().concat(".platform=").concat(list.as_str()));
    }
    assert(text::texts(r@) =~= head + plats);
    add_cache_settings(&mut r, &config.cache_registry, target, target_cache);
    let ghost cached = text::texts(r@);
    if config.no_cache {
        add_text(&mut r, "--no-cache".to_string());
    }
    assert(text::texts(r@) =~= cached + flag(config.no_cache, "--no-cache"@));
    let ghost with_no_cache = text::texts(r@);
    if config.load {
        add_text(&mut r, "--load".to_string());
    }
    assert(text::texts(r@) =~= with_no_cache + flag(config.load, "--load"@));
    let ghost with_load = text::texts(r@);
    if config.push {
        add_text(&mut r, "--push".to_string());
    }
    assert(text::texts(r@) =~= with_load + flag(config.push, "--push"@));
    let ghost with_push = text::texts(r@);
    add_text(&mut r, target.to_string());
    assert(text::texts(r@) =~= with_push + seq![target@]);
    r
}

/// What a setting stands for is among the settings.
proof fn lemma_settings_hold(key: Seq<char>, values: Seq<Seq<char>>, i: int)
    requires
        0 <= i < values.len(),
    ensures
        settings(key, values).contains(key + values[i]),
    decreases values.len(),
{
    let head = settings(key, values.drop_last());
    let last = seq!["--set"@, key + values.last()];
    if i < values.len() - 1 {
        lemma_settings_hold(key, values.drop_last(), i);
        assert(values.drop_last()[i] == values[i]);
        names::lemma_sum_contains(head, last, key + values[i]);
    } else {
        assert(last[1] == key + values[i]);
        names::lemma_sum_contains(head, last, key + values[i]);
    }
}

/// With a registry, every cache that the bake file gives a target is still named: the registry's
/// is added and replaces none.
pub proof fn law_own_caches_are_kept(
    builder: Seq<char>,
    config: BakeConfigView,
    target: Seq<char>,
    from: Seq<Seq<char>>,
    to: Seq<Seq<char>>,
    platforms: Seq<Seq<char>>,
    i: int,
)
    requires
        config.cache_registry is Some,
    ensures
        0 <= i < from.len() ==> bake_command(builder, config, target, from, to, platforms).contains(
            target + ".cache-from="@ + from[i],
        ),
        0 <= i < to.len() ==> bake_command(builder, config, target, from, to, platforms).contains(
            target + ".cache-to="@ + to[i],
        ),
{
    let registry = config.cache_registry->0;
    let a = settings(target + ".cache-from="@, caches_from(registry, target, from));
    let b = settings(target + ".cache-to="@, caches_to(registry, target, to));
    if 0 <= i < from.len() {
        let x = target + ".cache-from="@ + from[i];
        assert(caches_from(registry, target, from)[i] == from[i]);
        lemma_settings_hold(target + ".cache-from="@, caches_from(registry, target, from), i);
        names::lemma_sum_contains(a, b, x);
        lemma_cache_setting_in_command(builder, config, target, from, to, platforms, x);
    }
    if 0 <= i < to.len() {
        let x = target + ".cache-to="@ + to[i];
        assert(caches_to(registry, target, to)[i] == to[i]);
        lemma_settings_hold(target + ".cache-to="@, caches_to(registry, target, to), i);
        names::lemma_sum_contains(a, b, x);
        lemma_cache_setting_in_command(builder, config, target, from, to, platforms, x);
    }
}

proof fn lemma_cache_setting_in_command(
    builder: Seq<char>,
    config: BakeConfigView,
    target: Seq<char>,
    from: Seq<Seq<char>>,
    to: Seq<Seq<char>>,
    platforms: Seq<Seq<char>>,
    x: Seq<char>,
)
    requires
        cache_settings(config.cache_registry, target, from, to).contains(x),
    ensures
        bake_command(builder, config, target, from, to, platforms).contains(x),
{
    let c = cache_settings(config.cache_registry, target, from, to);
    let all = bake_command(builder, config, target, from, to, platforms);
    let k: int = choose|k: int| 0 <= k < c.len() && c[k] == x;
    let at: int = 8 + platform_settings(target, platforms).len() + k;
    assert(all[at] == c[k]);
}

/// How a process ended: with a code, or by a signal.
#[derive(Debug, Clone, Copy, PartialEq, Eq, Structural)]
pub struct ExitStatus {
    pub code: Option<i32>,
    pub signal: Option<i32>,
}

impl ExitStatus {
    /// A process that a signal ended has no code.
    pub open spec fn wf(self) -> bool {
        !(self.code is Some && self.signal is Some)
    }

    /// Whether the process ended well.
    pub open spec fn succeeded(self) -> bool {
        self.code == Some(0i32)
    }

    /// Whether the process ended well.
    pub fn success(&self) -> (r: bool)
        ensures
            r == self.succeeded(),
    {
        match self.code {
            Some(c) => c == 0,
            None => false,
        }
    }
}

/// Why a build came to an end.
#[derive(Debug, Clone, Copy, PartialEq, Eq, Structural)]
pub enum BuildOutcome {
    /// It ended by itself.
    Exited(ExitStatus),
    /// It was stopped because the run was cancelled.
    Killed,
}

/// Why a build gave nothing.
#[derive(Debug, Clone, PartialEq, Eq)]
pub enum BuildError {
    Cancelled,
    Failed { target: String, log: String },
}

/// What an error says.
pub enum BuildErrorView {
    Cancelled,
    Failed { target: Seq<char>, log: Seq<char> },
}

impl View for BuildError {
    type V = BuildErrorView;

    open spec fn view(&self) -> BuildErrorView {
        match self {
            BuildError::Cancelled => BuildErrorView::Cancelled,
            BuildError::Failed { target, log } => BuildErrorView::Failed {
                target: target@,
                log: log@,
            },
        }
    }
}

/// The text of an error.
pub open spec fn build_error_text(e: BuildErrorView) -> Seq<char> {
    match e {
        BuildErrorView::Cancelled => "cancelled"@,
        BuildErrorView::Failed { target, log } => "bake failed for target "@ + target + " (log: "@
            + log + ")"@,
    }
}

impl BuildError {
    /// The text of the error.
    pub fn message(&self) -> (r: String)
        ensures
            r@ == build_error_text(self@),
    {
        match self {
            BuildError::Cancelled => "cancelled".to_string(),
            BuildError::Failed { target, log } => "bake failed for target ".to_string().concat(
                target.as_str(),
            ).concat(" (log: ").concat(log.as_str()).concat(")"),
        }
    }
}

/// How many seconds a build that is told to stop has to close its session.
pub const TERM_GRACE_SECS: u64 = 5;

/// How many seconds what a build still prints is waited for.
pub const DRAIN_SECS: u64 = 5;

/// How a build ended that was told to stop. Death by the signal, or a good end, means that it
/// was stopped; a bad end that it chose itself is a failure. So a build that was interrupted is
/// never taken for one that succeeded, and one that was failing keeps its failure.
pub open spec fn outcome_after_signal(status: ExitStatus) -> BuildOutcome {
    if status.signal is Some || status.code is None || status.code == Some(0i32) {
        BuildOutcome::Killed
    } else {
        BuildOutcome::Exited(status)
    }
}

/// How a build ended that was told to stop.
pub fn classify_after_signal(status: ExitStatus) -> (r: BuildOutcome)
    ensures
        r == outcome_after_signal(status),
{
    if let Some(_) = status.signal {
        return BuildOutcome::Killed;
    }
    match status.code {
        Some(c) => if c == 0 {
            BuildOutcome::Killed
        } else {
            BuildOutcome::Exited(status)
        },
        None => BuildOutcome::Killed,
    }
}

/// What a look at a build that is to be stopped shows.
#[derive(Debug, Clone, Copy, PartialEq, Eq, Structural)]
pub enum Probe {
    /// It has already ended.
    Exited(ExitStatus),
    /// It still runs; whether it can be sent a signal.
    Running { has_pid: bool },
    /// It cannot be told: someone else has taken note of its end.
    Lost,
}

/// What to do with a build that is to be stopped.
#[derive(Debug, Clone, Copy, PartialEq, Eq, Structural)]
pub enum StopStep {
    /// Nothing more: this is how it ended.
    Finished(BuildOutcome),
    /// Tell it to stop, and give it time.
    Terminate,
    /// Kill it, and wait.
    Kill,
}

/// What to do after a look at a build that is to be stopped. One that has ended by itself keeps
/// its end. One that cannot be found is not sent a signal: its number may be another's by now.
pub fn after_probe(probe: Probe) -> (r: StopStep)
    ensures
        r == match probe {
            Probe::Exited(status) => StopStep::Finished(BuildOutcome::Exited(status)),
            Probe::Running { has_pid } => if has_pid {
                StopStep::Terminate
            } else {
                StopStep::Kill
            },
            Probe::Lost => StopStep::Finished(BuildOutcome::Killed),
        },
{
    match probe {
        Probe::Exited(status) => StopStep::Finished(BuildOutcome::Exited(status)),
        Probe::Running { has_pid } => if has_pid {
            StopStep::Terminate
        } else {
            StopStep::Kill
        },
        Probe::Lost => StopStep::Finished(BuildOutcome::Killed),
    }
}

/// What to do once a build that was told to stop has ended, or its time is over.
pub fn after_grace(waited: Option<ExitStatus>) -> (r: StopStep)
    ensures
        r == match waited {
            Some(status) => StopStep::Finished(outcome_after_signal(status)),
            None => StopStep::Kill,
        },
{
    match waited {
        Some(status) => StopStep::Finished(classify_after_signal(status)),
        None => StopStep::Kill,
    }
}

/// What a wait for a build comes to. An end counts even where the run is cancelled at the same
/// moment: a build that succeeded is not taken for one that was stopped.
#[derive(Debug, Clone, Copy, PartialEq, Eq, Structural)]
pub enum WaitStep {
    Finished(BuildOutcome),
    Stop,
    Wait,
}

/// What to do while a build is waited for, by its end and whether the run is cancelled.
pub fn wait_step(ended: Option<ExitStatus>, cancelled: bool) -> (r: WaitStep)
    ensures
        r == match ended {
            Some(status) => WaitStep::Finished(BuildOutcome::Exited(status)),
            None => if cancelled {
                WaitStep::Stop
            } else {
                WaitStep::Wait
            },
        },
{
    match ended {
        Some(status) => WaitStep::Finished(BuildOutcome::Exited(status)),
        None => if cancelled {
            WaitStep::Stop
        } else {
            WaitStep::Wait
        },
    }
}

/// What a build comes to: its log, or why it gave nothing.
pub open spec fn conclusion(
    outcome: BuildOutcome,
    target: Seq<char>,
    log: Seq<char>,
) -> Result<Seq<char>, BuildErrorView> {
    match outcome {
        BuildOutcome::Killed => Err(BuildErrorView::Cancelled),
        BuildOutcome::Exited(status) => if status.succeeded() {
            Ok(log)
        } else {
            Err(BuildErrorView::Failed { target, log })
        },
    }
}

/// What a build comes to: its log, or why it gave nothing.
pub fn conclude_build(outcome: BuildOutcome, target: &str, log_path: String) -> (r: Result<
    String,
    BuildError,
>)
    ensures
        match r {
            Ok(log) => conclusion(outcome, target@, log_path@) == Ok::<_, BuildErrorView>(log@),
            Err(e) => conclusion(outcome, target@, log_path@) == Err::<Seq<char>, _>(e@),
        },
{
    match outcome {
        BuildOutcome::Killed => Err(BuildError::Cancelled),
        BuildOutcome::Exited(status) => if status.success() {
            Ok(log_path)
        } else {
            Err(BuildError::Failed { target: target.to_string(), log: log_path })
        },
    }
}

/// A build that was told to stop never counts as one that succeeded.
pub proof fn law_stopped_build_never_succeeds(
    status: ExitStatus,
    target: Seq<char>,
    log: Seq<char>,
)
    ensures
        conclusion(outcome_after_signal(status), target, log) is Err,
{
}

/// A build that fails by itself while it is told to stop is reported as failed, with its log.
pub proof fn law_own_failure_is_kept(status: ExitStatus, code: i32, target: Seq<char>, log: Seq<char>)
    requires
        status.wf(),
        status.code == Some(code),
        code != 0,
    ensures
        conclusion(outcome_after_signal(status), target, log) == Err::<Seq<char>, BuildErrorView>(
            BuildErrorView::Failed { target, log },
        ),
{
}

}
