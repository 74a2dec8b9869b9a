//! What a run has come to.
use crate::text;
use crate::text::{add_text, decimal_of, same_text};
use crate::tui::fallback;
use crate::tui::fallback::clock;
use crate::tui::state::{BoardView, DashboardState, GroupView, StatusKind, StatusView, TargetStatus};
use vstd::prelude::*;
use vstd::string::*;

pub mod laws;

verus! {

/// How a run ended.
#[derive(Debug, Clone, Copy, PartialEq, Eq, Structural)]
pub enum Outcome {
    Success,
    Failed,
    /// The user interrupted it.
    Cancelled,
}

/// The code that the program ends with: for an interrupted run that of the signal, as a shell
/// gives it.
pub fn exit_code(outcome: Outcome) -> (r: u8)
    ensures
        r == match outcome {
            Outcome::Success => 0u8,
            Outcome::Failed => 1u8,
            Outcome::Cancelled => 130u8,
        },
{
    match outcome {
        Outcome::Success => 0,
        Outcome::Failed => 1,
        Outcome::Cancelled => 130,
    }
}

/// How a run ended, by what is shown of its targets and whether it was cancelled. A run that was
/// cancelled after its last build was not interrupted.
pub open spec fn outcome_of(v: BoardView, cancelled: bool) -> Outcome {
    let done = v.of_kind(StatusKind::Done).len();
    let skipped = v.of_kind(StatusKind::Skipped).len();
    if v.group(GroupView::Failed).len() > 0 {
        Outcome::Failed
    } else if cancelled && (skipped > 0 || done < v.total) {
        Outcome::Cancelled
    } else if skipped > 0 {
        Outcome::Failed
    } else {
        Outcome::Success
    }
}

/// A line for each target that failed.
pub open spec fn failure_lines(names: Seq<Seq<char>>, v: BoardView) -> Seq<Seq<char>>
    decreases names.len(),
{
    if names.len() == 0 {
        Seq::empty()
    } else {
        let before = failure_lines(names.drop_last(), v);
        match v.targets[names.last()].status {
            StatusView::Failed(reason) => before.push(
                "  - "@ + names.last() + " ("@ + reason + ")"@,
            ),
            _ => before,
        }
    }
}

/// The line that ends a run without failures.
pub open spec fn built_line(v: BoardView, secs: nat) -> Seq<char> {
    let skipped = v.of_kind(StatusKind::Skipped).len();
    "\n"@ + text::decimal(v.of_kind(StatusKind::Done).len()) + " of "@ + text::decimal(v.total)
        + " targets built across "@ + text::decimal(v.nodes.len()) + " nodes in "@
        + fallback::clock_text(secs) + "."@ + if skipped > 0 {
        " "@ + text::decimal(skipped) + " skipped."@
    } else {
        ""@
    }
}

/// What is said at the end of a run: the failures and where the logs are, or what was built.
pub open spec fn closing(v: BoardView, run_dir: Seq<char>, secs: nat) -> Seq<Seq<char>> {
    let failed = v.group(GroupView::Failed);
    if failed.len() > 0 {
        seq!["\nFAILED targets:"@] + failure_lines(failed, v) + seq!["Logs: "@ + run_dir]
    } else {
        seq![built_line(v, secs)]
    }
}

/// The end of a run.
pub struct Closing {
    pub outcome: Outcome,
    pub lines: Vec<String>,
}

/// How a run ended, and what is said of it.
pub fn close_run(state: &DashboardState, cancelled: bool, run_dir: &str, elapsed_secs: u64) -> (r:
    Closing)
    requires
        state.wf(),
    ensures
        r.outcome == outcome_of(state@, cancelled),
        text::texts(r.lines@) == closing(state@, run_dir@, elapsed_secs as nat),
{
    let ghost v = state@;
    let failed = state.failed_targets();
    let ghost names = v.group(GroupView::Failed);
    assert(names.len() == failed@.len());
    let mut lines: Vec<String> = Vec::new();
    if failed.len() > 0 {
        add_text(&mut lines, "\nFAILED targets:".to_string());
        let ghost head = seq!["\nFAILED targets:"@];
        let mut i: usize = 0;
        assert(text::texts(lines@) =~= head + failure_lines(names.take(0), v));
        while i < failed.len()
            invariant
                v == state@,
                i <= failed@.len(),
                names == crate::tui::state::info_names(failed@),
                forall|j: int|
                    0 <= j < failed@.len() ==> (#[trigger] failed@[j])@
                        == v.targets[failed@[j].name@],
                text::texts(lines@) == head + failure_lines(names.take(i as int), v),
            decreases failed@.len() - i,
        {
            proof {
                assert(names.take(i + 1).drop_last() =~= names.take(i as int));
                assert(names.take(i + 1).last() == failed@[i as int].name@);
                assert(failed@[i as int]@ == v.targets[failed@[i as int].name@]);
            }
            if let TargetStatus::Failed(reason) = &failed[i].status {
                let line = "  - ".to_string().concat(failed[i].name.as_str()).concat(" (").concat(
                    reason.as_str(),
                ).concat(")");
                add_text(&mut lines, line);
                assert(text::texts(lines@) =~= head + failure_lines(names.take(i + 1), v));
            }
            i += 1;
        }
        assert(names.take(i as int) =~= names);
        add_text(&mut lines, "Logs: ".to_string().concat(run_dir));
        assert(text::texts(lines@) =~= closing(v, run_dir@, elapsed_secs as nat));
        return Closing { outcome: Outcome::Failed, lines };
    }
    let done: usize = state.count_done();
    let skipped: usize = state.count_skipped();
    let nodes = state.nodes();
    assert(text::texts(nodes@).len() == nodes@.len());
    let tail: String = if skipped > 0 {
        " ".to_string().concat(decimal_of(skipped as u64).as_str()).concat(" skipped.")
    } else {
        "".to_string()
    };
    let line = "\n".to_string().concat(decimal_of(done as u64).as_str()).concat(" of ").concat(
        decimal_of(state.total() as u64).as_str(),
    ).concat(" targets built across ").concat(decimal_of(nodes.len() as u64).as_str()).concat(
        " nodes in ",
    ).concat(clock(elapsed_secs).as_str()).concat(".").concat(tail.as_str());
    add_text(&mut lines, line);
    assert(text::texts(lines@) =~= closing(v, run_dir@, elapsed_secs as nat));
    let outcome = if cancelled && (skipped > 0 || done < state.total()) {
        Outcome::Cancelled
    } else if skipped > 0 {
        Outcome::Failed
    } else {
        Outcome::Success
    };
    Closing { outcome, lines }
}

/// The kind of progress that builds print: line by line where the screen is drawn here.
pub fn bake_progress(progress: &str) -> (r: String)
    ensures
        r@ == if progress@ == "auto"@ {
            "plain"@
        } else {
            progress@
        },
{
    if same_text(progress, "auto") {
        "plain".to_string()
    } else {
        progress.to_string()
    }
}

/// Whether the screen is drawn: where there is one, and lines were not asked for.
pub fn uses_screen(is_terminal: bool, progress: &str) -> (r: bool)
    ensures
        r == (is_terminal && progress@ != "plain"@),
{
    is_terminal && !same_text(progress, "plain")
}

/// The line that starts the builds.
pub fn dispatch_line(targets: usize, nodes: usize) -> (r: String)
    ensures
        r@ == "Dispatching "@ + text::decimal(targets as nat) + " targets across "@ + text::decimal(
            nodes as nat,
        ) + " nodes (1 build/node)..."@,
{
    "Dispatching ".to_string().concat(decimal_of(targets as u64).as_str()).concat(
        " targets across ",
    ).concat(decimal_of(nodes as u64).as_str()).concat(" nodes (1 build/node)...")
}

/// A run ends well only where every target that was given was built, if each is known.
pub proof fn law_success_means_all_built(v: BoardView, cancelled: bool)
    requires
        v.targets.dom().finite(),
        v.total == v.targets.dom().len(),
        v.complete(),
        outcome_of(v, cancelled) is Success,
    ensures
        v.of_kind(StatusKind::Done) == v.targets.dom(),
{
    crate::tui::laws::law_counts_make_up_all(v);
    crate::tui::laws::law_complete_means_all_ended(v);
    let d = v.of_kind(StatusKind::Done);
    let f = v.of_kind(StatusKind::Failed);
    vstd::set_lib::lemma_set_subset_finite(v.targets.dom(), d);
    vstd::set_lib::lemma_set_subset_finite(v.targets.dom(), f);
    assert(f =~= Set::empty()) by {
        assert forall|t: Seq<char>| !f.contains(t) by {
            if f.contains(t) {
                crate::tui::laws::law_failed_are_listed(v, t);
            }
        }
    }
    vstd::set_lib::lemma_subset_equality(d, v.targets.dom());
}

}
