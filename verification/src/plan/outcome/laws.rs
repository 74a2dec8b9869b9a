//! How a run is judged, and what is said of it.
use super::Outcome;
use crate::text;
use crate::tui;
use crate::tui::state::{BoardView, GroupView, StatusKind, StatusView};
use vstd::prelude::*;

verus! {

/// A kind has targets where some target is of it.
proof fn lemma_kind(v: BoardView, kind: StatusKind, t: Seq<char>)
    requires
        v.targets.dom().finite(),
    ensures
        v.of_kind(kind).finite(),
        v.of_kind(kind).contains(t) ==> v.of_kind(kind).len() > 0,
        v.of_kind(kind).len() == 0 ==> !v.of_kind(kind).contains(t),
{
    vstd::set_lib::lemma_set_subset_finite(v.targets.dom(), v.of_kind(kind));
    if v.of_kind(kind).len() == 0 {
        assert(v.of_kind(kind) =~= Set::<Seq<char>>::empty());
    }
}

/// A run in which a target failed has failed, though it was cancelled as well.
pub proof fn law_a_failure_fails_the_run(v: BoardView, cancelled: bool, t: Seq<char>)
    requires
        v.targets.dom().finite(),
        v.targets.contains_key(t),
        v.targets[t].status is Failed,
    ensures
        super::outcome_of(v, cancelled) is Failed,
{
    tui::laws::law_failed_are_listed(v, t);
    assert(v.group(GroupView::Failed).contains(t));
}

/// A run without failures in which a target was skipped was interrupted, if it was cancelled, and
/// has otherwise failed: it is never taken for a success.
pub proof fn law_a_skipped_target_is_no_success(v: BoardView, cancelled: bool, t: Seq<char>)
    requires
        v.targets.dom().finite(),
        v.targets.contains_key(t),
        v.targets[t].status is Cancelled || v.targets[t].status is Blocked,
        forall|x: Seq<char>| #[trigger]
            v.targets.contains_key(x) ==> !(v.targets[x].status is Failed),
    ensures
        super::outcome_of(v, cancelled) == if cancelled {
            Outcome::Cancelled
        } else {
            Outcome::Failed
        },
{
    lemma_nothing_failed(v);
    assert(v.of_kind(StatusKind::Skipped).contains(t));
    lemma_kind(v, StatusKind::Skipped, t);
}

proof fn lemma_nothing_failed(v: BoardView)
    requires
        v.targets.dom().finite(),
        forall|x: Seq<char>| #[trigger]
            v.targets.contains_key(x) ==> !(v.targets[x].status is Failed),
    ensures
        v.group(GroupView::Failed).len() == 0,
{
    let failed = v.group(GroupView::Failed);
    if failed.len() > 0 {
        let x = failed[0];
        assert(failed.contains(x));
        tui::laws::law_failed_are_listed(v, x);
    }
}

/// A run in which every target was built is a success, though it was cancelled after that.
pub proof fn law_all_built_is_success(v: BoardView, cancelled: bool)
    requires
        v.targets.dom().finite(),
        v.total == v.targets.dom().len(),
        forall|x: Seq<char>| #[trigger] v.targets.contains_key(x) ==> v.targets[x].status is Done,
    ensures
        super::outcome_of(v, cancelled) is Success,
{
    lemma_nothing_failed(v);
    assert(v.of_kind(StatusKind::Done) =~= v.targets.dom());
    assert(v.of_kind(StatusKind::Skipped) =~= Set::<Seq<char>>::empty());
}

/// A cancelled run without failures that left something unbuilt was interrupted.
pub proof fn law_unbuilt_targets_tell_an_interruption(v: BoardView, t: Seq<char>)
    requires
        v.targets.dom().finite(),
        v.total == v.targets.dom().len(),
        v.targets.contains_key(t),
        !(v.targets[t].status is Done),
        forall|x: Seq<char>| #[trigger]
            v.targets.contains_key(x) ==> !(v.targets[x].status is Failed),
    ensures
        super::outcome_of(v, true) is Cancelled,
{
    lemma_nothing_failed(v);
    let done = v.of_kind(StatusKind::Done);
    lemma_kind(v, StatusKind::Done, t);
    if done.len() >= v.total {
        vstd::set_lib::lemma_len_subset(done, v.targets.dom());
        vstd::set_lib::lemma_subset_equality(done, v.targets.dom());
        assert(done.contains(t));
    }
}

proof fn lemma_failure_lines(names: Seq<Seq<char>>, v: BoardView, i: int, reason: Seq<char>)
    requires
        0 <= i < names.len(),
        v.targets[names[i]].status == StatusView::Failed(reason),
    ensures
        super::failure_lines(names, v).contains("  - "@ + names[i] + " ("@ + reason + ")"@),
    decreases names.len(),
{
    let line = "  - "@ + names[i] + " ("@ + reason + ")"@;
    let short = names.drop_last();
    let before = super::failure_lines(short, v);
    if i < short.len() {
        assert(short[i] == names[i]);
        lemma_failure_lines(short, v, i, reason);
        match v.targets[names.last()].status {
            StatusView::Failed(other) => {
                crate::names::lemma_push_contains(
                    before,
                    "  - "@ + names.last() + " ("@ + other + ")"@,
                    line,
                );
            },
            _ => {},
        }
    } else {
        crate::names::lemma_push_contains(before, line, line);
    }
}

/// At the end of a run each target that failed is named with its reason, and it is said where the
/// logs are. Without failures a single line tells how many targets were built, and of how many.
pub proof fn law_the_end_names_failures(
    v: BoardView,
    run_dir: Seq<char>,
    secs: nat,
    t: Seq<char>,
    reason: Seq<char>,
)
    requires
        v.targets.dom().finite(),
    ensures
        v.targets.contains_key(t) && v.targets[t].status == StatusView::Failed(reason) ==> {
            let lines = super::closing(v, run_dir, secs);
            lines.contains("  - "@ + t + " ("@ + reason + ")"@) && lines.last() == "Logs: "@ + run_dir
        },
        (forall|x: Seq<char>| #[trigger]
            v.targets.contains_key(x) ==> !(v.targets[x].status is Failed)) ==> {
            let lines = super::closing(v, run_dir, secs);
            let done = text::decimal(v.of_kind(StatusKind::Done).len());
            lines.len() == 1 && text::occurs(
                lines[0],
                "\n"@ + done + " of "@ + text::decimal(v.total) + " targets built"@,
            )
        },
{
    let failed = v.group(GroupView::Failed);
    if v.targets.contains_key(t) && v.targets[t].status == StatusView::Failed(reason) {
        tui::laws::law_failed_are_listed(v, t);
        assert(failed.contains(t));
        let i: int = choose|i: int| 0 <= i < failed.len() && failed[i] == t;
        lemma_failure_lines(failed, v, i, reason);
        let line = "  - "@ + t + " ("@ + reason + ")"@;
        let head = seq!["\nFAILED targets:"@];
        let mid = super::failure_lines(failed, v);
        crate::names::lemma_sum_contains(head, mid, line);
        crate::names::lemma_sum_contains(head + mid, seq!["Logs: "@ + run_dir], line);
    }
    if forall|x: Seq<char>| #[trigger]
        v.targets.contains_key(x) ==> !(v.targets[x].status is Failed) {
        lemma_nothing_failed(v);
        reveal_strlit(" targets built across ");
        reveal_strlit(" targets built");
        let done = text::decimal(v.of_kind(StatusKind::Done).len());
        let start = "\n"@ + done + " of "@ + text::decimal(v.total) + " targets built"@;
        let line = super::built_line(v, secs);
        let rest = line.skip(start.len() as int);
        assert(line =~= start + rest);
        text::lemma_occurs_between(Seq::empty(), start, rest);
        assert(Seq::<char>::empty() + start + rest =~= line);
    }
}

/// Where targets were skipped and none failed, it is said how many.
pub proof fn law_the_end_counts_the_skipped(v: BoardView, secs: nat)
    requires
        v.of_kind(StatusKind::Skipped).len() > 0,
    ensures
        text::occurs(
            super::built_line(v, secs),
            " "@ + text::decimal(v.of_kind(StatusKind::Skipped).len()) + " skipped."@,
        ),
{
    let piece = " "@ + text::decimal(v.of_kind(StatusKind::Skipped).len()) + " skipped."@;
    let line = super::built_line(v, secs);
    let front = line.take(line.len() - piece.len());
    text::lemma_occurs_between(front, piece, Seq::empty());
    assert(front + piece + Seq::<char>::empty() =~= line);
}

/// The code of the process tells success, failure and cancellation apart: nothing but success is
/// zero, and a run that was cancelled ends as one that an interrupt ended.
pub proof fn law_exit_codes_tell_outcomes_apart(a: Outcome, b: Outcome, x: u8, y: u8)
    requires
        call_ensures(super::exit_code, (a,), x),
        call_ensures(super::exit_code, (b,), y),
    ensures
        x == 0 <==> a is Success,
        x == 1 <==> a is Failed,
        a is Cancelled ==> x == 128 + 2,
        x == y <==> a == b,
{
}

/// Progress that is left to be chosen is printed plainly by the builds; what was chosen stays.
pub proof fn law_chosen_progress_stays(progress: &str, r: String)
    requires
        call_ensures(super::bake_progress, (progress,), r),
    ensures
        progress@ == "auto"@ ==> r@ == "plain"@,
        progress@ != "auto"@ ==> r@ == progress@,
        r@ != "auto"@,
{
    reveal_strlit("auto");
    reveal_strlit("plain");
    assert("auto"@.len() != "plain"@.len());
}

/// The screen is used on a terminal alone, and not where plain progress was chosen.
pub proof fn law_screen_needs_a_terminal(is_terminal: bool, progress: &str, r: bool)
    requires
        call_ensures(super::uses_screen, (is_terminal, progress), r),
    ensures
        !is_terminal ==> !r,
        progress@ == "plain"@ ==> !r,
        is_terminal && progress@ != "plain"@ ==> r,
{
}

}
