//! What is printed, and when.
use super::ReporterView;
use crate::names;
use crate::text;
use crate::tui::state::{BoardView, InfoView, StatusKind, StatusView};
use vstd::prelude::*;

verus! {

proof fn lemma_noted_before(
    list: Seq<Seq<char>>,
    targets: Map<Seq<char>, InfoView>,
    r: ReporterView,
    t: Seq<char>,
)
    requires
        !list.contains(t),
    ensures
        super::drained(list, targets, r).1.announced.contains(t) == r.announced.contains(t),
        super::drained(list, targets, r).1.finished.contains(t) == r.finished.contains(t),
    decreases list.len(),
{
    if list.len() > 0 {
        assert(list.contains(list.last()));
        assert(!list.drop_last().contains(t)) by {
            if list.drop_last().contains(t) {
                let i: int = choose|i: int|
                    0 <= i < list.drop_last().len() && list.drop_last()[i] == t;
                assert(list[i] == t);
            }
        }
        lemma_noted_before(list.drop_last(), targets, r, t);
    }
}

/// The start of a build and the end of a target, however it came to it, are printed at the next
/// call, unless they were printed before.
pub proof fn law_changes_are_printed(
    list: Seq<Seq<char>>,
    targets: Map<Seq<char>, InfoView>,
    r: ReporterView,
    t: Seq<char>,
)
    requires
        list.contains(t),
        targets.contains_key(t),
        !(targets[t].status is Pending),
        targets[t].status is Building ==> !r.announced.contains(t),
        !(targets[t].status is Building) ==> !r.finished.contains(t),
    ensures
        super::drained(list, targets, r).0.contains(super::report_line(t, targets[t])),
        targets[t].status is Building ==> super::drained(list, targets, r).1.announced.contains(t),
        !(targets[t].status is Building) ==> super::drained(list, targets, r).1.finished.contains(
            t,
        ),
    decreases list.len(),
{
    let short = list.drop_last();
    let before = super::drained(short, targets, r);
    let last = list.last();
    names::lemma_push_contains(
        before.0,
        super::report_line(last, targets[last]),
        super::report_line(t, targets[t]),
    );
    if short.contains(t) {
        law_changes_are_printed(short, targets, r, t);
    } else {
        assert(last == t) by {
            let i: int = choose|i: int| 0 <= i < list.len() && list[i] == t;
            if i < short.len() {
                assert(short[i] == t);
            }
        }
        lemma_noted_before(short, targets, r, t);
    }
}

/// Nothing is printed but the line of a target whose start or end is new.
pub proof fn law_only_changes_are_printed(
    list: Seq<Seq<char>>,
    targets: Map<Seq<char>, InfoView>,
    r: ReporterView,
    i: int,
) -> (t: Seq<char>)
    requires
        0 <= i < super::drained(list, targets, r).0.len(),
    ensures
        list.contains(t),
        targets.contains_key(t),
        super::drained(list, targets, r).0[i] == super::report_line(t, targets[t]),
        !(targets[t].status is Pending),
        targets[t].status is Building ==> !r.announced.contains(t),
        !(targets[t].status is Building) ==> !r.finished.contains(t),
    decreases list.len(),
{
    let short = list.drop_last();
    let before = super::drained(short, targets, r);
    if i < before.0.len() {
        let t = law_only_changes_are_printed(short, targets, r, i);
        let k: int = choose|k: int| 0 <= k < short.len() && short[k] == t;
        assert(list[k] == t);
        t
    } else {
        let t = list.last();
        assert(list[list.len() - 1] == t);
        super::lemma_all_reported(short, targets, r);
        t
    }
}

/// The line of a target names it, and tells what became of it: its node, the time that it took, the
/// reason of its failure, or the failures that block it.
pub proof fn law_lines_tell_what_became(name: Seq<char>, info: InfoView, i: int)
    ensures
        !(info.status is Pending) ==> text::occurs(super::report_line(name, info), name),
        info.status is Building || info.status is Done || info.status is Failed ==> text::occurs(
            super::report_line(name, info),
            info.node,
        ),
        info.status matches StatusView::Done(secs) ==> text::occurs(
            super::report_line(name, info),
            text::decimal(secs as nat),
        ),
        info.status matches StatusView::Failed(e) ==> text::occurs(
            super::report_line(name, info),
            e,
        ) && text::occurs(super::report_line(name, info), " FAILED ("@),
        info.status matches StatusView::Blocked(deps) ==> (0 <= i < deps.len() ==> text::occurs(
            super::report_line(name, info),
            deps[i],
        )),
{
    let n = info.node;
    match info.status {
        StatusView::Pending => {},
        StatusView::Building => {
            let e = Seq::<char>::empty();
            text::lemma_occurs_between("["@, n, "] building "@ + name);
            assert("["@ + n + ("] building "@ + name) =~= "["@ + n + "] building "@ + name);
            text::lemma_occurs_between("["@ + n + "] building "@, name, e);
            assert("["@ + n + "] building "@ + name + e =~= "["@ + n + "] building "@ + name);
        },
        StatusView::Done(secs) => {
            let d = text::decimal(secs as nat);
            let a = "✓ ["@;
            let b = "] "@;
            let c = " ("@;
            let z = "s)"@;
            let all = a + n + b + name + c + d + z;
            text::lemma_occurs_between(a, n, b + name + c + d + z);
            assert(a + n + (b + name + c + d + z) =~= all);
            text::lemma_occurs_between(a + n + b, name, c + d + z);
            assert(a + n + b + name + (c + d + z) =~= all);
            text::lemma_occurs_between(a + n + b + name + c, d, z);
        },
        StatusView::Failed(e) => {
            let a = "✗ ["@;
            let b = "] "@;
            let c = " FAILED ("@;
            let z = ")"@;
            let all = a + n + b + name + c + e + z;
            text::lemma_occurs_between(a, n, b + name + c + e + z);
            assert(a + n + (b + name + c + e + z) =~= all);
            text::lemma_occurs_between(a + n + b, name, c + e + z);
            assert(a + n + b + name + (c + e + z) =~= all);
            text::lemma_occurs_between(a + n + b + name + c, e, z);
            text::lemma_occurs_between(a + n + b + name, c, e + z);
            assert(a + n + b + name + c + (e + z) =~= all);
        },
        StatusView::Cancelled => {
            text::lemma_occurs_between("- "@, name, " cancelled"@);
        },
        StatusView::Blocked(deps) => {
            let a = "- "@;
            let b = " blocked by ["@;
            let names = text::join(deps, ", "@);
            let z = "]"@;
            let all = a + name + b + names + z;
            text::lemma_occurs_between(a, name, b + names + z);
            assert(a + name + (b + names + z) =~= all);
            if 0 <= i < deps.len() {
                text::lemma_join_holds(deps, ", "@, i);
                text::lemma_occurs_later(a + name + b, names, deps[i]);
                text::lemma_occurs_earlier(a + name + b + names, z, deps[i]);
            }
        },
    }
}

/// A time is shown in minutes and the seconds beyond them, the latter with two digits.
pub proof fn law_clock_shows_minutes_and_seconds(minutes: nat, seconds: nat)
    requires
        seconds < 60,
    ensures
        super::clock_text(60 * minutes + seconds) == text::decimal(minutes) + "m "@ + (if seconds
            < 10 {
            "0"@
        } else {
            Seq::empty()
        }) + text::decimal(seconds) + "s"@,
        super::two_digits(seconds).len() == 2,
{
    let secs = 60 * minutes + seconds;
    assert(secs / 60 == minutes && secs % 60 == seconds);
    reveal_strlit("0");
    let m = text::decimal(minutes);
    if seconds < 10 {
        assert(m + "m "@ + ("0"@ + text::decimal(seconds)) + "s"@ =~= m + "m "@ + "0"@
            + text::decimal(seconds) + "s"@);
    } else {
        assert(m + "m "@ + Seq::<char>::empty() =~= m + "m "@);
        assert(text::decimal(seconds / 10).len() == 1);
    }
}

/// The lines of different ends start differently: with a tick, a cross or a dash; a start with the
/// node. A target that waits has no line.
pub proof fn law_lines_start_by_their_kind(name: Seq<char>, info: InfoView)
    ensures
        ({
            let line = super::report_line(name, info);
            &&& info.status is Pending ==> line.len() == 0
            &&& info.status is Building ==> line[0] == '[' && text::occurs(line, "building "@)
            &&& info.status is Done ==> line[0] == '✓'
            &&& info.status is Failed ==> line[0] == '✗'
            &&& info.status is Cancelled ==> line[0] == '-' && text::occurs(line, "cancelled"@)
            &&& info.status is Blocked ==> line[0] == '-' && text::occurs(line, "blocked by ["@)
        }),
{
    match info.status {
        StatusView::Building => {
            lemma_building_line(name, info.node);
        },
        StatusView::Done(_) => {
            reveal_strlit("✓ [");
        },
        StatusView::Failed(_) => {
            reveal_strlit("✗ [");
        },
        StatusView::Cancelled => {
            lemma_cancelled_line(name);
        },
        StatusView::Blocked(deps) => {
            lemma_blocked_line(name, text::join(deps, ", "@));
        },
        _ => {},
    }
}

proof fn lemma_building_line(name: Seq<char>, node: Seq<char>)
    ensures
        ("["@ + node + "] building "@ + name)[0] == '[',
        text::occurs("["@ + node + "] building "@ + name, "building "@),
{
    reveal_strlit("[");
    reveal_strlit("] building ");
    reveal_strlit("building ");
    let front = "["@ + node + seq![']', ' '];
    text::lemma_occurs_between(front, "building "@, name);
    assert(front + "building "@ + name =~= "["@ + node + "] building "@ + name);
}

proof fn lemma_cancelled_line(name: Seq<char>)
    ensures
        ("- "@ + name + " cancelled"@)[0] == '-',
        text::occurs("- "@ + name + " cancelled"@, "cancelled"@),
{
    lemma_dash(name + " cancelled"@);
    assert("- "@ + (name + " cancelled"@) =~= "- "@ + name + " cancelled"@);
    assert(" cancelled"@ =~= seq![' '] + "cancelled"@) by {
        reveal_strlit(" cancelled");
        reveal_strlit("cancelled");
    }
    lemma_word("- "@ + name, "cancelled"@, Seq::empty());
    assert("- "@ + name + (seq![' '] + "cancelled"@) + Seq::<char>::empty() =~= "- "@ + name
        + " cancelled"@);
}

proof fn lemma_blocked_line(name: Seq<char>, list: Seq<char>)
    ensures
        ("- "@ + name + " blocked by ["@ + list + "]"@)[0] == '-',
        text::occurs("- "@ + name + " blocked by ["@ + list + "]"@, "blocked by ["@),
{
    let line = "- "@ + name + " blocked by ["@ + list + "]"@;
    lemma_dash(name + " blocked by ["@ + list + "]"@);
    assert("- "@ + (name + " blocked by ["@ + list + "]"@) =~= line);
    assert(" blocked by ["@ =~= seq![' '] + "blocked by ["@) by {
        reveal_strlit(" blocked by [");
        reveal_strlit("blocked by [");
    }
    lemma_word("- "@ + name, "blocked by ["@, list + "]"@);
    assert("- "@ + name + (seq![' '] + "blocked by ["@) + (list + "]"@) =~= line);
}

proof fn lemma_dash(rest: Seq<char>)
    ensures
        ("- "@ + rest)[0] == '-',
{
    reveal_strlit("- ");
}

/// A word behind a blank stands in the text.
proof fn lemma_word(front: Seq<char>, word: Seq<char>, behind: Seq<char>)
    ensures
        text::occurs(front + (seq![' '] + word) + behind, word),
{
    text::lemma_occurs_between(front + seq![' '], word, behind);
    assert(front + seq![' '] + word + behind =~= front + (seq![' '] + word) + behind);
}

/// The last line counts what was built, what failed and what was skipped, and tells the time.
pub proof fn law_summary_counts(v: BoardView, secs: nat)
    ensures
        ({
            let line = super::summary_text(v, secs);
            &&& text::occurs(line, text::decimal(v.of_kind(StatusKind::Done).len()) + " done"@)
            &&& text::occurs(line, text::decimal(v.of_kind(StatusKind::Failed).len()) + " failed"@)
            &&& text::occurs(
                line,
                text::decimal(v.of_kind(StatusKind::Skipped).len()) + " skipped"@,
            )
            &&& text::occurs(line, super::clock_text(secs))
        }),
{
    reveal_strlit(" done, ");
    reveal_strlit(" done");
    reveal_strlit(" failed, ");
    reveal_strlit(" failed");
    reveal_strlit(" skipped. Elapsed: ");
    reveal_strlit(" skipped");
    let a = "---\n"@;
    let d = text::decimal(v.of_kind(StatusKind::Done).len());
    let f = text::decimal(v.of_kind(StatusKind::Failed).len());
    let k = text::decimal(v.of_kind(StatusKind::Skipped).len());
    let c = super::clock_text(secs);
    let line = super::summary_text(v, secs);
    let gap = seq![',', ' '];
    let rest = gap + f + " failed, "@ + k + " skipped. Elapsed: "@ + c;
    text::lemma_occurs_between(a, d + " done"@, rest);
    assert(a + (d + " done"@) + rest =~= line);
    let front = a + d + " done, "@;
    let rest = gap + k + " skipped. Elapsed: "@ + c;
    text::lemma_occurs_between(front, f + " failed"@, rest);
    assert(front + (f + " failed"@) + rest =~= line);
    let front = front + f + " failed, "@;
    let rest = " skipped. Elapsed: "@.skip(8) + c;
    text::lemma_occurs_between(front, k + " skipped"@, rest);
    assert(front + (k + " skipped"@) + rest =~= line);
    text::lemma_occurs_between(front + k + " skipped. Elapsed: "@, c, Seq::empty());
    assert(front + k + " skipped. Elapsed: "@ + c + Seq::<char>::empty() =~= line);
}

/// A target that is listed again is not printed again.
pub proof fn law_each_state_is_printed_once(
    list: Seq<Seq<char>>,
    targets: Map<Seq<char>, InfoView>,
    r: ReporterView,
    name: Seq<char>,
)
    requires
        list.contains(name),
    ensures
        super::drained(list.push(name), targets, r) == super::drained(list, targets, r),
        super::drained(list + list, targets, r) == super::drained(list, targets, r),
{
    super::lemma_all_reported(list, targets, r);
    let i: int = choose|i: int| 0 <= i < list.len() && list[i] == name;
    assert(list.push(name).drop_last() =~= list);
    assert(list.push(name).last() == list[i]);
    lemma_listed_again(list, list, targets, r);
}

proof fn lemma_listed_again(
    list: Seq<Seq<char>>,
    more: Seq<Seq<char>>,
    targets: Map<Seq<char>, InfoView>,
    r: ReporterView,
)
    requires
        forall|i: int| 0 <= i < more.len() ==> list.contains(#[trigger] more[i]),
    ensures
        super::drained(list + more, targets, r) == super::drained(list, targets, r),
    decreases more.len(),
{
    if more.len() == 0 {
        assert(list + more =~= list);
    } else {
        let head = more.drop_last();
        assert forall|i: int| 0 <= i < head.len() implies list.contains(#[trigger] head[i]) by {
            assert(head[i] == more[i]);
        }
        lemma_listed_again(list, head, targets, r);
        super::lemma_all_reported(list, targets, r);
        assert((list + more).drop_last() =~= list + head);
        let name = (list + more).last();
        assert(name == more[more.len() - 1]);
        let i: int = choose|i: int| 0 <= i < list.len() && list[i] == name;
        assert(list[i] == name);
    }
}

}
