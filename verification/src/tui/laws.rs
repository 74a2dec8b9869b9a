//! What holds of what is shown.
use super::state;
use super::state::{BoardView, GroupView, StatusKind};
use crate::names;
use crate::order;
use vstd::prelude::*;

verus! {

proof fn lemma_group(v: BoardView, g: GroupView, t: Seq<char>)
    requires
        v.targets.dom().finite(),
    ensures
        v.group(g).contains(t) <==> v.targets.contains_key(t) && state::in_group(
            g,
            v.nodes,
            v.targets[t],
        ),
{
    let f = |x: Seq<char>| state::in_group(g, v.nodes, v.targets[x]);
    order::lemma_in_order_exists(v.targets.dom());
    names::lemma_filter_holds(v.by_name(), f, t);
    assert(v.by_name().to_set().contains(t) == v.by_name().contains(t));
}

proof fn lemma_shown_on(v: BoardView, nodes: Seq<Seq<char>>, t: Seq<char>)
    requires
        v.targets.dom().finite(),
    ensures
        v.shown_on(nodes).contains(t) <==> v.targets.contains_key(t) && !(
        v.targets[t].status is Pending) && nodes.contains(v.targets[t].node),
    decreases nodes.len(),
{
    if nodes.len() > 0 {
        let head = nodes.drop_last();
        let n = nodes.last();
        lemma_shown_on(v, head, t);
        lemma_group(v, GroupView::ActiveOn(n), t);
        names::lemma_sum_contains(v.shown_on(head), v.group(GroupView::ActiveOn(n)), t);
        assert(nodes =~= head.push(n));
        names::lemma_push_contains(head, n, v.targets[t].node);
    }
}

/// Every target that does not wait is shown, and no other: whatever node it is on, nothing is
/// counted that the cursor cannot reach.
pub proof fn law_active_shows_all_but_pending(v: BoardView, t: Seq<char>)
    requires
        v.targets.dom().finite(),
    ensures
        v.active().contains(t) <==> v.targets.contains_key(t) && !(v.targets[t].status is Pending),
{
    lemma_shown_on(v, v.nodes, t);
    lemma_group(v, GroupView::Unassigned, t);
    names::lemma_sum_contains(v.shown_on(v.nodes), v.group(GroupView::Unassigned), t);
}

/// Every target that failed is listed as failed, and no other.
pub proof fn law_failed_are_listed(v: BoardView, t: Seq<char>)
    requires
        v.targets.dom().finite(),
    ensures
        v.group(GroupView::Failed).contains(t) <==> v.of_kind(StatusKind::Failed).contains(t),
{
    lemma_group(v, GroupView::Failed, t);
}

/// The counts of those that wait, are being built and have come to an end make up all targets,
/// and an end is to be built, to fail or to be skipped.
pub proof fn law_counts_make_up_all(v: BoardView)
    requires
        v.targets.dom().finite(),
    ensures
        v.of_kind(StatusKind::Pending).len() + v.of_kind(StatusKind::Building).len() + v.of_kind(
            StatusKind::Terminal,
        ).len() == v.targets.dom().len(),
        v.of_kind(StatusKind::Done).len() + v.of_kind(StatusKind::Failed).len() + v.of_kind(
            StatusKind::Skipped,
        ).len() == v.of_kind(StatusKind::Terminal).len(),
{
    let p = v.of_kind(StatusKind::Pending);
    let b = v.of_kind(StatusKind::Building);
    let e = v.of_kind(StatusKind::Terminal);
    let d = v.of_kind(StatusKind::Done);
    let f = v.of_kind(StatusKind::Failed);
    let s = v.of_kind(StatusKind::Skipped);
    let all = v.targets.dom();
    vstd::set_lib::lemma_set_subset_finite(all, p);
    vstd::set_lib::lemma_set_subset_finite(all, b);
    vstd::set_lib::lemma_set_subset_finite(all, e);
    vstd::set_lib::lemma_set_subset_finite(all, d);
    vstd::set_lib::lemma_set_subset_finite(all, f);
    vstd::set_lib::lemma_set_subset_finite(all, s);
    vstd::set_lib::lemma_set_disjoint_lens(p, b);
    vstd::set_lib::lemma_set_disjoint_lens(p.union(b), e);
    assert(p.union(b).union(e) =~= all);
    vstd::set_lib::lemma_set_disjoint_lens(d, f);
    vstd::set_lib::lemma_set_disjoint_lens(d.union(f), s);
    assert(d.union(f).union(s) =~= e);
}

/// A run of distinct targets is over when, and only when, every target has come to an end.
pub proof fn law_complete_means_all_ended(v: BoardView)
    requires
        v.targets.dom().finite(),
        v.total == v.targets.dom().len(),
    ensures
        v.complete() <==> forall|t: Seq<char>| #[trigger]
            v.targets.contains_key(t) ==> state::terminal(v.targets[t].status),
{
    let e = v.of_kind(StatusKind::Terminal);
    let all = v.targets.dom();
    vstd::set_lib::lemma_set_subset_finite(all, e);
    if v.complete() {
        vstd::set_lib::lemma_subset_equality(e, all);
        assert forall|t: Seq<char>| #[trigger] v.targets.contains_key(t) implies state::terminal(
            v.targets[t].status,
        ) by {
            assert(e.contains(t));
        }
    }
    if forall|t: Seq<char>| #[trigger]
        v.targets.contains_key(t) ==> state::terminal(v.targets[t].status) {
        assert(e =~= all);
    }
}

/// A new run of distinct targets has as many targets known as were given.
pub proof fn law_new_board_counts_targets(
    targets: Seq<Seq<char>>,
    nodes: Seq<Seq<char>>,
    start: std::time::Instant,
)
    requires
        targets.no_duplicates(),
    ensures
        state::new_board(targets, nodes, start).targets.dom().finite(),
        state::new_board(targets, nodes, start).total == state::new_board(
            targets,
            nodes,
            start,
        ).targets.dom().len(),
{
    targets.unique_seq_to_set();
    assert(state::new_board(targets, nodes, start).targets.dom() =~= targets.to_set());
}

/// A kind of status has the targets whose status is of it, and no others; those that were cancelled
/// and those that are blocked were skipped, and all but those that wait or are being built have
/// come to an end.
pub proof fn law_kinds_are_told_by_status(v: BoardView, t: Seq<char>)
    requires
        v.targets.contains_key(t),
    ensures
        v.of_kind(StatusKind::Done).contains(t) <==> v.targets[t].status is Done,
        v.of_kind(StatusKind::Building).contains(t) <==> v.targets[t].status is Building,
        v.of_kind(StatusKind::Pending).contains(t) <==> v.targets[t].status is Pending,
        v.of_kind(StatusKind::Failed).contains(t) <==> v.targets[t].status is Failed,
        v.of_kind(StatusKind::Skipped).contains(t) <==> v.targets[t].status is Cancelled
            || v.targets[t].status is Blocked,
        v.of_kind(StatusKind::Terminal).contains(t) <==> !(v.targets[t].status is Pending) && !(
        v.targets[t].status is Building),
{
}

/// The targets of a node, those of no known node and those that failed are told by what is known of
/// each, and stand by name.
pub proof fn law_groups_are_told_by_node(v: BoardView, n: Seq<char>, t: Seq<char>)
    requires
        v.targets.dom().finite(),
    ensures
        v.group(GroupView::On(n)).contains(t) <==> v.targets.contains_key(t) && v.targets[t].node
            == n,
        v.group(GroupView::ActiveOn(n)).contains(t) <==> v.targets.contains_key(t)
            && v.targets[t].node == n && !(v.targets[t].status is Pending),
        v.group(GroupView::Unassigned).contains(t) <==> v.targets.contains_key(t) && !(
        v.targets[t].status is Pending) && !v.nodes.contains(v.targets[t].node),
        v.group(GroupView::Failed).contains(t) <==> v.targets.contains_key(t)
            && v.targets[t].status is Failed,
        order::ascending(v.group(GroupView::On(n))),
        order::ascending(v.group(GroupView::ActiveOn(n))),
        order::ascending(v.group(GroupView::Unassigned)),
        order::ascending(v.group(GroupView::Failed)),
{
    lemma_group(v, GroupView::On(n), t);
    lemma_group(v, GroupView::ActiveOn(n), t);
    lemma_group(v, GroupView::Unassigned, t);
    lemma_group(v, GroupView::Failed, t);
    order::lemma_in_order_exists(v.targets.dom());
    order::lemma_ascending_filter(
        v.by_name(),
        |x: Seq<char>| state::in_group(GroupView::On(n), v.nodes, v.targets[x]),
    );
    order::lemma_ascending_filter(
        v.by_name(),
        |x: Seq<char>| state::in_group(GroupView::ActiveOn(n), v.nodes, v.targets[x]),
    );
    order::lemma_ascending_filter(
        v.by_name(),
        |x: Seq<char>| state::in_group(GroupView::Unassigned, v.nodes, v.targets[x]),
    );
    order::lemma_ascending_filter(
        v.by_name(),
        |x: Seq<char>| state::in_group(GroupView::Failed, v.nodes, v.targets[x]),
    );
}

/// The targets that wait are listed, and no others, in the order in which they were given.
pub proof fn law_waiting_targets_are_listed(v: BoardView, t: Seq<char>, i: int, j: int)
    ensures
        v.pending().contains(t) <==> v.order.contains(t) && v.targets.contains_key(t)
            && v.targets[t].status is Pending,
        v.order.no_duplicates() && 0 <= i < j < v.pending().len() ==> v.order.index_of(
            v.pending()[i],
        ) < v.order.index_of(v.pending()[j]),
{
    let f = |x: Seq<char>| v.targets.contains_key(x) && v.targets[x].status is Pending;
    names::lemma_filter_holds(v.order, f, t);
    if v.order.no_duplicates() && 0 <= i < j < v.pending().len() {
        names::lemma_filter_order(v.order, f, i, j);
    }
}

/// At the start every target waits, on no node, and nothing has been done for it.
pub proof fn law_new_targets_wait(
    targets: Seq<Seq<char>>,
    nodes: Seq<Seq<char>>,
    start: std::time::Instant,
    t: Seq<char>,
)
    ensures
        ({
            let v = state::new_board(targets, nodes, start);
            &&& v.targets.contains_key(t) <==> targets.contains(t)
            &&& targets.contains(t) ==> v.targets[t].name == t && v.targets[t].status is Pending
                && v.targets[t].node.len() == 0 && v.targets[t].log_path is None
                && v.targets[t].progress is None && v.targets[t].started is None
            &&& v.order == targets && v.nodes == nodes && v.total == targets.len()
        }),
{
}

/// A target whose build starts is shown as being built on its node, with no progress yet and with
/// its log kept; no other target changes, and the change is counted.
pub proof fn law_started_builds_are_shown(
    v: BoardView,
    t: Seq<char>,
    node: Seq<char>,
    next: BoardView,
    x: Seq<char>,
)
    requires
        v.targets.contains_key(t),
        v.comes_to(t, node, state::StatusView::Building, next),
    ensures
        next.targets.contains_key(t),
        next.targets[t].status is Building,
        next.targets[t].node == node,
        next.targets[t].name == v.targets[t].name,
        next.targets[t].log_path == v.targets[t].log_path,
        next.targets[t].started is Some,
        next.targets[t].progress is None,
        next.version == v.version + 1,
        x != t ==> next.targets.contains_key(x) == v.targets.contains_key(x),
        x != t && v.targets.contains_key(x) ==> next.targets[x] == v.targets[x],
        next.order == v.order && next.nodes == v.nodes && next.total == v.total,
{
}

/// Where a log is, and how far a build has come, is noted for its target alone, and changes nothing
/// else of it.
pub proof fn law_notes_change_one_thing(
    v: BoardView,
    t: Seq<char>,
    path: Seq<char>,
    progress: state::ProgressView,
    x: Seq<char>,
)
    requires
        v.targets.contains_key(t),
    ensures
        v.with_log_path(t, path).targets[t] == (state::InfoView {
            log_path: Some(path),
            ..v.targets[t]
        }),
        v.with_progress(t, progress).targets[t] == (state::InfoView {
            progress: Some(progress),
            ..v.targets[t]
        }),
        x != t && v.targets.contains_key(x) ==> v.with_log_path(t, path).targets[x] == v.targets[x]
            && v.with_progress(t, progress).targets[x] == v.targets[x],
        v.with_log_path(t, path).version == v.version + 1,
        v.with_progress(t, progress).version == v.version + 1,
{
}

/// A target that is not known is not made known by what happens to it.
pub proof fn law_unknown_targets_stay_unknown(
    v: BoardView,
    t: Seq<char>,
    node: Seq<char>,
    status: state::StatusView,
    next: BoardView,
)
    requires
        !v.targets.contains_key(t),
        v.comes_to(t, node, status, next),
    ensures
        next.targets == v.targets,
{
}

/// The targets are shown node by node: some first part of them holds exactly those of the first
/// nodes, however many of these are taken.
pub proof fn law_shown_node_by_node(v: BoardView, i: int, t: Seq<char>) -> (n: int)
    requires
        v.targets.dom().finite(),
        0 <= i <= v.nodes.len(),
    ensures
        0 <= n <= v.active().len(),
        v.active().take(n).contains(t) <==> v.targets.contains_key(t) && !(
        v.targets[t].status is Pending) && v.nodes.take(i).contains(v.targets[t].node),
{
    let part = v.shown_on(v.nodes.take(i));
    lemma_shown_prefix(v, v.nodes, i);
    lemma_shown_on(v, v.nodes.take(i), t);
    assert(v.active().take(part.len() as int) =~= part) by {
        let all = v.shown_on(v.nodes);
        assert(all.take(part.len() as int) =~= part);
    }
    part.len() as int
}

proof fn lemma_shown_prefix(v: BoardView, nodes: Seq<Seq<char>>, i: int)
    requires
        0 <= i <= nodes.len(),
    ensures
        v.shown_on(nodes.take(i)).is_prefix_of(v.shown_on(nodes)),
    decreases nodes.len(),
{
    let part = v.shown_on(nodes.take(i));
    let all = v.shown_on(nodes);
    if i == nodes.len() {
        assert(nodes.take(i) =~= nodes);
        assert(all.take(part.len() as int) =~= part);
    } else {
        let short = nodes.drop_last();
        assert(short.take(i) =~= nodes.take(i));
        lemma_shown_prefix(v, short, i);
        assert(all.take(part.len() as int) =~= v.shown_on(short).take(part.len() as int));
    }
}

/// Whatever is noted of a target counts as a change, even where the target is not known; then
/// nothing else changes.
pub proof fn law_every_note_is_counted(
    v: BoardView,
    t: Seq<char>,
    node: Seq<char>,
    status: state::StatusView,
    next: BoardView,
    path: Seq<char>,
    progress: state::ProgressView,
)
    requires
        v.comes_to(t, node, status, next),
    ensures
        next.version == v.version + 1,
        v.with_log_path(t, path).version == v.version + 1,
        v.with_progress(t, progress).version == v.version + 1,
        !v.targets.contains_key(t) ==> next == (BoardView { version: v.version + 1, ..v })
            && v.with_log_path(t, path) == next && v.with_progress(t, progress) == next,
        next.targets.dom() == v.targets.dom(),
        next.order == v.order && next.nodes == v.nodes && next.total == v.total && next.start
            == v.start,
{
    assert(next.targets.dom() =~= v.targets.dom());
}

/// A status other than building is noted with its node; when the build was started, its log and
/// how far it came are kept, and so is every other target.
pub proof fn law_ended_builds_keep_their_past(
    v: BoardView,
    t: Seq<char>,
    node: Seq<char>,
    status: state::StatusView,
    next: BoardView,
    x: Seq<char>,
)
    requires
        v.targets.contains_key(t),
        !(status is Building),
        v.comes_to(t, node, status, next),
    ensures
        next.targets[t].status == status,
        next.targets[t].node == node,
        next.targets[t].name == v.targets[t].name,
        next.targets[t].started == v.targets[t].started,
        next.targets[t].log_path == v.targets[t].log_path,
        next.targets[t].progress == v.targets[t].progress,
        x != t && v.targets.contains_key(x) ==> next.targets[x] == v.targets[x],
{
}

}
