//! What holds of a run as a whole.
use super::{BuildEnd, Cause, EndView, TurnView};
use crate::dag;
use crate::dag::{DagQueue, DagState};
use crate::logs;
use crate::names;
use crate::order;
use crate::platform;
use crate::text;
use crate::tui::state;
use crate::tui::state::{BoardView, StatusView};
use vstd::prelude::*;

verus! {

/// A node that builds a target builds one whose dependencies have all been built, that no node
/// builds or has built, and that it can build.
pub proof fn law_builds_what_is_due(
    q: DagState,
    node: Seq<Seq<char>>,
    shard_builder: Seq<char>,
    run_dir: Seq<char>,
    cancelled: bool,
)
    requires
        dag::laws::sound(q),
    ensures
        super::next_turn(q, node, shard_builder, run_dir, cancelled).0 matches TurnView::Build(r)
            ==> q.deps[r.target].subset_of(q.completed) && !q.in_flight.contains(r.target)
            && !q.ended(r.target) && q.fits(node, r.target),
        dag::laws::sound(super::next_turn(q, node, shard_builder, run_dir, cancelled).1),
{
    if !cancelled && q.first_fit(node) < q.ready.len() {
        dag::laws::law_claims_in_order(q, node);
        dag::laws::law_claim_keeps_sound(q, node);
    }
}

/// A node waits only where a build that is under way can wake it, or another node has something
/// to claim: it never waits for nothing.
pub proof fn law_never_waits_for_nothing(
    q: DagState,
    node: Seq<Seq<char>>,
    shard_builder: Seq<char>,
    run_dir: Seq<char>,
    cancelled: bool,
) -> (i: int)
    requires
        q.nodes.len() > 0,
        super::next_turn(q, node, shard_builder, run_dir, cancelled).0 is Wait,
    ensures
        q.in_flight != Set::<Seq<char>>::empty() || (0 <= i < q.nodes.len() && q.first_fit(
            q.nodes[i],
        ) < q.ready.len()),
{
    dag::laws::law_otherwise_progress(q)
}

/// A node stops only where the run is cancelled, everything has come to an end, or nothing can
/// go on.
pub proof fn law_stops_for_a_reason(
    q: DagState,
    node: Seq<Seq<char>>,
    shard_builder: Seq<char>,
    run_dir: Seq<char>,
    cancelled: bool,
)
    requires
        super::next_turn(q, node, shard_builder, run_dir, cancelled).0 is Exit,
    ensures
        cancelled || q.done() || q.stalled(),
{
}

/// The end of a build keeps the queue sound, however it ended.
pub proof fn law_end_keeps_sound(q: DagState, t: Seq<char>, end: EndView, next: DagState)
    requires
        dag::laws::sound(q),
        q.in_flight.contains(t),
        super::queue_after(q, t, end, next),
    ensures
        dag::laws::sound(next),
{
    match end {
        EndView::Built => dag::laws::law_completion_keeps_sound(q, t, next),
        EndView::Cancelled => dag::laws::law_cancellation_keeps_sound(q, t),
        EndView::Failed(_) => dag::laws::law_failure_keeps_sound(q, t),
    }
}

/// A node's turn is a step of a run where it builds, and otherwise leaves the queue as it is.
pub proof fn law_turn_is_a_step(
    q: DagState,
    node: Seq<Seq<char>>,
    shard_builder: Seq<char>,
    run_dir: Seq<char>,
    cancelled: bool,
)
    ensures
        ({
            let turn = super::next_turn(q, node, shard_builder, run_dir, cancelled);
            if turn.0 is Build {
                dag::runs::goes_on(q, turn.1)
            } else {
                turn.1 == q
            }
        }),
{
    let turn = super::next_turn(q, node, shard_builder, run_dir, cancelled);
    if turn.0 is Build {
        assert(q.first_fit(node) < q.ready.len());
        assert(dag::runs::claims(q, turn.1));
    }
}

/// The end of a build is a step of a run.
pub proof fn law_end_is_a_step(q: DagState, t: Seq<char>, end: EndView, next: DagState)
    requires
        q.in_flight.contains(t),
        super::queue_after(q, t, end, next),
    ensures
        dag::runs::goes_on(q, next),
{
    assert(dag::runs::ends(q, t, next));
}

/// What is shown agrees with the queue: the same targets, and what has come to an end in the
/// queue is shown as ended.
pub open spec fn agree(q: DagState, board: BoardView) -> bool {
    &&& board.targets.dom() == q.all
    &&& forall|x: Seq<char>|
        q.all.contains(x) && q.ended(x) ==> state::terminal((#[trigger] board.targets[x]).status)
}

/// At the start of a run what is shown agrees with the queue.
pub proof fn law_agree_at_start(
    targets: Seq<Seq<char>>,
    deps: Map<Seq<char>, Seq<Seq<char>>>,
    platforms: Map<Seq<char>, Seq<Seq<char>>>,
    nodes: Seq<Seq<char>>,
    start: std::time::Instant,
)
    ensures
        agree(dag::new_state(targets, deps, platforms), state::new_board(targets, nodes, start)),
{
    assert(state::new_board(targets, nodes, start).targets.dom() =~= targets.to_set());
}

/// The start of a build, after its target has been claimed, keeps what is shown in agreement
/// with the queue.
pub proof fn law_start_keeps_agreement(
    q: DagState,
    board: BoardView,
    t: Seq<char>,
    node: Seq<char>,
    log: Seq<char>,
    next: BoardView,
)
    requires
        agree(q, board),
        q.in_flight.contains(t),
        dag::laws::sound(q),
        board.with_log_path(t, log).comes_to(t, node, StatusView::Building, next),
    ensures
        agree(q, next),
{
    assert(!q.ended(t));
    assert(next.targets.dom() =~= board.targets.dom());
    assert forall|x: Seq<char>| q.all.contains(x) && q.ended(x) implies state::terminal(
        (#[trigger] next.targets[x]).status,
    ) by {
        assert(state::terminal(board.targets[x].status));
    }
}

/// The end of a build, noted where it is shown and in the queue, keeps the two in agreement.
pub proof fn law_end_keeps_agreement(
    q: DagState,
    board: BoardView,
    t: Seq<char>,
    node: Seq<char>,
    end: EndView,
    secs: u64,
    next: DagState,
)
    requires
        agree(q, board),
        super::queue_after(q, t, end, next),
    ensures
        agree(next, board.with_status(t, node, super::status_of(end, secs))),
{
    let shown = board.with_status(t, node, super::status_of(end, secs));
    assert(shown.targets.dom() =~= board.targets.dom());
    assert forall|x: Seq<char>| next.all.contains(x) && next.ended(x) implies state::terminal(
        (#[trigger] shown.targets[x]).status,
    ) by {
        if x != t {
            assert(q.ended(x));
            assert(state::terminal(board.targets[x].status));
        }
    }
}

/// Settling ends every target of the list that is shown, changes no other target, and undoes no
/// end.
proof fn lemma_settled(q: DagState, board: BoardView, list: Seq<Seq<char>>, t: Seq<char>)
    ensures
        super::settled(q, board, list).board.targets.dom() == board.targets.dom(),
        super::settled(q, board, list).board.total == board.total,
        board.targets.contains_key(t) && list.contains(t) ==> state::terminal(
            super::settled(q, board, list).board.targets[t].status,
        ),
        board.targets.contains_key(t) && state::terminal(board.targets[t].status)
            ==> super::settled(q, board, list).board.targets[t] == board.targets[t],
    decreases list.len(),
{
    if list.len() > 0 {
        let head = list.drop_last();
        lemma_settled(q, board, head, t);
        crate::names::lemma_push_contains(head, list.last(), t);
        assert(list =~= head.push(list.last()));
        let before = super::settled(q, board, head).board;
        let after = super::settled(q, board, list).board;
        assert(after.targets.dom() =~= before.targets.dom());
    }
}

/// After a run is settled every target is shown as ended, whatever happened in it: if what the
/// queue has ended was shown as ended, nothing is left that anyone could wait for. What was
/// shown as ended stays as it was.
pub proof fn law_settling_ends_everything(q: DagState, board: BoardView, t: Seq<char>)
    requires
        q.valid(),
        agree(q, board),
        q.all.contains(t),
    ensures
        state::terminal(
            super::settled(q, board, order::in_order(q.unfinished())).board.targets[t].status,
        ),
        state::terminal(board.targets[t].status) ==> super::settled(
            q,
            board,
            order::in_order(q.unfinished()),
        ).board.targets[t] == board.targets[t],
{
    let list = order::in_order(q.unfinished());
    vstd::set_lib::lemma_set_subset_finite(q.all, q.unfinished());
    order::lemma_in_order_exists(q.unfinished());
    lemma_settled(q, board, list, t);
    if !q.ended(t) {
        assert(q.unfinished().contains(t));
        assert(list.to_set().contains(t));
    } else {
        assert(state::terminal(board.targets[t].status));
    }
}

/// What settling makes of a target that was not shown as ended.
proof fn lemma_settled_status(q: DagState, board: BoardView, list: Seq<Seq<char>>, t: Seq<char>)
    requires
        board.targets.contains_key(t),
        !state::terminal(board.targets[t].status),
    ensures
        super::settled(q, board, list).board.targets[t].status == if !list.contains(t) {
            board.targets[t].status
        } else if super::needs(q, t).len() == 0 {
            StatusView::Cancelled
        } else {
            StatusView::Blocked(super::needs(q, t))
        },
    decreases list.len(),
{
    if list.len() > 0 {
        let head = list.drop_last();
        lemma_settled_status(q, board, head, t);
        lemma_settled(q, board, head, t);
        crate::names::lemma_push_contains(head, list.last(), t);
        assert(list =~= head.push(list.last()));
    }
}

/// A target that was not built is reported as blocked where a dependency of it failed, with the
/// names of those that did, and as cancelled otherwise.
pub proof fn law_failed_dependencies_are_named(q: DagState, board: BoardView, t: Seq<char>)
    requires
        q.valid(),
        agree(q, board),
        q.all.contains(t),
        !q.ended(t),
        !state::terminal(board.targets[t].status),
    ensures
        ({
            let shown = super::settled(
                q,
                board,
                order::in_order(q.unfinished()),
            ).board.targets[t].status;
            match shown {
                StatusView::Blocked(deps) => deps.len() > 0 && forall|d: Seq<char>| #[trigger]
                    deps.contains(d) <==> q.blocked_by(t, d),
                StatusView::Cancelled => forall|d: Seq<char>| !#[trigger] q.blocked_by(t, d),
                _ => false,
            }
        }),
{
    let list = order::in_order(q.unfinished());
    vstd::set_lib::lemma_set_subset_finite(q.all, q.unfinished());
    order::lemma_in_order_exists(q.unfinished());
    assert(q.unfinished().contains(t));
    assert(list.to_set().contains(t));
    lemma_settled_status(q, board, list, t);
    let deps = super::needs(q, t);
    assert(q.blockers(t).subset_of(q.failed));
    vstd::set_lib::lemma_set_subset_finite(q.failed, q.blockers(t));
    order::lemma_in_order_exists(q.blockers(t));
    assert forall|d: Seq<char>| #[trigger] deps.contains(d) <==> q.blocked_by(t, d) by {
        assert(deps.to_set().contains(d) <==> q.blockers(t).contains(d));
    }
    if deps.len() == 0 {
        assert forall|d: Seq<char>| !#[trigger] q.blocked_by(t, d) by {
            assert(!deps.contains(d));
        }
    }
}

/// A node that can build a ready target builds one, the first such one of the queue: with its own
/// builder, for the platforms that the target asks for and into the target's log. The queue notes
/// that it is being built. The node never waits or stops instead.
pub proof fn law_claims_the_first_it_can_build(
    q: DagState,
    node: Seq<Seq<char>>,
    shard_builder: Seq<char>,
    run_dir: Seq<char>,
    i: int,
)
    requires
        0 <= i < q.ready.len(),
        platform::compatible(node, names::list_for(q.platforms, q.ready[i])),
        forall|j: int|
            0 <= j < i ==> !platform::compatible(
                node,
                names::list_for(q.platforms, #[trigger] q.ready[j]),
            ),
    ensures
        ({
            let turn = super::next_turn(q, node, shard_builder, run_dir, false);
            &&& turn.0 matches TurnView::Build(r) && r.target == q.ready[i] && r.shard_builder
                == shard_builder && r.platforms == names::list_for(q.platforms, q.ready[i])
                && r.log_path == logs::log_file_of(run_dir, q.ready[i])
            &&& turn.1.in_flight == q.in_flight.insert(q.ready[i])
            &&& turn.1.ready == q.ready.remove(i)
            &&& turn.1 == (DagState {
                ready: turn.1.ready,
                in_flight: turn.1.in_flight,
                ..q
            })
        }),
{
    dag::laws::law_first_fit_is_the_first(q, node, i);
}

/// Where some ready target fits a node, its turn is a build, whichever target that is.
pub proof fn law_work_is_taken(
    q: DagState,
    node: Seq<Seq<char>>,
    shard_builder: Seq<char>,
    run_dir: Seq<char>,
    t: Seq<char>,
)
    requires
        q.ready.contains(t),
        platform::compatible(node, names::list_for(q.platforms, t)),
    ensures
        super::next_turn(q, node, shard_builder, run_dir, false).0 is Build,
{
    dag::laws::lemma_first_fit_meaning(q, node, q.ready);
    let i: int = choose|i: int| 0 <= i < q.ready.len() && q.ready[i] == t;
    if q.first_fit(node) >= q.ready.len() {
        assert(!q.fits(node, q.ready[i]));
    }
}

/// Once the run is cancelled a node takes nothing more and stops.
pub proof fn law_cancelled_run_claims_nothing(
    q: DagState,
    node: Seq<Seq<char>>,
    shard_builder: Seq<char>,
    run_dir: Seq<char>,
)
    ensures
        super::next_turn(q, node, shard_builder, run_dir, true) == (TurnView::Exit, q),
{
}

/// A node with nothing to claim goes on waiting while a target has not come to an end and either
/// something is being built or some node can claim something; and stops otherwise.
pub proof fn law_waits_while_there_is_hope(
    q: DagState,
    node: Seq<Seq<char>>,
    shard_builder: Seq<char>,
    run_dir: Seq<char>,
    t: Seq<char>,
    b: Seq<char>,
    k: int,
    j: int,
)
    requires
        forall|i: int|
            0 <= i < q.ready.len() ==> !platform::compatible(
                node,
                names::list_for(q.platforms, #[trigger] q.ready[i]),
            ),
        q.all.contains(t),
        !q.completed.contains(t),
        !q.failed.contains(t),
        !q.cancelled.contains(t),
        q.in_flight.contains(b) || (0 <= j < q.ready.len() && (q.nodes.len() == 0 || (0 <= k
            < q.nodes.len() && platform::compatible(
            q.nodes[k],
            names::list_for(q.platforms, q.ready[j]),
        )))),
    ensures
        super::next_turn(q, node, shard_builder, run_dir, false) == (TurnView::Wait, q),
{
    dag::laws::law_first_fit_is_the_first(q, node, q.ready.len() as int);
    assert(!q.ended(t));
    assert(!q.done());
    if q.stalled() {
        assert(!q.in_flight.contains(b));
        dag::laws::law_claimable_means_a_node_fits(q, q.ready[j], k);
        assert(!q.claimable(q.ready[j]));
    }
}

/// A node with nothing to claim stops where every target has come to an end, or where nothing is
/// being built and no known node can claim what is ready.
pub proof fn law_stops_without_hope(
    q: DagState,
    node: Seq<Seq<char>>,
    shard_builder: Seq<char>,
    run_dir: Seq<char>,
)
    requires
        forall|i: int|
            0 <= i < q.ready.len() ==> !platform::compatible(
                node,
                names::list_for(q.platforms, #[trigger] q.ready[i]),
            ),
        (forall|t: Seq<char>| #[trigger]
            q.all.contains(t) ==> q.completed.contains(t) || q.failed.contains(t)
                || q.cancelled.contains(t)) || (q.in_flight == Set::<Seq<char>>::empty() && (
        q.ready.len() == 0 || (q.nodes.len() > 0 && forall|k: int, j: int|
            0 <= k < q.nodes.len() && 0 <= j < q.ready.len() ==> !platform::compatible(
                #[trigger] q.nodes[k],
                names::list_for(q.platforms, #[trigger] q.ready[j]),
            )))),
    ensures
        super::next_turn(q, node, shard_builder, run_dir, false) == (TurnView::Exit, q),
{
    dag::laws::law_first_fit_is_the_first(q, node, q.ready.len() as int);
    if !q.done() {
        assert forall|i: int| 0 <= i < q.ready.len() implies !q.claimable(#[trigger] q.ready[i]) by {
            dag::laws::law_claimable_means_a_node_fits(q, q.ready[i], 0);
        }
        assert(q.stalled());
    }
}

/// The end of a build is noted for what it was: a target counts as built, failed or cancelled,
/// and as nothing else, and is no longer being built.
pub proof fn law_end_is_noted(q: DagState, t: Seq<char>, end: EndView, next: DagState)
    requires
        super::queue_after(q, t, end, next),
    ensures
        !next.in_flight.contains(t),
        next.completed == if end is Built {
            q.completed.insert(t)
        } else {
            q.completed
        },
        next.failed == if end is Failed {
            q.failed.insert(t)
        } else {
            q.failed
        },
        next.cancelled == if end is Cancelled {
            q.cancelled.insert(t)
        } else {
            q.cancelled
        },
        !(end is Built) ==> next.ready == q.ready,
        next.all == q.all && next.deps == q.deps,
{
}

/// A build without an error was built. An error that says anywhere in its chain of causes that
/// the build was cancelled is no failure; any other is one, for the reason that it gives first.
pub proof fn law_ends_tell_failures_from_cancellations(chain: Seq<Cause>, i: int)
    ensures
        super::end_of(chain) is Built <==> chain.len() == 0,
        0 <= i < chain.len() && (chain[i] matches Cause::Build(e) && e@ is Cancelled)
            ==> super::end_of(chain) is Cancelled,
        chain.len() > 0 && (forall|k: int|
            0 <= k < chain.len() ==> !((#[trigger] chain[k]) matches Cause::Build(e)
                && e@ is Cancelled)) ==> super::end_of(chain) == EndView::Failed(
            chain[0].text_of(),
        ),
{
    assert forall|k: int| 0 <= k < chain.len() implies (#[trigger] chain[k]).cancels() == (
    chain[k] matches Cause::Build(e) && e@ is Cancelled) by {}
    if 0 <= i < chain.len() {
        assert(chain[i].cancels() ==> super::says_cancelled(chain));
    }
}

/// What is shown of an ended build is what it ended as, with the time that it took or the reason
/// of its failure.
pub proof fn law_shown_as_it_ended(
    board: BoardView,
    t: Seq<char>,
    node: Seq<char>,
    end: EndView,
    secs: u64,
    x: Seq<char>,
)
    requires
        board.targets.contains_key(t),
    ensures
        ({
            let next = board.with_status(t, node, super::status_of(end, secs));
            let shown = next.targets[t];
            &&& shown.node == node
            &&& match end {
                EndView::Built => shown.status == StatusView::Done(secs),
                EndView::Cancelled => shown.status is Cancelled,
                EndView::Failed(e) => shown.status == StatusView::Failed(e),
            }
            &&& x != t && board.targets.contains_key(x) ==> next.targets[x] == board.targets[x]
            &&& next.targets.dom() == board.targets.dom()
        }),
{
    assert(board.targets.insert(
        t,
        state::InfoView { node, status: super::status_of(end, secs), ..board.targets[t] },
    ).dom() =~= board.targets.dom());
}

/// Each target that settling ends is named in what is printed: with the failures that block it,
/// or among those that never started.
pub proof fn law_settling_names_everything(
    q: DagState,
    board: BoardView,
    list: Seq<Seq<char>>,
    t: Seq<char>,
)
    requires
        list.contains(t),
        !(board.targets.contains_key(t) && state::terminal(board.targets[t].status)),
    ensures
        ({
            let s = super::settled(q, board, list);
            let deps = order::in_order(q.blockers(t));
            if deps.len() == 0 {
                s.cancelled.contains(t)
            } else {
                s.blocked.contains(t + " (needs "@ + text::join(deps, ", "@) + ")"@)
            }
        }),
    decreases list.len(),
{
    let before = super::settled(q, board, list.drop_last());
    let deps = order::in_order(q.blockers(t));
    let entry = super::blocked_entry(t, deps);
    if list.drop_last().contains(t) {
        law_settling_names_everything(q, board, list.drop_last(), t);
        if list.last() != t {
            let more = super::needs(q, list.last());
            names::lemma_push_contains(before.cancelled, list.last(), t);
            names::lemma_push_contains(
                before.blocked,
                super::blocked_entry(list.last(), more),
                entry,
            );
        } else {
            names::lemma_push_contains(before.cancelled, t, t);
            names::lemma_push_contains(before.blocked, entry, entry);
        }
    } else {
        assert(list.last() == t) by {
            let i: int = choose|i: int| 0 <= i < list.len() && list[i] == t;
            if i < list.len() - 1 {
                assert(list.drop_last()[i] == t);
            }
        }
        lemma_settled_others(q, board, list.drop_last(), t);
        names::lemma_push_contains(before.cancelled, t, t);
        names::lemma_push_contains(before.blocked, entry, entry);
    }
}

/// Settling leaves what is known of a target that is not in the list.
proof fn lemma_settled_others(q: DagState, board: BoardView, list: Seq<Seq<char>>, t: Seq<char>)
    requires
        !list.contains(t),
    ensures
        super::settled(q, board, list).board.targets.contains_key(t) == board.targets.contains_key(
            t,
        ),
        board.targets.contains_key(t) ==> super::settled(q, board, list).board.targets[t]
            == board.targets[t],
    decreases list.len(),
{
    if list.len() > 0 {
        assert(list.contains(list.last()));
        assert(!list.drop_last().contains(t)) by {
            if list.drop_last().contains(t) {
                let i: int = choose|i: int|
                    0 <= i < list.drop_last().len() && list.drop_last()[i] == t;
                assert(list[i] == t);
            }
        }
        lemma_settled_others(q, board, list.drop_last(), t);
    }
}

/// What is printed at the end gives the number of the targets that were skipped, for each of the
/// two reasons that there are, and names them; nothing is printed for a reason without targets.
pub proof fn law_skipped_are_printed(s: super::Settled, i: int)
    ensures
        super::settled_text(s).len() == (if s.blocked.len() > 0 {
            1int
        } else {
            0
        }) + (if s.cancelled.len() > 0 {
            1int
        } else {
            0
        }),
        0 <= i < s.blocked.len() ==> text::occurs(super::settled_text(s)[0], s.blocked[i])
            && text::occurs(super::settled_text(s)[0], text::decimal(s.blocked.len())),
        0 <= i < s.cancelled.len() ==> text::occurs(
            super::settled_text(s).last(),
            s.cancelled[i],
        ) && text::occurs(super::settled_text(s).last(), text::decimal(s.cancelled.len())),
{
    if 0 <= i < s.blocked.len() {
        let a = "\nSkipped "@;
        let n = text::decimal(s.blocked.len());
        let b = " targets blocked by failed dependencies: "@;
        let c = text::join(s.blocked, ", "@);
        assert(super::settled_text(s)[0] == a + n + b + c);
        text::lemma_join_holds(s.blocked, ", "@, i);
        text::lemma_occurs_later(a + n + b, c, s.blocked[i]);
        text::lemma_occurs_between(a, n, b + c);
        assert(a + n + (b + c) =~= a + n + b + c);
    }
    if 0 <= i < s.cancelled.len() {
        let a = "\nSkipped "@;
        let n = text::decimal(s.cancelled.len());
        let b = " targets that never started: "@;
        let c = text::join(s.cancelled, ", "@);
        assert(super::settled_text(s).last() == a + n + b + c);
        text::lemma_join_holds(s.cancelled, ", "@, i);
        text::lemma_occurs_later(a + n + b, c, s.cancelled[i]);
        text::lemma_occurs_between(a, n, b + c);
        assert(a + n + (b + c) =~= a + n + b + c);
    }
}

/// The warning of cycles has a line for each cycle, which names every target in it, between the
/// lines that say what it is about; there is none without cycles.
pub proof fn law_cycles_are_warned_of(cycles: Seq<Seq<Seq<char>>>, i: int, j: int)
    ensures
        cycles.len() == 0 ==> super::cycle_warning(cycles).len() == 0,
        cycles.len() > 0 ==> super::cycle_warning(cycles).len() == cycles.len() + 2,
        0 <= i < cycles.len() && 0 <= j < cycles[i].len() ==> text::occurs(
            super::cycle_warning(cycles)[i + 1],
            cycles[i][j],
        ),
        0 <= i < cycles.len() && cycles[i].len() > 0 ==> (" → "@ + cycles[i][0]).is_suffix_of(
            super::cycle_warning(cycles)[i + 1],
        ),
{
    if 0 <= i < cycles.len() {
        let cycle = cycles[i];
        let line = super::cycle_line(cycle);
        assert(super::cycle_warning(cycles)[i + 1] == line);
        let names = text::join(cycle, " → "@);
        if 0 <= j < cycle.len() {
            text::lemma_join_holds(cycle, " → "@, j);
            text::lemma_occurs_later("  "@, names, cycle[j]);
            text::lemma_occurs_earlier("  "@ + names, " → "@ + cycle[0], cycle[j]);
            assert("  "@ + names + (" → "@ + cycle[0]) =~= line);
        }
        if cycle.len() > 0 {
            let end = " → "@ + cycle[0];
            assert(line =~= "  "@ + names + end);
            assert(line.subrange(line.len() - end.len(), line.len() as int) =~= end);
        }
    }
}

/// Only a failure ends the run for the other builds, only where it is to do so, and only once.
pub proof fn law_only_failures_end_the_run(
    queue: &mut DagQueue,
    target: &str,
    end: &BuildEnd,
    fail_fast: bool,
    cancelled: bool,
    r: bool,
)
    requires
        call_ensures(super::finish_build, (queue, target, end, fail_fast, cancelled), r),
    ensures
        r ==> end is Failed && fail_fast && !cancelled,
        end is Failed && fail_fast && !cancelled ==> r,
{
}

}
