//! What holds of a queue over a whole run.
use super::DagState;
use crate::names;
use crate::order;
use crate::platform;
use vstd::prelude::*;

verus! {

/// Whether `t` has been freed: it is ready, being built, or has come to an end.
pub open spec fn freed(s: DagState, t: Seq<char>) -> bool {
    s.ready.contains(t) || s.in_flight.contains(t) || s.ended(t)
}

/// What holds of a queue at every step of a run: a target has been freed once all it depends
/// on has been built, not before, and is at one place only.
pub open spec fn sound(s: DagState) -> bool {
    &&& s.valid()
    &&& s.ready.no_duplicates()
    &&& forall|t: Seq<char>|
        #![trigger s.ready.contains(t)]
        #![trigger s.in_flight.contains(t)]
        #![trigger s.completed.contains(t)]
        #![trigger s.failed.contains(t)]
        #![trigger s.cancelled.contains(t)]
        freed(s, t) ==> s.all.contains(t) && s.unblocked(t)
    &&& forall|t: Seq<char>| s.all.contains(t) && #[trigger] s.unblocked(t) ==> freed(s, t)
    &&& forall|t: Seq<char>| #[trigger]
        s.ready.contains(t) ==> !s.in_flight.contains(t) && !s.ended(t)
    &&& forall|t: Seq<char>| #[trigger] s.in_flight.contains(t) ==> !s.ended(t)
    &&& s.completed.disjoint(s.failed)
    &&& s.completed.disjoint(s.cancelled)
    &&& s.failed.disjoint(s.cancelled)
}

/// A new queue of distinct targets is sound.
pub proof fn law_new_queue_sound(
    targets: Seq<Seq<char>>,
    deps: Map<Seq<char>, Seq<Seq<char>>>,
    platforms: Map<Seq<char>, Seq<Seq<char>>>,
)
    requires
        targets.no_duplicates(),
    ensures
        sound(super::new_state(targets, deps, platforms)),
{
    let s = super::new_state(targets, deps, platforms);
    let free = |t: Seq<char>| super::known_deps(s.all, deps, t) == Set::<Seq<char>>::empty();
    super::lemma_new_valid(targets, deps, platforms);
    lemma_filter_distinct(targets, free);
    assert forall|t: Seq<char>| s.all.contains(t) implies (s.ready.contains(t) <==> s.unblocked(
        t,
    )) by {
        assert(s.deps[t] == super::known_deps(s.all, deps, t));
        if s.ready.contains(t) {
            let i: int = choose|i: int| 0 <= i < s.ready.len() && s.ready[i] == t;
            super::lemma_filter_among(targets, free, i);
            assert(free(t));
        }
        if s.unblocked(t) {
            assert(s.deps[t] =~= Set::<Seq<char>>::empty());
            let i: int = choose|i: int| 0 <= i < targets.len() && targets[i] == t;
            targets.lemma_filter_contains(free, i);
        }
    }
}

proof fn lemma_filter_distinct(s: Seq<Seq<char>>, f: spec_fn(Seq<char>) -> bool)
    requires
        s.no_duplicates(),
    ensures
        s.filter(f).no_duplicates(),
    decreases s.len(),
{
    reveal(Seq::filter);
    if s.len() > 0 {
        let head = s.drop_last();
        lemma_filter_distinct(head, f);
        if f(s.last()) {
            let r = s.filter(f);
            assert forall|i: int, j: int| 0 <= i < r.len() && 0 <= j < r.len() && i != j implies r[i]
                != r[j] by {
                let a: int = if i < j {
                    i
                } else {
                    j
                };
                super::lemma_filter_among(head, f, a);
                let k: int = choose|k: int| 0 <= k < head.len() && head[k] == head.filter(f)[a];
                assert(s[k] != s[s.len() - 1]);
            }
        }
    }
}

/// Saying which nodes there are keeps a queue sound.
pub proof fn law_nodes_keep_sound(s: DagState, nodes: Seq<Seq<Seq<char>>>)
    requires
        sound(s),
    ensures
        sound(DagState { nodes, ..s }),
{
    let n = DagState { nodes, ..s };
    assert forall|t: Seq<char>| n.all.contains(t) && #[trigger] n.unblocked(t) implies freed(
        n,
        t,
    ) by {
        assert(s.unblocked(t));
    }
    assert forall|t: Seq<char>| freed(n, t) implies n.all.contains(t) && n.unblocked(t) by {
        assert(freed(s, t));
        assert(s.ready.contains(t) || s.in_flight.contains(t) || s.ended(t));
        assert(s.unblocked(t));
    }
}

/// The place found by a search of the queue.
pub proof fn lemma_first_fit_meaning(s: DagState, node: Seq<Seq<char>>, queue: Seq<Seq<char>>)
    ensures
        0 <= super::first_fitting(s, node, queue) <= queue.len(),
        forall|j: int|
            0 <= j < super::first_fitting(s, node, queue) ==> !s.fits(node, #[trigger] queue[j]),
        super::first_fitting(s, node, queue) < queue.len() ==> s.fits(
            node,
            queue[super::first_fitting(s, node, queue)],
        ),
    decreases queue.len(),
{
    if queue.len() > 0 && !s.fits(node, queue[0]) {
        lemma_first_fit_meaning(s, node, queue.skip(1));
        let at = super::first_fitting(s, node, queue);
        assert forall|j: int| 0 <= j < at implies !s.fits(node, #[trigger] queue[j]) by {
            if j > 0 {
                assert(queue[j] == queue.skip(1)[j - 1]);
            }
        }
        if at < queue.len() {
            assert(queue[at] == queue.skip(1)[at - 1]);
        }
    }
}

/// A target is claimed when all it depends on has been built, and only once: it was not being
/// built, and had not come to an end.
pub proof fn law_claims_in_order(s: DagState, node: Seq<Seq<char>>)
    requires
        sound(s),
        s.first_fit(node) < s.ready.len(),
    ensures
        ({
            let t = s.ready[s.first_fit(node)];
            &&& s.all.contains(t)
            &&& s.deps[t].subset_of(s.completed)
            &&& !s.in_flight.contains(t)
            &&& !s.ended(t)
            &&& s.fits(node, t)
        }),
{
    lemma_first_fit_meaning(s, node, s.ready);
    let t = s.ready[s.first_fit(node)];
    assert(s.ready.contains(t));
}

/// A claim keeps a queue sound, and the claimed target cannot be claimed again.
pub proof fn law_claim_keeps_sound(s: DagState, node: Seq<Seq<char>>)
    requires
        sound(s),
        s.first_fit(node) < s.ready.len(),
    ensures
        sound(s.claim_at(s.first_fit(node))),
        !s.claim_at(s.first_fit(node)).ready.contains(s.ready[s.first_fit(node)]),
{
    lemma_first_fit_meaning(s, node, s.ready);
    let at = s.first_fit(node);
    let n = s.claim_at(at);
    let t0 = s.ready[at];
    assert forall|t: Seq<char>| #[trigger] n.ready.contains(t) <==> s.ready.contains(t) && t
        != t0 by {
        if n.ready.contains(t) {
            let i: int = choose|i: int| 0 <= i < n.ready.len() && n.ready[i] == t;
            let j: int = if i < at {
                i
            } else {
                i + 1
            };
            assert(s.ready[j] == t);
        }
        if s.ready.contains(t) && t != t0 {
            let j: int = choose|j: int| 0 <= j < s.ready.len() && s.ready[j] == t;
            let i: int = if j < at {
                j
            } else {
                j - 1
            };
            assert(n.ready[i] == t);
        }
    }
    assert(s.ready.contains(t0));
    assert forall|i: int| 0 <= i < n.ready.len() implies n.all.contains(#[trigger] n.ready[i]) by {
        assert(n.ready.contains(n.ready[i]));
        assert(s.ready.contains(n.ready[i]));
    }
    assert forall|t: Seq<char>| freed(n, t) <==> freed(s, t) by {
        assert(n.ready.contains(t) <==> s.ready.contains(t) && t != t0);
        assert(n.ended(t) == s.ended(t));
    }
    assert forall|t: Seq<char>| n.all.contains(t) && #[trigger] n.unblocked(t) implies freed(
        n,
        t,
    ) by {
        assert(s.unblocked(t));
        assert(freed(s, t));
    }
    assert forall|t: Seq<char>| freed(n, t) implies n.all.contains(t) && n.unblocked(t) by {
        assert(freed(s, t));
        assert(s.ready.contains(t) || s.in_flight.contains(t) || s.ended(t));
        assert(s.unblocked(t));
    }
    assert(n.ready.no_duplicates());
}

/// The end of a build that failed keeps a queue sound.
pub proof fn law_failure_keeps_sound(s: DagState, t: Seq<char>)
    requires
        sound(s),
        s.in_flight.contains(t),
    ensures
        sound(s.fails(t)),
{
    lemma_end_keeps_sound(s, t, s.fails(t));
}

/// The end of a build that was cancelled keeps a queue sound.
pub proof fn law_cancellation_keeps_sound(s: DagState, t: Seq<char>)
    requires
        sound(s),
        s.in_flight.contains(t),
    ensures
        sound(s.cancels(t)),
{
    lemma_end_keeps_sound(s, t, s.cancels(t));
}

proof fn lemma_end_keeps_sound(s: DagState, t0: Seq<char>, n: DagState)
    requires
        sound(s),
        s.in_flight.contains(t0),
        n == s.fails(t0) || n == s.cancels(t0),
    ensures
        sound(n),
{
    assert forall|t: Seq<char>| freed(n, t) <==> freed(s, t) by {}
    assert forall|t: Seq<char>| n.all.contains(t) && #[trigger] n.unblocked(t) implies freed(
        n,
        t,
    ) by {
        assert(s.unblocked(t));
        assert(freed(s, t));
    }
    assert forall|t: Seq<char>| freed(n, t) implies n.all.contains(t) && n.unblocked(t) by {
        assert(freed(s, t));
        assert(s.ready.contains(t) || s.in_flight.contains(t) || s.ended(t));
        assert(s.unblocked(t));
    }
    assert(!s.ended(t0));
    assert(!s.ready.contains(t0));
}

/// The end of a build that succeeded keeps a queue sound.
pub proof fn law_completion_keeps_sound(s: DagState, t0: Seq<char>, n: DagState)
    requires
        sound(s),
        s.in_flight.contains(t0),
        s.completes(t0, n),
    ensures
        sound(n),
{
    let mid = s.with_completed(t0);
    let added = n.ready.skip(s.ready.len() as int);
    assert(!s.ended(t0));
    assert(!s.ready.contains(t0));
    assert forall|t: Seq<char>| #[trigger] n.ready.contains(t) <==> s.ready.contains(t)
        || mid.releases(t0, t) by {
        names::lemma_sum_contains(s.ready, added, t);
        assert(added.contains(t) == mid.releases(t0, t));
    }
    order::lemma_ascending_distinct(added);
    assert forall|i: int, j: int|
        0 <= i < n.ready.len() && 0 <= j < n.ready.len() && i != j implies n.ready[i]
        != n.ready[j] by {
        let k = s.ready.len();
        if i < k && j >= k {
            assert(s.ready.contains(n.ready[i]));
            assert(added.contains(added[j - k]));
            assert(mid.releases(t0, added[j - k]));
        } else if j < k && i >= k {
            assert(s.ready.contains(n.ready[j]));
            assert(added.contains(added[i - k]));
            assert(mid.releases(t0, added[i - k]));
        }
    }
    assert forall|i: int| 0 <= i < n.ready.len() implies n.all.contains(#[trigger] n.ready[i]) by {
        assert(n.ready.contains(n.ready[i]));
        if s.ready.contains(n.ready[i]) {
            assert(s.all.contains(n.ready[i]));
        }
    }
    assert forall|t: Seq<char>| #[trigger] s.unblocked(t) implies n.unblocked(t) by {}
    assert forall|t: Seq<char>| n.all.contains(t) && #[trigger] n.unblocked(t) implies freed(
        n,
        t,
    ) by {
        if s.unblocked(t) {
            assert(freed(s, t));
            assert(n.ready.contains(t) || !s.ready.contains(t));
        } else {
            assert(!freed(s, t));
            let d = choose|d: Seq<char>|
                names::set_for(s.deps, t).contains(d) && !s.completed.contains(d);
            assert(names::set_for(n.deps, t).contains(d));
            assert(n.completed.contains(d));
            assert(d == t0);
            assert(mid.unblocked(t));
            assert(!s.ready.contains(t) && !s.in_flight.contains(t) && !s.ended(t));
            assert(t != t0);
            assert(mid.releases(t0, t));
            assert(n.ready.contains(t));
        }
    }
    assert forall|t: Seq<char>| freed(n, t) implies n.all.contains(t) && n.unblocked(t) by {
        if n.ready.contains(t) && mid.releases(t0, t) {
            assert(mid.unblocked(t));
            assert(n.unblocked(t));
        } else {
            assert(freed(s, t));
            assert(s.ready.contains(t) || s.in_flight.contains(t) || s.ended(t));
            assert(s.unblocked(t));
        }
    }
    assert forall|t: Seq<char>| #[trigger] n.ready.contains(t) implies !n.in_flight.contains(t)
        && !n.ended(t) by {
        if s.ready.contains(t) {
        } else {
            assert(mid.releases(t0, t));
        }
    }
}

/// A failure blocks everything that depends on it, directly or through others: none of it is
/// ever ready, being built, built, failed or cancelled.
pub proof fn law_failure_blocks_dependents(s: DagState, path: Seq<Seq<char>>, i: int)
    requires
        sound(s),
        s.chain(path),
        0 <= i < path.len() - 1,
        s.failed.contains(path.last()),
    ensures
        !freed(s, path[i]),
    decreases path.len() - i,
{
    let t = path[i];
    let d = path[i + 1];
    assert(names::set_for(s.deps, t).contains(d));
    if i + 1 < path.len() - 1 {
        law_failure_blocks_dependents(s, path, i + 1);
    }
    assert(!s.completed.contains(d));
    if freed(s, t) {
        assert(s.ready.contains(t) || s.in_flight.contains(t) || s.ended(t));
        assert(s.unblocked(t));
    }
}

/// A queue is done when, and only when, no target is left that has not come to an end.
pub proof fn law_done_means_nothing_unfinished(s: DagState)
    ensures
        s.done() <==> s.unfinished() == Set::<Seq<char>>::empty(),
{
    if s.done() {
        assert(s.unfinished() =~= Set::<Seq<char>>::empty());
    }
    if s.unfinished() == Set::<Seq<char>>::empty() {
        assert forall|t: Seq<char>| #[trigger] s.all.contains(t) implies s.ended(t) by {
            assert(!s.unfinished().contains(t));
        }
    }
}

/// Where the queue is stalled, something is unfinished, nothing is being built, and no known
/// node can claim anything.
pub proof fn law_stalled_means_no_progress(s: DagState, i: int)
    requires
        s.stalled(),
        0 <= i < s.nodes.len(),
    ensures
        s.unfinished() != Set::<Seq<char>>::empty(),
        s.in_flight == Set::<Seq<char>>::empty(),
        s.first_fit(s.nodes[i]) == s.ready.len(),
{
    law_done_means_nothing_unfinished(s);
    lemma_first_fit_meaning(s, s.nodes[i], s.ready);
    let at = s.first_fit(s.nodes[i]);
    if at < s.ready.len() {
        assert(!s.claimable(s.ready[at]));
        assert(s.fits(s.nodes[i], s.ready[at]));
    }
}

/// Where the queue is neither done nor stalled, something is being built or, the nodes being
/// known, one of them can claim a target.
pub proof fn law_otherwise_progress(s: DagState) -> (i: int)
    requires
        !s.done(),
        !s.stalled(),
        s.nodes.len() > 0,
    ensures
        s.in_flight != Set::<Seq<char>>::empty() || (0 <= i < s.nodes.len() && s.first_fit(s.nodes[i])
            < s.ready.len()),
{
    if s.in_flight != Set::<Seq<char>>::empty() {
        0
    } else {
        let j: int = choose|j: int|
            0 <= j < s.ready.len() && s.claimable(#[trigger] s.ready[j]);
        let i: int = choose|i: int|
            0 <= i < s.nodes.len() && s.fits(#[trigger] s.nodes[i], s.ready[j]);
        lemma_first_fit_meaning(s, s.nodes[i], s.ready);
        i
    }
}

/// What no known node can build is never claimed by one.
pub proof fn law_unsatisfiable_never_claimed(s: DagState, t: Seq<char>, i: int)
    requires
        !s.claimable(t),
        0 <= i < s.nodes.len(),
        s.first_fit(s.nodes[i]) < s.ready.len(),
    ensures
        s.ready[s.first_fit(s.nodes[i])] != t,
{
    lemma_first_fit_meaning(s, s.nodes[i], s.ready);
}

/// A cancelled build is not a failure: it blocks nothing by failing that was not so blocked
/// before.
pub proof fn law_cancellation_is_no_failure(s: DagState, t: Seq<char>, x: Seq<char>, d: Seq<char>)
    requires
        s.cancels(t).blocked_by(x, d),
    ensures
        s.blocked_by(x, d),
        s.failed.contains(d),
{
    let n = s.cancels(t);
    let path = choose|path: Seq<Seq<char>>| #[trigger]
        n.waits_along(x, path) && path.last() == d;
    assert forall|i: int| 0 < i < path.len() - 1 implies s.open(#[trigger] path[i]) by {
        assert(n.open(path[i]));
    }
    assert forall|i: int| 0 <= i < path.len() - 1 implies names::set_for(
        s.deps,
        #[trigger] path[i],
    ).contains(path[i + 1]) by {
        assert(names::set_for(n.deps, path[i]).contains(path[i + 1]));
    }
    assert(s.waits_along(x, path));
}

/// Where nothing is ready or being built and there is no cycle, an unfinished target waits for
/// one that failed or was cancelled. So a run without cycles in which nothing fails and nothing
/// is cancelled builds every target.
pub proof fn law_unfinished_waits_for_an_end(s: DagState, t: Seq<char>) -> (path: Seq<Seq<char>>)
    requires
        sound(s),
        s.acyclic(),
        s.ready.len() == 0,
        s.in_flight == Set::<Seq<char>>::empty(),
        s.unfinished().contains(t),
    ensures
        s.waits_along(t, path),
        s.failed.contains(path.last()) || s.cancelled.contains(path.last()),
{
    lemma_follow(s, t, seq![t])
}

proof fn lemma_follow(s: DagState, t: Seq<char>, path: Seq<Seq<char>>) -> (r: Seq<Seq<char>>)
    requires
        sound(s),
        s.acyclic(),
        s.ready.len() == 0,
        s.in_flight == Set::<Seq<char>>::empty(),
        path.len() > 0,
        path[0] == t,
        s.chain(path),
        path.no_duplicates(),
        forall|i: int| 0 <= i < path.len() ==> s.unfinished().contains(#[trigger] path[i]),
    ensures
        s.waits_along(t, r),
        s.failed.contains(r.last()) || s.cancelled.contains(r.last()),
    decreases s.all.len() - path.len(),
{
    let x = path.last();
    assert(s.unfinished().contains(path[path.len() - 1]));
    assert(!freed(s, x));
    assert(!s.unblocked(x));
    let d = choose|d: Seq<char>|
        names::set_for(s.deps, x).contains(d) && !s.completed.contains(d);
    assert(s.deps[x].contains(d));
    let longer = path.push(d);
    assert forall|i: int| 0 <= i < longer.len() - 1 implies names::set_for(
        s.deps,
        #[trigger] longer[i],
    ).contains(longer[i + 1]) by {
        assert(longer[i] == path[i]);
        if i + 1 < path.len() {
            assert(longer[i + 1] == path[i + 1]);
        }
    }
    if s.failed.contains(d) || s.cancelled.contains(d) {
        assert forall|i: int| 0 < i < longer.len() - 1 implies s.open(#[trigger] longer[i]) by {
            assert(longer[i] == path[i]);
            assert(s.unfinished().contains(path[i]));
        }
        assert(longer.last() == d);
        longer
    } else {
        assert(s.unfinished().contains(d));
        assert forall|i: int| 0 <= i < longer.len() implies s.unfinished().contains(
            #[trigger] longer[i],
        ) by {
            if i < path.len() {
                assert(longer[i] == path[i]);
            }
        }
        assert forall|i: int| 0 <= i < path.len() implies #[trigger] path[i] != d by {
            if path[i] == d {
                let c = path.skip(i);
                assert forall|j: int| 0 <= j < c.len() - 1 implies names::set_for(
                    s.deps,
                    #[trigger] c[j],
                ).contains(c[j + 1]) by {
                    assert(c[j] == path[i + j]);
                    assert(c[j + 1] == path[i + j + 1]);
                }
                assert(c.last() == x);
                assert(c[0] == d);
                assert(s.is_cycle(c));
            }
        }
        assert(longer.no_duplicates());
        longer.unique_seq_to_set();
        assert(longer.to_set().subset_of(s.all)) by {
            assert forall|y: Seq<char>| longer.to_set().contains(y) implies s.all.contains(y) by {
                let i: int = choose|i: int| 0 <= i < longer.len() && longer[i] == y;
                assert(s.unfinished().contains(longer[i]));
            }
        }
        vstd::set_lib::lemma_len_subset(longer.to_set(), s.all);
        lemma_follow(s, t, longer)
    }
}

/// In a new queue a target waits for exactly what its list names, among the targets and but for
/// itself: it is ready where that is nothing, and stands in the order in which it was given.
pub proof fn law_new_queue_follows_the_lists(
    targets: Seq<Seq<char>>,
    deps: Map<Seq<char>, Seq<Seq<char>>>,
    platforms: Map<Seq<char>, Seq<Seq<char>>>,
    t: Seq<char>,
    d: Seq<char>,
)
    requires
        targets.contains(t),
    ensures
        ({
            let q = super::new_state(targets, deps, platforms);
            let waits = |x: Seq<char>|
                deps.contains_key(t) && deps[t].contains(x) && targets.contains(x) && x != t;
            &&& q.all.contains(t)
            &&& q.deps[t].contains(d) <==> waits(d)
            &&& waits(d) ==> !q.ready.contains(t)
            &&& (forall|x: Seq<char>| !#[trigger] waits(x)) ==> q.ready.contains(t)
        }),
{
    let q = super::new_state(targets, deps, platforms);
    let all = targets.to_set();
    let free = |x: Seq<char>| super::known_deps(all, deps, x) == Set::<Seq<char>>::empty();
    let waits = |x: Seq<char>|
        deps.contains_key(t) && deps[t].contains(x) && targets.contains(x) && x != t;
    assert(all.contains(t));
    names::lemma_filter_holds(targets, free, t);
    assert(q.ready == targets.filter(free));
    assert forall|x: Seq<char>| super::known_deps(all, deps, t).contains(x) <==> #[trigger] waits(
        x,
    ) by {
        assert(all.contains(x) <==> targets.contains(x));
    }
    assert(waits(d) == super::known_deps(all, deps, t).contains(d));
    if forall|x: Seq<char>| !#[trigger] waits(x) {
        assert forall|x: Seq<char>| !super::known_deps(all, deps, t).contains(x) by {
            assert(!waits(x));
        }
        assert(super::known_deps(all, deps, t) =~= Set::<Seq<char>>::empty());
    }
}

/// A new queue has the given targets, platforms and no others; nothing has been built, is being
/// built or has ended.
pub proof fn law_new_queue_starts_fresh(
    targets: Seq<Seq<char>>,
    deps: Map<Seq<char>, Seq<Seq<char>>>,
    platforms: Map<Seq<char>, Seq<Seq<char>>>,
    t: Seq<char>,
)
    ensures
        ({
            let q = super::new_state(targets, deps, platforms);
            &&& q.all.contains(t) <==> targets.contains(t)
            &&& q.ready.contains(t) ==> targets.contains(t)
            &&& !q.in_flight.contains(t)
            &&& !q.completed.contains(t)
            &&& !q.failed.contains(t)
            &&& !q.cancelled.contains(t)
            &&& q.platforms == platforms
            &&& q.nodes.len() == 0
        }),
{
    let all = targets.to_set();
    let free = |x: Seq<char>| super::known_deps(all, deps, x) == Set::<Seq<char>>::empty();
    names::lemma_filter_holds(targets, free, t);
}

/// What is ready at first stands in the order in which the targets were given.
pub proof fn law_new_queue_keeps_the_order(
    targets: Seq<Seq<char>>,
    deps: Map<Seq<char>, Seq<Seq<char>>>,
    platforms: Map<Seq<char>, Seq<Seq<char>>>,
    i: int,
    j: int,
)
    requires
        targets.no_duplicates(),
        0 <= i < j < super::new_state(targets, deps, platforms).ready.len(),
    ensures
        ({
            let ready = super::new_state(targets, deps, platforms).ready;
            targets.index_of(ready[i]) < targets.index_of(ready[j])
        }),
{
    let all = targets.to_set();
    let free = |x: Seq<char>| super::known_deps(all, deps, x) == Set::<Seq<char>>::empty();
    names::lemma_filter_order(targets, free, i, j);
}

/// The first place that fits is the least place of the queue whose target asks for nothing, or
/// for a platform that the node has; where there is none it is the end of the queue.
pub proof fn law_first_fit_is_the_first(s: DagState, node: Seq<Seq<char>>, i: int)
    requires
        0 <= i <= s.ready.len(),
        forall|j: int|
            0 <= j < i ==> !platform::compatible(
                node,
                names::list_for(s.platforms, #[trigger] s.ready[j]),
            ),
        i < s.ready.len() ==> platform::compatible(node, names::list_for(s.platforms, s.ready[i])),
    ensures
        s.first_fit(node) == i,
{
    lemma_first_fit_meaning(s, node, s.ready);
    let at = s.first_fit(node);
    if at < i {
        assert(!platform::compatible(node, names::list_for(s.platforms, s.ready[at])));
    }
    if i < at {
        assert(!s.fits(node, s.ready[i]));
    }
}

/// With known nodes a target can be claimed where one of them has a platform for it, and only
/// there; without known nodes any target can.
pub proof fn law_claimable_means_a_node_fits(s: DagState, t: Seq<char>, i: int)
    ensures
        s.nodes.len() == 0 ==> s.claimable(t),
        0 <= i < s.nodes.len() && platform::compatible(
            s.nodes[i],
            names::list_for(s.platforms, t),
        ) ==> s.claimable(t),
        s.nodes.len() > 0 && (forall|k: int|
            0 <= k < s.nodes.len() ==> !platform::compatible(
                #[trigger] s.nodes[k],
                names::list_for(s.platforms, t),
            )) ==> !s.claimable(t),
{
    if 0 <= i < s.nodes.len() {
        assert(s.fits(s.nodes[i], t) == platform::compatible(
            s.nodes[i],
            names::list_for(s.platforms, t),
        ));
    }
}

/// A claim takes the target out of the queue, notes that it is being built, and leaves the rest
/// of the queue in its order.
pub proof fn law_claim_moves_one_target(s: DagState, at: int, j: int)
    requires
        0 <= at < s.ready.len(),
        0 <= j < s.ready.len() - 1,
    ensures
        ({
            let n = s.claim_at(at);
            &&& n.in_flight == s.in_flight.insert(s.ready[at])
            &&& n.ready.len() == s.ready.len() - 1
            &&& n.ready[j] == if j < at {
                s.ready[j]
            } else {
                s.ready[j + 1]
            }
            &&& n.completed == s.completed && n.failed == s.failed && n.cancelled == s.cancelled
            &&& n.all == s.all && n.deps == s.deps && n.platforms == s.platforms && n.nodes
                == s.nodes
        }),
{
}

/// Once a target has been built it counts as built and no longer as being built, and what waits
/// in the queue keeps its place. A target that waited for it, and now for nothing more, is ready;
/// what joins the queue has waited for it, and for nothing that is not built.
pub proof fn law_completion_frees_dependents(s: DagState, t: Seq<char>, n: DagState, d: Seq<char>)
    requires
        s.valid(),
        s.completes(t, n),
    ensures
        n.completed == s.completed.insert(t),
        n.in_flight == s.in_flight.remove(t),
        n.failed == s.failed && n.cancelled == s.cancelled,
        n.all == s.all && n.deps == s.deps && n.platforms == s.platforms && n.nodes == s.nodes,
        s.ready.is_prefix_of(n.ready),
        s.all.contains(d) && s.deps[d].contains(t) && (forall|x: Seq<char>| #[trigger]
            s.deps[d].contains(x) ==> x == t || s.completed.contains(x)) && d != t
            && !s.in_flight.contains(d) && !s.ended(d) ==> n.ready.contains(d),
        n.ready.contains(d) && !s.ready.contains(d) ==> s.all.contains(d) && s.deps[d].contains(t)
            && (forall|x: Seq<char>| #[trigger]
            s.deps[d].contains(x) ==> x == t || s.completed.contains(x)) && !s.ended(d)
            && !n.in_flight.contains(d),
{
    let mid = s.with_completed(t);
    let added = n.ready.skip(s.ready.len() as int);
    assert(n.ready == s.ready + added);
    assert(n.ready.take(s.ready.len() as int) =~= s.ready);
    names::lemma_sum_contains(s.ready, added, d);
    assert(added.contains(d) == mid.releases(t, d));
    if s.all.contains(d) {
        assert(mid.unblocked(d) == s.deps[d].subset_of(mid.completed));
    }
    if s.all.contains(d) && s.deps[d].contains(t) && (forall|x: Seq<char>| #[trigger]
        s.deps[d].contains(x) ==> x == t || s.completed.contains(x)) && d != t
        && !s.in_flight.contains(d) && !s.ended(d) && !s.ready.contains(d) {
        assert(s.deps[d].subset_of(mid.completed));
        assert(mid.releases(t, d));
    }
    if added.contains(d) {
        assert forall|x: Seq<char>| #[trigger] s.deps[d].contains(x) implies x == t
            || s.completed.contains(x) by {
            assert(mid.completed.contains(x));
        }
    }
}

/// The end of a build takes its target from those being built to those that failed or were
/// cancelled, and changes nothing else: nothing joins the queue.
pub proof fn law_other_ends_free_nothing(s: DagState, t: Seq<char>)
    ensures
        s.fails(t).failed == s.failed.insert(t),
        s.fails(t).in_flight == s.in_flight.remove(t),
        s.fails(t) == (DagState {
            failed: s.fails(t).failed,
            in_flight: s.fails(t).in_flight,
            ..s
        }),
        s.cancels(t).cancelled == s.cancelled.insert(t),
        s.cancels(t).in_flight == s.in_flight.remove(t),
        s.cancels(t) == (DagState {
            cancelled: s.cancels(t).cancelled,
            in_flight: s.cancels(t).in_flight,
            ..s
        }),
{
}

/// A target is blocked by each failed dependency of its own, and by whatever blocks a dependency
/// that has not come to an end.
pub proof fn law_failures_block_along_the_way(
    s: DagState,
    t: Seq<char>,
    m: Seq<char>,
    d: Seq<char>,
)
    requires
        s.deps.contains_key(t),
        s.deps[t].contains(m),
    ensures
        s.failed.contains(m) ==> s.blocked_by(t, m),
        !s.ended(m) && s.blocked_by(m, d) ==> s.blocked_by(t, d),
{
    if s.failed.contains(m) {
        let path = seq![t, m];
        assert forall|i: int| 0 <= i < path.len() - 1 implies names::set_for(
            s.deps,
            #[trigger] path[i],
        ).contains(path[i + 1]) by {}
        assert(s.waits_along(t, path));
        assert(path.last() == m);
    }
    if !s.ended(m) && s.blocked_by(m, d) {
        let old_path = choose|p: Seq<Seq<char>>| #[trigger]
            s.waits_along(m, p) && p.last() == d;
        let path = seq![t] + old_path;
        assert forall|i: int| 0 <= i < path.len() - 1 implies names::set_for(
            s.deps,
            #[trigger] path[i],
        ).contains(path[i + 1]) by {
            if i > 0 {
                assert(path[i] == old_path[i - 1]);
                assert(path[i + 1] == old_path[i]);
                assert(names::set_for(s.deps, old_path[i - 1]).contains(old_path[i - 1 + 1]));
            } else {
                assert(path[1] == m);
            }
        }
        assert forall|i: int| 0 < i < path.len() - 1 implies s.open(#[trigger] path[i]) by {
            assert(path[i] == old_path[i - 1]);
            if i == 1 {
                assert(path[i] == m);
            }
        }
        assert(s.waits_along(t, path));
        assert(path.last() == old_path.last());
    }
}

/// Only a failure blocks: what a target is said to be blocked by failed, and is a dependency of
/// the target or of one that has not come to an end and that the target depends on.
pub proof fn law_blocked_only_by_failures(s: DagState, t: Seq<char>, d: Seq<char>) -> (m: Seq<char>)
    requires
        s.blocked_by(t, d),
    ensures
        s.failed.contains(d),
        names::set_for(s.deps, t).contains(m),
        m == d || (!s.ended(m) && s.blocked_by(m, d)),
{
    let path = choose|p: Seq<Seq<char>>| #[trigger] s.waits_along(t, p) && p.last() == d;
    let m = path[1];
    assert(names::set_for(s.deps, path[0]).contains(path[0int + 1]));
    if path.len() > 2 {
        let rest = path.skip(1);
        assert forall|i: int| 0 <= i < rest.len() - 1 implies names::set_for(
            s.deps,
            #[trigger] rest[i],
        ).contains(rest[i + 1]) by {
            assert(rest[i] == path[i + 1]);
            assert(rest[i + 1] == path[i + 1 + 1]);
            assert(names::set_for(s.deps, path[i + 1]).contains(path[i + 1 + 1]));
        }
        assert forall|i: int| 0 < i < rest.len() - 1 implies s.open(#[trigger] rest[i]) by {
            assert(rest[i] == path[i + 1]);
        }
        assert(s.waits_along(m, rest));
        assert(rest.last() == path.last());
        assert(s.open(path[1]));
    }
    m
}

/// A target is warned of where its own list names it, and only there; one that is not built is not
/// warned of.
pub proof fn law_self_dependencies_are_warned_of(
    all: Set<Seq<char>>,
    deps: Map<Seq<char>, Seq<Seq<char>>>,
    keys: Seq<Seq<char>>,
    t: Seq<char>,
    i: int,
)
    ensures
        keys.contains(t) && all.contains(t) && names::list_for(deps, t).contains(t)
            ==> super::self_warnings(all, deps, keys).contains(
            "warning: target '"@ + t + "' depends on itself — ignoring self-dependency"@,
        ),
        0 <= i < super::self_warnings(all, deps, keys).len() ==> exists|x: Seq<char>|
            keys.contains(x) && all.contains(x) && names::list_for(deps, x).contains(x)
                && super::self_warnings(all, deps, keys)[i] == #[trigger] super::self_warning(x),
    decreases keys.len(),
{
    if keys.len() > 0 {
        let short = keys.drop_last();
        let last = keys.last();
        let before = super::self_warnings(all, deps, short);
        let n = if all.contains(last) {
            super::times(names::list_for(deps, last), last)
        } else {
            0
        };
        let added = Seq::new(n, |k: int| super::self_warning(last));
        assert(super::self_warnings(all, deps, keys) == before + added);
        assert(keys =~= short.push(last));
        lemma_times(names::list_for(deps, last), last);
        if keys.contains(t) && all.contains(t) && names::list_for(deps, t).contains(t) {
            names::lemma_push_contains(short, last, t);
            names::lemma_sum_contains(before, added, super::self_warning(t));
            if short.contains(t) {
                law_self_dependencies_are_warned_of(all, deps, short, t, 0);
            } else {
                assert(added[0] == super::self_warning(t));
            }
        }
        if 0 <= i < (before + added).len() {
            if i < before.len() {
                law_self_dependencies_are_warned_of(all, deps, short, t, i);
                let x = choose|x: Seq<char>|
                    short.contains(x) && all.contains(x) && names::list_for(deps, x).contains(x)
                        && before[i] == #[trigger] super::self_warning(x);
                names::lemma_push_contains(short, last, x);
                assert((before + added)[i] == super::self_warning(x));
            } else {
                names::lemma_push_contains(short, last, last);
                assert((before + added)[i] == super::self_warning(last));
            }
        }
    }
}

proof fn lemma_times(list: Seq<Seq<char>>, t: Seq<char>)
    ensures
        super::times(list, t) > 0 <==> list.contains(t),
    decreases list.len(),
{
    if list.len() > 0 {
        lemma_times(list.drop_last(), t);
        assert(list =~= list.drop_last().push(list.last()));
        names::lemma_push_contains(list.drop_last(), list.last(), t);
    }
}

/// What has not come to an end was neither built nor failed nor was cancelled.
pub proof fn law_unfinished_targets_have_not_ended(s: DagState, t: Seq<char>)
    ensures
        s.unfinished().contains(t) <==> s.all.contains(t) && !s.completed.contains(t)
            && !s.failed.contains(t) && !s.cancelled.contains(t),
{
}

/// What the end of a build adds to the queue was neither in it nor being built nor ended, and
/// stands in it once.
pub proof fn law_nothing_is_queued_twice(s: DagState, t: Seq<char>, n: DagState, i: int, j: int)
    requires
        s.completes(t, n),
        s.ready.len() <= i < n.ready.len(),
        0 <= j < n.ready.len(),
        j != i,
    ensures
        n.ready[j] != n.ready[i],
        !s.ready.contains(n.ready[i]),
        !n.in_flight.contains(n.ready[i]),
        !n.completed.contains(n.ready[i]) && !n.failed.contains(n.ready[i])
            && !n.cancelled.contains(n.ready[i]),
        n.ready[i] != t,
{
    let mid = s.with_completed(t);
    let before = s.ready.len() as int;
    let added = n.ready.skip(before);
    let d = n.ready[i];
    assert(n.ready == s.ready + added);
    assert(added[i - before] == d);
    assert(added.contains(d));
    assert(mid.releases(t, d));
    if j < before {
        assert(s.ready.contains(s.ready[j]));
    } else {
        assert(added[j - before] == n.ready[j]);
    }
}

}
