//! What holds of a queue from the start of a run to its end.
use super::laws;
use super::DagState;
use crate::names;
use vstd::prelude::*;

verus! {

/// Whether a node claims a target.
pub open spec fn claims(s: DagState, next: DagState) -> bool {
    exists|node: Seq<Seq<char>>|
        #[trigger] s.first_fit(node) < s.ready.len() && next == s.claim_at(s.first_fit(node))
}

/// Whether the build of `t` comes to an end.
pub open spec fn ends(s: DagState, t: Seq<char>, next: DagState) -> bool {
    &&& s.in_flight.contains(t)
    &&& s.completes(t, next) || next == s.fails(t) || next == s.cancels(t)
}

/// Whether a run goes on from one state to the next: a node claims a target, or a build comes to
/// an end.
pub open spec fn goes_on(s: DagState, next: DagState) -> bool {
    claims(s, next) || exists|t: Seq<char>| ends(s, t, next)
}

/// Whether the states are those of a run, in the order in which they came.
pub open spec fn is_run(run: Seq<DagState>) -> bool {
    &&& run.len() > 0
    &&& laws::sound(run[0])
    &&& forall|i: int| 0 <= i < run.len() - 1 ==> goes_on(#[trigger] run[i], run[i + 1])
}

/// Whether a node has claimed `t`: it is being built, or has come to an end.
pub open spec fn claimed(s: DagState, t: Seq<char>) -> bool {
    s.in_flight.contains(t) || s.ended(t)
}

/// What a step of a run keeps.
proof fn lemma_step(s: DagState, next: DagState)
    requires
        laws::sound(s),
        goes_on(s, next),
    ensures
        laws::sound(next),
        next.all == s.all,
        next.deps == s.deps,
        s.completed.subset_of(next.completed),
        s.failed.subset_of(next.failed),
        s.cancelled.subset_of(next.cancelled),
        forall|t: Seq<char>| #[trigger] claimed(s, t) ==> claimed(next, t),
{
    if claims(s, next) {
        let node = choose|node: Seq<Seq<char>>|
            #[trigger] s.first_fit(node) < s.ready.len() && next == s.claim_at(s.first_fit(node));
        laws::law_claim_keeps_sound(s, node);
    } else {
        let t = choose|t: Seq<char>| ends(s, t, next);
        if s.completes(t, next) {
            laws::law_completion_keeps_sound(s, t, next);
        } else if next == s.fails(t) {
            laws::law_failure_keeps_sound(s, t);
        } else {
            laws::law_cancellation_keeps_sound(s, t);
        }
    }
}

/// The queue is sound in every state of a run, and has the same targets and dependencies.
pub proof fn law_runs_stay_sound(run: Seq<DagState>, i: int)
    requires
        is_run(run),
        0 <= i < run.len(),
    ensures
        laws::sound(run[i]),
        run[i].all == run[0].all,
        run[i].deps == run[0].deps,
    decreases i,
{
    if i > 0 {
        law_runs_stay_sound(run, i - 1);
        assert(goes_on(run[i - 1], run[i - 1 + 1]));
        lemma_step(run[i - 1], run[i]);
    }
}

/// What has come to an end stays so, in the same way, to the end of the run.
pub proof fn law_ends_are_final(run: Seq<DagState>, i: int, j: int, t: Seq<char>)
    requires
        is_run(run),
        0 <= i <= j < run.len(),
    ensures
        run[i].completed.contains(t) ==> run[j].completed.contains(t),
        run[i].failed.contains(t) ==> run[j].failed.contains(t),
        run[i].cancelled.contains(t) ==> run[j].cancelled.contains(t),
        claimed(run[i], t) ==> claimed(run[j], t),
    decreases j - i,
{
    if i < j {
        law_ends_are_final(run, i, j - 1, t);
        law_runs_stay_sound(run, j - 1);
        assert(goes_on(run[j - 1], run[j - 1 + 1]));
        lemma_step(run[j - 1], run[j]);
    }
}

/// Every target is claimed, and so built, at most once in a run: what has been claimed is never
/// ready again.
pub proof fn law_claimed_once(run: Seq<DagState>, i: int, j: int, t: Seq<char>)
    requires
        is_run(run),
        0 <= i <= j < run.len(),
        claimed(run[i], t),
    ensures
        !run[j].ready.contains(t),
{
    law_ends_are_final(run, i, j, t);
    law_runs_stay_sound(run, j);
}

/// What a target depends on has been built when the target is claimed, and stays built.
pub proof fn law_dependencies_come_first(
    run: Seq<DagState>,
    i: int,
    t: Seq<char>,
    d: Seq<char>,
)
    requires
        is_run(run),
        0 <= i < run.len(),
        claimed(run[i], t),
        run[0].deps[t].contains(d),
    ensures
        run[i].completed.contains(d),
{
    law_runs_stay_sound(run, i);
    assert(laws::freed(run[i], t));
    assert(run[i].all.contains(t) && run[i].unblocked(t));
}

/// The targets that no node has claimed.
pub open spec fn unclaimed(s: DagState) -> Set<Seq<char>> {
    s.all.filter(|t: Seq<char>| !claimed(s, t))
}

/// How many steps can still follow: two for each target that has not been claimed, and one for
/// each that is being built.
pub open spec fn steps_left(s: DagState) -> nat {
    2 * unclaimed(s).len() + s.in_flight.len()
}

proof fn lemma_step_counts(s: DagState, next: DagState)
    requires
        laws::sound(s),
        goes_on(s, next),
    ensures
        steps_left(next) == steps_left(s) - 1,
{
    lemma_step(s, next);
    vstd::set_lib::lemma_set_subset_finite(s.all, unclaimed(s));
    if claims(s, next) {
        let node = choose|node: Seq<Seq<char>>|
            #[trigger] s.first_fit(node) < s.ready.len() && next == s.claim_at(s.first_fit(node));
        laws::law_claims_in_order(s, node);
        let t = s.ready[s.first_fit(node)];
        assert(unclaimed(next) =~= unclaimed(s).remove(t));
        assert(unclaimed(s).contains(t));
    } else {
        let t = choose|t: Seq<char>| ends(s, t, next);
        assert(s.ready.contains(t) || s.in_flight.contains(t));
        assert(unclaimed(next) =~= unclaimed(s));
        assert(next.in_flight == s.in_flight.remove(t));
    }
}

/// Every run comes to an end: it has at most two steps for each target, in whatever order the
/// nodes claim and the builds end.
pub proof fn law_runs_come_to_an_end(run: Seq<DagState>)
    requires
        is_run(run),
        run[0].in_flight == Set::<Seq<char>>::empty(),
    ensures
        run.len() - 1 <= 2 * run[0].all.len(),
{
    lemma_run_counts(run, run.len() - 1);
    vstd::set_lib::lemma_len_subset(unclaimed(run[0]), run[0].all);
}

proof fn lemma_run_counts(run: Seq<DagState>, i: int)
    requires
        is_run(run),
        0 <= i < run.len(),
    ensures
        steps_left(run[i]) == steps_left(run[0]) - i,
    decreases i,
{
    if i > 0 {
        lemma_run_counts(run, i - 1);
        law_runs_stay_sound(run, i - 1);
        assert(goes_on(run[i - 1], run[i - 1 + 1]));
        lemma_step_counts(run[i - 1], run[i]);
    }
}

/// What a node cannot claim it cannot build.
proof fn lemma_all_passed_over(s: DagState, node: Seq<Seq<char>>, j: int)
    requires
        s.first_fit(node) >= s.ready.len(),
        0 <= j < s.ready.len(),
    ensures
        !s.fits(node, s.ready[j]),
{
    laws::lemma_first_fit_meaning(s, node, s.ready);
}

/// Where nothing is being built and no node can claim anything, nothing that is due is left: an
/// unfinished target whose dependencies have all been built is one that no node can build.
pub proof fn law_nothing_due_is_left(run: Seq<DagState>, t: Seq<char>)
    requires
        is_run(run),
        run.last().nodes.len() > 0,
        run.last().in_flight == Set::<Seq<char>>::empty(),
        forall|i: int|
            0 <= i < run.last().nodes.len() ==> #[trigger] run.last().first_fit(
                run.last().nodes[i],
            ) >= run.last().ready.len(),
        run.last().unfinished().contains(t),
        run.last().deps[t].subset_of(run.last().completed),
    ensures
        !run.last().claimable(t),
{
    let s = run.last();
    law_runs_stay_sound(run, run.len() - 1);
    assert(s.unblocked(t));
    assert(laws::freed(s, t));
    assert(s.ready.contains(t));
    if s.claimable(t) {
        let i: int = choose|i: int| 0 <= i < s.nodes.len() && s.fits(#[trigger] s.nodes[i], t);
        let j: int = choose|j: int| 0 <= j < s.ready.len() && s.ready[j] == t;
        lemma_all_passed_over(s, s.nodes[i], j);
    }
}

/// Only what is being built is built at the next step.
proof fn lemma_built_was_in_flight(s: DagState, next: DagState, t: Seq<char>)
    requires
        goes_on(s, next),
        next.completed.contains(t),
        !s.completed.contains(t),
    ensures
        s.in_flight.contains(t),
{
    if !claims(s, next) {
        let x = choose|x: Seq<char>| ends(s, x, next);
        assert(ends(s, x, next));
    }
}

/// Targets that depend on each other in a cycle are never built, nor claimed, nor even ready, in
/// whatever way the run goes on.
pub proof fn law_cycles_are_never_built(
    run: Seq<DagState>,
    cycle: Seq<Seq<char>>,
    i: int,
    k: int,
)
    requires
        is_run(run),
        run[0].is_cycle(cycle),
        forall|j: int| 0 <= j < cycle.len() ==> !run[0].completed.contains(#[trigger] cycle[j]),
        0 <= i < run.len(),
        0 <= k < cycle.len(),
    ensures
        !run[i].completed.contains(cycle[k]),
        !laws::freed(run[i], cycle[k]),
    decreases i, 1nat,
{
    law_runs_stay_sound(run, i);
    let next: int = if k + 1 < cycle.len() {
        k + 1
    } else {
        0
    };
    assert(names::set_for(run[0].deps, cycle[k]).contains(cycle[next])) by {
        if k + 1 < cycle.len() {
            assert(names::set_for(run[0].deps, cycle[k]).contains(cycle[k + 1]));
        } else {
            assert(cycle.last() == cycle[k]);
        }
    }
    lemma_cycle_not_built(run, cycle, i, k);
    lemma_cycle_not_built(run, cycle, i, next);
    if laws::freed(run[i], cycle[k]) {
        assert(run[i].unblocked(cycle[k]));
        assert(run[i].completed.contains(cycle[next]));
    }
}

proof fn lemma_cycle_not_built(run: Seq<DagState>, cycle: Seq<Seq<char>>, i: int, k: int)
    requires
        is_run(run),
        run[0].is_cycle(cycle),
        forall|j: int| 0 <= j < cycle.len() ==> !run[0].completed.contains(#[trigger] cycle[j]),
        0 <= i < run.len(),
        0 <= k < cycle.len(),
    ensures
        !run[i].completed.contains(cycle[k]),
    decreases i, 0nat,
{
    if i > 0 {
        law_cycles_are_never_built(run, cycle, i - 1, k);
        assert(goes_on(run[i - 1], run[i - 1 + 1]));
        if run[i].completed.contains(cycle[k]) {
            lemma_built_was_in_flight(run[i - 1], run[i], cycle[k]);
        }
    }
}

/// Two targets that depend on each other form a cycle, and so does any way of dependencies that
/// comes back to its start; a target that depends on nothing is in none.
pub proof fn law_cycles_come_back(s: DagState, a: Seq<char>, b: Seq<char>, cycle: Seq<Seq<char>>)
    ensures
        s.deps.contains_key(a) && s.deps.contains_key(b) && s.deps[a].contains(b)
            && s.deps[b].contains(a) ==> s.is_cycle(seq![a, b]),
        s.is_cycle(cycle) && cycle.contains(a) ==> s.deps.contains_key(a) && s.deps[a]
            != Set::<Seq<char>>::empty(),
{
    if s.deps.contains_key(a) && s.deps.contains_key(b) && s.deps[a].contains(b)
        && s.deps[b].contains(a) {
        let two = seq![a, b];
        assert forall|i: int| 0 <= i < two.len() - 1 implies names::set_for(
            s.deps,
            #[trigger] two[i],
        ).contains(two[i + 1]) by {}
    }
    if s.is_cycle(cycle) && cycle.contains(a) {
        let i: int = choose|i: int| 0 <= i < cycle.len() && cycle[i] == a;
        if i < cycle.len() - 1 {
            assert(names::set_for(s.deps, cycle[i]).contains(cycle[i + 1]));
        } else {
            assert(names::set_for(s.deps, cycle.last()).contains(cycle[0]));
        }
    }
}

}
