//! Searches along the dependencies: for cycles, and for the failures that block a target.
use super::{DagQueue, DagState};
use crate::names;
use crate::names::NameSet;
use crate::order;
use crate::text;
use crate::text::same_text;
use vstd::prelude::*;

verus! {

/// Whether each target of a list comes after the ones it depends on.
pub open spec fn in_build_order(s: DagState, list: Seq<Seq<char>>) -> bool {
    forall|i: int, d: Seq<char>|
        0 <= i < list.len() && #[trigger] names::set_for(s.deps, list[i]).contains(d)
            ==> list.take(i).contains(d)
}

/// Whether all lists are cycles of distinct targets.
pub open spec fn are_cycles(s: DagState, cycles: Seq<Seq<Seq<char>>>) -> bool {
    forall|i: int|
        0 <= i < cycles.len() ==> s.is_cycle(#[trigger] cycles[i]) && cycles[i].no_duplicates()
}

/// Whether a listed cycle is closed by the dependency of `t` on `d`.
pub open spec fn closes(cycles: Seq<Seq<Seq<char>>>, t: Seq<char>, d: Seq<char>) -> bool {
    exists|i: int| 0 <= i < cycles.len() && (#[trigger] cycles[i]).last() == t && cycles[i][0] == d
}

/// The queue without the dependencies that close the listed cycles.
pub open spec fn opened(s: DagState, cycles: Seq<Seq<Seq<char>>>) -> DagState {
    DagState {
        deps: Map::new(
            |t: Seq<char>| s.deps.contains_key(t),
            |t: Seq<char>| s.deps[t].filter(|d: Seq<char>| !closes(cycles, t, d)),
        ),
        ..s
    }
}

/// Whether each listed cycle is closed by a dependency of its own.
pub open spec fn closed_apart(cycles: Seq<Seq<Seq<char>>>) -> bool {
    forall|i: int, j: int|
        0 <= i < j < cycles.len() ==> (#[trigger] cycles[i]).last() != (
        #[trigger] cycles[j]).last() || cycles[i][0] != cycles[j][0]
}

/// With more cycles listed, what is in build order without the dependencies that close them
/// stays so.
proof fn lemma_more_opened(
    s: DagState,
    cycles: Seq<Seq<Seq<char>>>,
    more: Seq<Seq<Seq<char>>>,
    list: Seq<Seq<char>>,
)
    requires
        cycles.is_prefix_of(more),
        in_build_order(opened(s, cycles), list),
    ensures
        in_build_order(opened(s, more), list),
        forall|t: Seq<char>, d: Seq<char>| #[trigger] closes(cycles, t, d) ==> closes(more, t, d),
{
    assert forall|t: Seq<char>, d: Seq<char>| #[trigger] closes(cycles, t, d) implies closes(
        more,
        t,
        d,
    ) by {
        let i: int = choose|i: int|
            0 <= i < cycles.len() && (#[trigger] cycles[i]).last() == t && cycles[i][0] == d;
        assert(more[i] == cycles[i]);
    }
    assert forall|i: int, d: Seq<char>|
        0 <= i < list.len() && #[trigger] names::set_for(opened(s, more).deps, list[i]).contains(
            d,
        ) implies list.take(i).contains(d) by {
        assert(names::set_for(opened(s, cycles).deps, list[i]).contains(d));
    }
}

/// Where no cycle is listed every cycle stays.
proof fn lemma_nothing_opened(s: DagState, cycles: Seq<Seq<Seq<char>>>, cycle: Seq<Seq<char>>)
    requires
        cycles.len() == 0,
        s.is_cycle(cycle),
    ensures
        opened(s, cycles).is_cycle(cycle),
{
    let rest = opened(s, cycles);
    assert forall|t: Seq<char>, d: Seq<char>| names::set_for(s.deps, t).contains(d) implies
        #[trigger] names::set_for(rest.deps, t).contains(d) by {
        assert(!closes(cycles, t, d));
    }
    assert forall|i: int| 0 <= i < cycle.len() - 1 implies names::set_for(
        rest.deps,
        #[trigger] cycle[i],
    ).contains(cycle[i + 1]) by {
        assert(names::set_for(s.deps, cycle[i]).contains(cycle[i + 1]));
    }
}

proof fn lemma_take_grows(list: Seq<Seq<char>>, i: int, x: Seq<char>)
    requires
        0 <= i < list.len(),
        list.take(i).contains(x),
    ensures
        list.take(i + 1).contains(x),
{
    let m: int = choose|m: int| 0 <= m < i && list.take(i)[m] == x;
    assert(list.take(i + 1)[m] == x);
}

/// Along a chain of dependencies that starts in a list in build order, the places go down.
proof fn lemma_chain_descends(s: DagState, list: Seq<Seq<char>>, path: Seq<Seq<char>>, at: int)
    requires
        in_build_order(s, list),
        s.chain(path),
        path.len() > 0,
        0 <= at < list.len(),
        path[0] == list[at],
    ensures
        exists|k: int| 0 <= k <= at && list[k] == #[trigger] path.last() && (path.len() > 1 ==> k < at),
    decreases path.len(),
{
    if path.len() > 1 {
        assert(names::set_for(s.deps, path[0]).contains(path[1]));
        assert(list.take(at).contains(path[1]));
        let k: int = choose|k: int| 0 <= k < at && list.take(at)[k] == path[1];
        assert(list[k] == path[1]);
        let rest = path.skip(1);
        assert forall|i: int| 0 <= i < rest.len() - 1 implies names::set_for(
            s.deps,
            #[trigger] rest[i],
        ).contains(rest[i + 1]) by {
            assert(rest[i] == path[i + 1]);
            assert(rest[i + 1] == path[i + 1 + 1]);
        }
        lemma_chain_descends(s, list, rest, k);
        assert(rest.last() == path.last());
    } else {
        assert(path.last() == list[at]);
    }
}

/// Where all targets stand in build order there is no cycle.
pub proof fn lemma_build_order_acyclic(s: DagState, list: Seq<Seq<char>>)
    requires
        s.deps.dom() == list.to_set(),
        in_build_order(s, list),
    ensures
        s.acyclic(),
{
    assert forall|cycle: Seq<Seq<char>>| !(#[trigger] s.is_cycle(cycle)) by {
        if s.is_cycle(cycle) {
            let first = cycle[0];
            if cycle.len() > 1 {
                assert(names::set_for(s.deps, cycle[0]).contains(cycle[1]));
            }
            assert(s.deps.dom().contains(first));
            assert(list.to_set().contains(first));
            let at: int = choose|i: int| 0 <= i < list.len() && list[i] == first;
            lemma_no_cycle_from(s, list, cycle, at);
        }
    }
}

/// No cycle starts in a list in build order.
proof fn lemma_no_cycle_from(s: DagState, list: Seq<Seq<char>>, cycle: Seq<Seq<char>>, at: int)
    requires
        in_build_order(s, list),
        0 <= at < list.len(),
        list[at] == cycle[0],
    ensures
        !s.is_cycle(cycle),
    decreases at,
{
    if s.is_cycle(cycle) {
        lemma_chain_descends(s, list, cycle, at);
        let k: int = choose|k: int|
            0 <= k <= at && list[k] == cycle.last() && (cycle.len() > 1 ==> k < at);
        assert(names::set_for(s.deps, list[k]).contains(cycle[0]));
        assert(list.take(k).contains(cycle[0]));
        let m: int = choose|m: int| 0 <= m < k && list.take(k)[m] == cycle[0];
        assert(list[m] == cycle[0]);
        lemma_no_cycle_from(s, list, cycle, m);
    }
}

/// The part of a list from the first place of `name` on.
fn tail_from(list: &Vec<String>, name: &str) -> (r: Vec<String>)
    ensures
        text::texts(list@).contains(name@) ==> exists|at: int|
            0 <= at < list@.len() && #[trigger] text::texts(list@)[at] == name@ && text::texts(r@)
                == text::texts(list@).skip(at),
{
    let ghost all = text::texts(list@);
    let mut out: Vec<String> = Vec::new();
    let mut i: usize = 0;
    let ghost mut at: int = -1;
    while i < list.len()
        invariant
            i <= list@.len(),
            all == text::texts(list@),
            at < 0 ==> out@.len() == 0 && forall|j: int| 0 <= j < i ==> #[trigger] all[j] != name@,
            at >= 0 ==> at < i && out@.len() > 0 && all[at] == name@ && text::texts(out@)
                == all.subrange(at, i as int),
        decreases list@.len() - i,
    {
        assert(all[i as int] == list@[i as int]@);
        if out.len() > 0 || same_text(list[i].as_str(), name) {
            proof {
                if at < 0 {
                    at = i as int;
                    assert(text::texts(out@) =~= all.subrange(at, i as int));
                }
            }
            text::add_text(&mut out, list[i].clone());
            assert(text::texts(out@) =~= all.subrange(at, i + 1));
        }
        i += 1;
    }
    proof {
        if at >= 0 {
            assert(all.subrange(at, i as int) =~= all.skip(at));
        }
    }
    out
}

impl DagQueue {
    /// Looks for cycles among the targets that `node` leads to and that no one has visited.
    /// `stack` is the chain of targets that led here; `finished` holds the targets whose
    /// dependencies have all been followed.
    fn dfs_cycle(
        &self,
        node: &str,
        visited: &mut NameSet,
        on_stack: &mut NameSet,
        stack: &mut Vec<String>,
        cycles: &mut Vec<Vec<String>>,
        Ghost(finished): Ghost<Seq<Seq<char>>>,
    ) -> (r: Ghost<Seq<Seq<char>>>)
        requires
            self.wf(),
            old(visited).wf(),
            old(on_stack).wf(),
            old(visited)@.subset_of(self@.all),
            self@.all.contains(node@),
            !old(visited)@.contains(node@),
            text::texts(old(stack)@).to_set() == old(on_stack)@,
            text::texts(old(stack)@).no_duplicates(),
            self@.chain(text::texts(old(stack)@).push(node@)),
            forall|x: Seq<char>|
                #[trigger] old(visited)@.contains(x) <==> old(on_stack)@.contains(x)
                    || finished.contains(x),
            are_cycles(self@, text::text_lists(old(cycles)@)),
            closed_apart(text::text_lists(old(cycles)@)),
            forall|k: int|
                0 <= k < old(cycles)@.len() ==> old(visited)@.contains(
                    (#[trigger] text::text_lists(old(cycles)@)[k]).last(),
                ),
            in_build_order(opened(self@, text::text_lists(old(cycles)@)), finished),
        ensures
            final(visited).wf(),
            final(on_stack).wf(),
            final(visited)@.subset_of(self@.all),
            old(visited)@.subset_of(final(visited)@),
            final(visited)@.contains(node@),
            final(on_stack)@ == old(on_stack)@,
            text::texts(final(stack)@) == text::texts(old(stack)@),
            forall|x: Seq<char>|
                #[trigger] final(visited)@.contains(x) <==> final(on_stack)@.contains(x)
                    || r@.contains(x),
            forall|x: Seq<char>| finished.contains(x) ==> #[trigger] r@.contains(x),
            are_cycles(self@, text::text_lists(final(cycles)@)),
            closed_apart(text::text_lists(final(cycles)@)),
            text::text_lists(old(cycles)@).is_prefix_of(text::text_lists(final(cycles)@)),
            forall|k: int|
                old(cycles)@.len() <= k < final(cycles)@.len() ==> !old(visited)@.contains(
                    (#[trigger] text::text_lists(final(cycles)@)[k]).last(),
                ),
            forall|k: int|
                0 <= k < final(cycles)@.len() ==> final(visited)@.contains(
                    (#[trigger] text::text_lists(final(cycles)@)[k]).last(),
                ),
            in_build_order(opened(self@, text::text_lists(final(cycles)@)), r@),
        decreases self@.all.difference(old(visited)@).len(),
    {
        let ghost s = self@;
        let ghost visited0 = visited@;
        let ghost on_stack0 = on_stack@;
        let ghost stack0 = text::texts(stack@);
        proof {
            self.lemma_valid();
            assert(!on_stack0.contains(node@));
            names::lemma_push_set(stack0, node@);
        }
        let _ = visited.insert(node.to_string());
        let _ = on_stack.insert(node.to_string());
        text::add_text(stack, node.to_string());
        let ghost chain = stack0.push(node@);
        let ghost mut fin: Seq<Seq<char>> = finished;
        let ghost first = text::text_lists(cycles@);
        assert(first.is_prefix_of(first));
        if let Some(set) = self.deps.get(node) {
            let deps = set.as_list();
            let ghost list = text::texts(deps@);
            proof {
                assert(s.deps[node@] == set@);
                assert forall|k: int| 0 <= k < cycles@.len() implies (
                #[trigger] text::text_lists(cycles@)[k]).last() != node@ by {
                    assert(visited0.contains(first[k].last()));
                }
            }
            let mut i: usize = 0;
            while i < deps.len()
                invariant
                    self.wf(),
                    s == self@,
                    s.valid(),
                    i <= deps@.len(),
                    list == text::texts(deps@),
                    s.all.contains(node@),
                    s.deps.contains_key(node@),
                    list.to_set() == s.deps[node@],
                    visited.wf(),
                    on_stack.wf(),
                    visited@.subset_of(s.all),
                    visited0 == old(visited)@,
                    visited0.subset_of(visited@),
                    !visited0.contains(node@),
                    visited@.contains(node@),
                    on_stack@ == on_stack0.insert(node@),
                    chain == stack0.push(node@),
                    text::texts(stack@) == chain,
                    chain.to_set() == on_stack@,
                    chain.no_duplicates(),
                    s.chain(chain),
                    forall|x: Seq<char>|
                        #[trigger] visited@.contains(x) <==> on_stack@.contains(x) || fin.contains(
                            x,
                        ),
                    forall|x: Seq<char>| finished.contains(x) ==> #[trigger] fin.contains(x),
                    list.no_duplicates(),
                    first == text::text_lists(old(cycles)@),
                    are_cycles(s, text::text_lists(cycles@)),
                    closed_apart(text::text_lists(cycles@)),
                    first.is_prefix_of(text::text_lists(cycles@)),
                    forall|k: int|
                        first.len() <= k < cycles@.len() ==> !visited0.contains(
                            (#[trigger] text::text_lists(cycles@)[k]).last(),
                        ),
                    forall|k: int|
                        0 <= k < cycles@.len() ==> visited@.contains(
                            (#[trigger] text::text_lists(cycles@)[k]).last(),
                        ),
                    forall|k: int|
                        0 <= k < cycles@.len() && (#[trigger] text::text_lists(cycles@)[k]).last()
                            == node@ ==> list.take(i as int).contains(
                            text::text_lists(cycles@)[k][0],
                        ),
                    in_build_order(opened(s, text::text_lists(cycles@)), fin),
                    forall|j: int|
                        0 <= j < i ==> fin.contains(#[trigger] list[j]) || closes(
                            text::text_lists(cycles@),
                            node@,
                            list[j],
                        ),
                decreases deps@.len() - i,
            {
                let ghost d = list[i as int];
                proof {
                    assert(d == deps@[i as int]@);
                    assert(list.to_set().contains(d));
                    assert(s.deps[node@].contains(d));
                }
                let dep = deps[i].as_str();
                if !visited.contains(dep) {
                    proof {
                        names::lemma_less_left(s.all, visited0, visited@, node@);
                        assert forall|j: int| 0 <= j < chain.push(d).len() - 1 implies names::set_for(
                            s.deps,
                            #[trigger] chain.push(d)[j],
                        ).contains(chain.push(d)[j + 1]) by {
                            if j + 1 < chain.len() {
                                assert(chain.push(d)[j] == chain[j]);
                            }
                        }
                    }
                    let ghost fin0 = fin;
                    let ghost cycles0 = text::text_lists(cycles@);
                    let ghost seen = visited@;
                    let Ghost(next) = self.dfs_cycle(
                        dep,
                        visited,
                        on_stack,
                        stack,
                        cycles,
                        Ghost(fin),
                    );
                    proof {
                        fin = next;
                        assert(visited@.contains(d));
                        assert(!on_stack@.contains(d));
                        assert(fin.contains(d));
                        assert forall|x: Seq<char>| finished.contains(x) implies #[trigger] fin.contains(x) by {
                            assert(fin0.contains(x));
                        }
                        let now = text::text_lists(cycles@);
                        lemma_more_opened(s, cycles0, now, Seq::empty());
                        assert forall|j: int| 0 <= j < i + 1 implies fin.contains(
                            #[trigger] list[j],
                        ) || closes(now, node@, list[j]) by {
                            if j < i {
                                if closes(cycles0, node@, list[j]) {
                                    assert(closes(now, node@, list[j]));
                                } else {
                                    assert(fin0.contains(list[j]));
                                }
                            }
                        }
                        assert forall|k: int| first.len() <= k < cycles@.len() implies !visited0.contains(
                            (#[trigger] now[k]).last(),
                        ) by {
                            if k < cycles0.len() {
                                assert(now[k] == cycles0[k]);
                            }
                        }
                        assert forall|k: int| 0 <= k < cycles@.len() && (#[trigger] now[k]).last()
                            == node@ implies list.take(i + 1).contains(now[k][0]) by {
                            if k < cycles0.len() {
                                assert(now[k] == cycles0[k]);
                                lemma_take_grows(list, i as int, now[k][0]);
                            } else {
                                assert(seen.contains(node@));
                            }
                        }
                    }
                } else if on_stack.contains(dep) {
                    let cycle = tail_from(stack, dep);
                    let ghost before = cycles@;
                    let ghost cycles0 = text::text_lists(before);
                    cycles.push(cycle);
                    proof {
                        assert(chain.to_set().contains(d));
                        let at: int = choose|at: int|
                            0 <= at < chain.len() && #[trigger] chain[at] == d && text::texts(cycle@)
                                == chain.skip(at);
                        let c = chain.skip(at);
                        assert forall|j: int| 0 <= j < c.len() - 1 implies names::set_for(
                            s.deps,
                            #[trigger] c[j],
                        ).contains(c[j + 1]) by {
                            assert(c[j] == chain[at + j]);
                            assert(c[j + 1] == chain[at + j + 1]);
                        }
                        assert(c.last() == node@);
                        assert(c[0] == d);
                        assert(s.is_cycle(c));
                        assert forall|j: int| 0 <= j < cycles@.len() implies s.is_cycle(
                            #[trigger] text::text_lists(cycles@)[j],
                        ) && text::text_lists(cycles@)[j].no_duplicates() by {
                            if j < before.len() {
                                assert(text::text_lists(cycles@)[j] == text::text_lists(before)[j]);
                            } else {
                                assert(text::text_lists(cycles@)[j] == c);
                            }
                        }
                        let now = text::text_lists(cycles@);
                        assert(now =~= cycles0.push(c));
                        lemma_more_opened(s, cycles0, now, fin);
                        assert forall|k: int| 0 <= k < cycles0.len() implies (
                        #[trigger] cycles0[k]).last() != node@ || cycles0[k][0] != d by {
                            if cycles0[k].last() == node@ && cycles0[k][0] == d {
                                let m: int = choose|m: int|
                                    0 <= m < i && list.take(i as int)[m] == d;
                                assert(list[m] == list[i as int]);
                            }
                        }
                        assert(now[cycles0.len() as int] == c);
                        assert(closes(now, node@, d));
                        assert forall|k: int| 0 <= k < cycles@.len() && (#[trigger] now[k]).last()
                            == node@ implies list.take(i + 1).contains(now[k][0]) by {
                            if k < cycles0.len() {
                                assert(now[k] == cycles0[k]);
                                lemma_take_grows(list, i as int, now[k][0]);
                            } else {
                                assert(list.take(i + 1)[i as int] == d);
                            }
                        }
                    }
                } else {
                    proof {
                        assert(fin.contains(d));
                        let now = text::text_lists(cycles@);
                        assert forall|k: int| 0 <= k < cycles@.len() && (#[trigger] now[k]).last()
                            == node@ implies list.take(i + 1).contains(now[k][0]) by {
                            lemma_take_grows(list, i as int, now[k][0]);
                        }
                    }
                }
                i += 1;
            }
            proof {
                let now = text::text_lists(cycles@);
                assert forall|d: Seq<char>| s.deps[node@].contains(d) implies fin.contains(d) || closes(
                    now,
                    node@,
                    d,
                ) by {
                    assert(list.to_set().contains(d));
                    let j: int = choose|j: int| 0 <= j < list.len() && list[j] == d;
                    assert(fin.contains(list[j]) || closes(now, node@, list[j]));
                }
            }
        }
        let ghost full = stack@;
        assert(text::texts(full) == chain);
        assert(full.len() == chain.len());
        let _ = stack.pop();
        on_stack.remove(node);
        proof {
            assert(text::texts(stack@) =~= text::texts(full).drop_last());
            assert(text::texts(stack@) =~= stack0);
            assert(on_stack@ =~= on_stack0);
            let last = fin.push(node@);
            assert forall|x: Seq<char>| #[trigger]
                visited@.contains(x) <==> on_stack@.contains(x) || last.contains(x) by {
                names::lemma_push_contains(fin, node@, x);
            }
            assert forall|x: Seq<char>| finished.contains(x) implies #[trigger] last.contains(x) by {
                names::lemma_push_contains(fin, node@, x);
            }
            let rest = opened(s, text::text_lists(cycles@));
            assert forall|i: int, d: Seq<char>|
                0 <= i < last.len() && #[trigger] names::set_for(rest.deps, last[i]).contains(
                    d,
                ) implies last.take(i).contains(d) by {
                if i < fin.len() {
                    assert(last[i] == fin[i]);
                    assert(last.take(i) =~= fin.take(i));
                } else {
                    assert(last.take(i) =~= fin);
                }
            }
            fin = last;
        }
        Ghost(fin)
    }

    /// The cycles among the dependencies, each as the targets along it; none where there are no
    /// cycles. Not every cycle is listed, but enough of them are: without the dependency that
    /// closes each listed one, from its last target to its first, no cycle is left.
    pub fn detect_cycles(&self) -> (r: Vec<Vec<String>>)
        requires
            self.wf(),
        ensures
            are_cycles(self@, text::text_lists(r@)),
            closed_apart(text::text_lists(r@)),
            opened(self@, text::text_lists(r@)).acyclic(),
            r@.len() == 0 <==> self@.acyclic(),
    {
        let mut visited = NameSet::new();
        let mut on_stack = NameSet::new();
        let mut stack: Vec<String> = Vec::new();
        let mut cycles: Vec<Vec<String>> = Vec::new();
        let ghost mut fin: Seq<Seq<char>> = Seq::empty();
        let ghost s = self@;
        let targets = self.all.as_list();
        let ghost list = text::texts(targets@);
        proof {
            self.lemma_valid();
            assert(text::texts(stack@) =~= Seq::empty());
            assert(text::texts(stack@).to_set() =~= Set::empty());
        }
        let mut i: usize = 0;
        while i < targets.len()
            invariant
                self.wf(),
                s == self@,
                s.valid(),
                i <= targets@.len(),
                list == text::texts(targets@),
                list.to_set() == s.all,
                visited.wf(),
                on_stack.wf(),
                visited@.subset_of(s.all),
                on_stack@ == Set::<Seq<char>>::empty(),
                text::texts(stack@) == Seq::<Seq<char>>::empty(),
                text::texts(stack@).to_set() == on_stack@,
                forall|x: Seq<char>| #[trigger] visited@.contains(x) <==> on_stack@.contains(x) || fin.contains(x),
                forall|j: int| 0 <= j < i ==> visited@.contains(#[trigger] list[j]),
                are_cycles(s, text::text_lists(cycles@)),
                closed_apart(text::text_lists(cycles@)),
                forall|k: int|
                    0 <= k < cycles@.len() ==> visited@.contains(
                        (#[trigger] text::text_lists(cycles@)[k]).last(),
                    ),
                in_build_order(opened(s, text::text_lists(cycles@)), fin),
            decreases targets@.len() - i,
        {
            proof {
                assert(list[i as int] == targets@[i as int]@);
                assert(list.to_set().contains(list[i as int]));
            }
            if !visited.contains(targets[i].as_str()) {
                let ghost seen = visited@;
                let Ghost(next) = self.dfs_cycle(
                    targets[i].as_str(),
                    &mut visited,
                    &mut on_stack,
                    &mut stack,
                    &mut cycles,
                    Ghost(fin),
                );
                proof {
                    fin = next;
                    assert forall|j: int| 0 <= j < i + 1 implies visited@.contains(
                        #[trigger] list[j],
                    ) by {
                        if j < i {
                            assert(seen.contains(list[j]));
                        }
                    }
                }
            }
            i += 1;
        }
        proof {
            let rest = opened(s, text::text_lists(cycles@));
            assert(rest.deps.dom() =~= s.deps.dom());
            assert forall|x: Seq<char>| fin.to_set().contains(x) == s.deps.dom().contains(x) by {
                if s.all.contains(x) {
                    assert(list.to_set().contains(x));
                    let j: int = choose|j: int| 0 <= j < list.len() && list[j] == x;
                    assert(visited@.contains(list[j]));
                }
                if fin.contains(x) {
                    assert(visited@.contains(x));
                }
            }
            assert(fin.to_set() =~= rest.deps.dom());
            lemma_build_order_acyclic(rest, fin);
            if cycles@.len() == 0 {
                assert forall|cycle: Seq<Seq<char>>| !(#[trigger] s.is_cycle(cycle)) by {
                    if s.is_cycle(cycle) {
                        lemma_nothing_opened(s, text::text_lists(cycles@), cycle);
                    }
                }
            } else {
                assert(s.is_cycle(text::text_lists(cycles@)[0]));
            }
        }
        cycles
    }
}

/// Whether `t` waits for `d`, directly or through dependencies that are still waiting.
pub open spec fn waits_for(s: DagState, t: Seq<char>, d: Seq<char>) -> bool {
    exists|path: Seq<Seq<char>>| #[trigger] s.waits_along(t, path) && path.last() == d
}

/// One more dependency at the end of what `t` waits for.
proof fn lemma_waits_further(s: DagState, t: Seq<char>, x: Seq<char>, d: Seq<char>)
    requires
        x == t || (waits_for(s, t, x) && s.open(x)),
        names::set_for(s.deps, x).contains(d),
    ensures
        waits_for(s, t, d),
{
    if x == t {
        let path = seq![t, d];
        assert(path[0] == t && path[1] == d);
        assert(s.waits_along(t, path));
        assert(path.last() == d);
    } else {
        let path = choose|path: Seq<Seq<char>>| #[trigger]
            s.waits_along(t, path) && path.last() == x;
        let longer = path.push(d);
        assert forall|i: int| 0 <= i < longer.len() - 1 implies names::set_for(
            s.deps,
            #[trigger] longer[i],
        ).contains(longer[i + 1]) by {
            assert(longer[i] == path[i]);
            if i + 1 < path.len() {
                assert(longer[i + 1] == path[i + 1]);
            }
        }
        assert forall|i: int| 0 < i < longer.len() - 1 implies s.open(#[trigger] longer[i]) by {
            assert(longer[i] == path[i]);
        }
        assert(s.waits_along(t, longer));
        assert(longer.last() == d);
    }
}

/// A set that holds what `t` depends on, and what every waiting target in it depends on, holds
/// all that `t` waits for.
proof fn lemma_closed_holds(
    s: DagState,
    t: Seq<char>,
    seen: Set<Seq<char>>,
    path: Seq<Seq<char>>,
    i: int,
)
    requires
        forall|x: Seq<char>|
            x == t || (seen.contains(x) && s.open(x)) ==> (#[trigger] names::set_for(
                s.deps,
                x,
            )).subset_of(seen),
        s.waits_along(t, path),
        1 <= i < path.len(),
    ensures
        seen.contains(path[i]),
    decreases i,
{
    let before = path[i - 1];
    if i > 1 {
        lemma_closed_holds(s, t, seen, path, i - 1);
        assert(s.open(path[i - 1]));
    }
    assert(names::set_for(s.deps, path[i - 1]).contains(path[i - 1 + 1]));
    assert(names::set_for(s.deps, before).subset_of(seen));
}

impl DagQueue {
    /// The dependencies of a target whose build failed, by name: the direct ones, and those
    /// behind dependencies that are still waiting. They tell "blocked by a failure" from "never
    /// started".
    pub fn failed_dependencies(&self, target: &str) -> (r: Vec<String>)
        requires
            self.wf(),
        ensures
            text::texts(r@) == order::in_order(self@.blockers(target@)),
            order::ascending(text::texts(r@)),
            forall|d: Seq<char>|
                #[trigger] text::texts(r@).contains(d) <==> self@.blocked_by(target@, d),
    {
        let ghost s = self@;
        let ghost t = target@;
        let mut out = NameSet::new();
        let mut seen = NameSet::new();
        let mut stack: Vec<String> = Vec::new();
        text::add_text(&mut stack, target.to_string());
        proof {
            self.lemma_valid();
            assert(text::texts(stack@)[0] == t);
        }
        while stack.len() > 0
            invariant
                self.wf(),
                s == self@,
                s.valid(),
                out.wf(),
                seen.wf(),
                seen@.subset_of(s.all),
                forall|x: Seq<char>| #[trigger] seen@.contains(x) ==> waits_for(s, t, x),
                forall|x: Seq<char>|
                    #![trigger out@.contains(x)]
                    #![trigger seen@.contains(x)]
                    out@.contains(x) <==> seen@.contains(x) && s.failed.contains(x),
                forall|x: Seq<char>| #[trigger]
                    text::texts(stack@).contains(x) ==> x == t || (seen@.contains(x) && s.open(x)),
                forall|x: Seq<char>|
                    x == t || (seen@.contains(x) && s.open(x)) ==> text::texts(stack@).contains(x)
                        || (#[trigger] names::set_for(s.deps, x)).subset_of(seen@),
            decreases s.all.difference(seen@).len(), stack@.len(),
        {
            let ghost full = stack@;
            let ghost seen0 = seen@;
            if let Some(top) = stack.pop() {
                let ghost p = top@;
                proof {
                    assert(full == stack@.push(top));
                    text::lemma_texts_push(stack@, top);
                    assert forall|x: Seq<char>| #[trigger]
                        text::texts(full).contains(x) <==> text::texts(stack@).contains(x) || x
                            == p by {
                        names::lemma_push_contains(text::texts(stack@), p, x);
                    }
                    assert(text::texts(full).contains(p));
                    assert forall|x: Seq<char>| #[trigger]
                        text::texts(stack@).contains(x) implies x == t || (seen@.contains(x)
                        && s.open(x)) by {
                        assert(text::texts(full).contains(x));
                    }
                }
                let ghost n0 = stack@.len();
                let ghost mut grown: Option<Seq<char>> = None;
                if let Some(set) = self.deps.get(top.as_str()) {
                    let deps = set.as_list();
                    let ghost list = text::texts(deps@);
                    assert(s.deps[p] == set@);
                    let mut i: usize = 0;
                    while i < deps.len()
                        invariant
                            self.wf(),
                            s == self@,
                            s.valid(),
                            i <= deps@.len(),
                            list == text::texts(deps@),
                            s.deps.contains_key(p),
                            list.to_set() == s.deps[p],
                            p == t || (waits_for(s, t, p) && s.open(p)),
                            out.wf(),
                            seen.wf(),
                            seen@.subset_of(s.all),
                            seen0.subset_of(seen@),
                            match grown {
                                Some(x) => s.all.contains(x) && seen@.contains(x) && !seen0.contains(
                                    x,
                                ),
                                None => seen@ == seen0 && stack@.len() == n0,
                            },
                            forall|x: Seq<char>| #[trigger] seen@.contains(x) ==> waits_for(s, t, x),
                            forall|x: Seq<char>|
                                #![trigger out@.contains(x)]
                                #![trigger seen@.contains(x)]
                                out@.contains(x) <==> seen@.contains(x) && s.failed.contains(x),
                            forall|x: Seq<char>| #[trigger]
                                text::texts(stack@).contains(x) ==> x == t || (seen@.contains(x)
                                    && s.open(x)),
                            forall|x: Seq<char>|
                                x != p && (x == t || (seen@.contains(x) && s.open(x)))
                                    ==> text::texts(stack@).contains(x) || (
                                #[trigger] names::set_for(s.deps, x)).subset_of(seen@),
                            forall|j: int| 0 <= j < i ==> seen@.contains(#[trigger] list[j]),
                        decreases deps@.len() - i,
                    {
                        let ghost d = list[i as int];
                        let ghost stacked = stack@;
                        let ghost seen1 = seen@;
                        proof {
                            assert(d == deps@[i as int]@);
                            assert(list.to_set().contains(d));
                            assert(names::set_for(s.deps, p).contains(d));
                            lemma_waits_further(s, t, p, d);
                            assert(s.all.contains(p));
                            assert(s.deps[p].contains(d));
                        }
                        let dep = deps[i].as_str();
                        if seen.insert(deps[i].clone()) {
                            proof {
                                grown = Some(d);
                            }
                            if self.failed.contains(dep) {
                                let _ = out.insert(deps[i].clone());
                            } else if !self.completed.contains(dep) && !self.cancelled.contains(
                                dep,
                            ) {
                                text::add_text(&mut stack, deps[i].clone());
                            }
                        }
                        proof {
                            assert forall|x: Seq<char>| #[trigger]
                                text::texts(stack@).contains(x) <==> text::texts(stacked).contains(
                                    x,
                                ) || (x == d && !seen1.contains(d) && s.open(d)) by {
                                names::lemma_push_contains(text::texts(stacked), d, x);
                            }
                            assert forall|x: Seq<char>|
                                x != p && (x == t || (seen@.contains(x) && s.open(x))) implies text::texts(
                                stack@,
                            ).contains(x) || (#[trigger] names::set_for(s.deps, x)).subset_of(
                                seen@,
                            ) by {
                                if x == t || seen1.contains(x) {
                                    assert(text::texts(stacked).contains(x) || names::set_for(
                                        s.deps,
                                        x,
                                    ).subset_of(seen1));
                                }
                            }
                        }
                        i += 1;
                    }
                    proof {
                        assert forall|d: Seq<char>| s.deps[p].contains(d) implies seen@.contains(d) by {
                            assert(list.to_set().contains(d));
                            let j: int = choose|j: int| 0 <= j < list.len() && list[j] == d;
                            assert(seen@.contains(list[j]));
                        }
                    }
                }
                proof {
                    assert(names::set_for(s.deps, p).subset_of(seen@));
                    match grown {
                        Some(x) => names::lemma_less_left(s.all, seen0, seen@, x),
                        None => {},
                    }
                }
            }
        }
        proof {
            assert forall|d: Seq<char>| out@.contains(d) <==> s.blocked_by(t, d) by {
                if s.blocked_by(t, d) {
                    let path = choose|path: Seq<Seq<char>>| #[trigger]
                        s.waits_along(t, path) && path.last() == d;
                    assert(text::texts(stack@).len() == 0);
                    lemma_closed_holds(s, t, seen@, path, path.len() - 1);
                }
                if out@.contains(d) {
                    assert(seen@.contains(d));
                }
            }
            assert(out@ =~= s.blockers(t));
        }
        let r = out.into_list();
        proof {
            assert forall|d: Seq<char>| #[trigger]
                text::texts(r@).contains(d) <==> s.blocked_by(t, d) by {
                assert(text::texts(r@).to_set().contains(d) == out@.contains(d));
            }
        }
        r
    }
}

}
