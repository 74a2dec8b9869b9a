//! The queue of targets to build: in the order of their dependencies, each for a node that
//! can build its platform.
use crate::names;
use crate::names::{NameMap, NameSet};
use crate::order;
use crate::platform;
use crate::platform::platforms_compatible;
use crate::text;
use crate::text::{add_text, copy_texts, same_text};
use std::collections::VecDeque;
use vstd::prelude::*;

pub mod laws;
pub mod runs;
pub mod search;

verus! {

/// What a queue holds.
#[verifier::ext_equal]
pub struct DagState {
    /// The targets.
    pub all: Set<Seq<char>>,
    /// The targets that each target depends on.
    pub deps: Map<Seq<char>, Set<Seq<char>>>,
    /// The targets that can be claimed, in the order in which they came.
    pub ready: Seq<Seq<char>>,
    /// The targets that are being built.
    pub in_flight: Set<Seq<char>>,
    /// The targets that were built.
    pub completed: Set<Seq<char>>,
    /// The targets whose build failed.
    pub failed: Set<Seq<char>>,
    /// The targets whose build was cancelled.
    pub cancelled: Set<Seq<char>>,
    /// The platforms that targets ask for.
    pub platforms: Map<Seq<char>, Seq<Seq<char>>>,
    /// The platforms of each node; empty where the nodes are not known.
    pub nodes: Seq<Seq<Seq<char>>>,
}

impl DagState {
    /// The dependencies lead from targets to other targets, and what can be claimed is a target.
    pub open spec fn valid(self) -> bool {
        &&& self.all.finite()
        &&& self.deps.dom() == self.all
        &&& forall|t: Seq<char>, d: Seq<char>|
            self.all.contains(t) && #[trigger] self.deps[t].contains(d) ==> self.all.contains(d) && d
                != t
        &&& forall|i: int| 0 <= i < self.ready.len() ==> self.all.contains(#[trigger] self.ready[i])
        &&& self.in_flight.finite()
        &&& self.completed.finite()
        &&& self.failed.finite()
        &&& self.cancelled.finite()
    }

    /// The platforms that a target asks for.
    pub open spec fn wants(self, t: Seq<char>) -> Seq<Seq<char>> {
        names::list_for(self.platforms, t)
    }

    /// Whether a node with these platforms can build `t`.
    pub open spec fn fits(self, node: Seq<Seq<char>>, t: Seq<char>) -> bool {
        platform::compatible(node, self.wants(t))
    }

    /// Whether some node can build `t`, as far as the nodes are known.
    pub open spec fn claimable(self, t: Seq<char>) -> bool {
        self.nodes.len() == 0 || exists|i: int|
            0 <= i < self.nodes.len() && self.fits(#[trigger] self.nodes[i], t)
    }

    /// Whether `t` has come to an end: built, failed or cancelled.
    pub open spec fn ended(self, t: Seq<char>) -> bool {
        self.completed.contains(t) || self.failed.contains(t) || self.cancelled.contains(t)
    }

    /// The targets that have not come to an end.
    pub open spec fn unfinished(self) -> Set<Seq<char>> {
        self.all.filter(|t: Seq<char>| !self.ended(t))
    }

    /// The place of the first target that can be claimed by a node with these platforms; the
    /// length of the queue where there is none.
    pub open spec fn first_fit(self, node: Seq<Seq<char>>) -> int {
        first_fitting(self, node, self.ready)
    }

    /// The state after a node has claimed the target at the place `at`.
    pub open spec fn claim_at(self, at: int) -> DagState {
        DagState {
            ready: self.ready.remove(at),
            in_flight: self.in_flight.insert(self.ready[at]),
            ..self
        }
    }

    /// Whether every dependency of `t` has been built.
    pub open spec fn unblocked(self, t: Seq<char>) -> bool {
        names::set_for(self.deps, t).subset_of(self.completed)
    }

    /// The state once `t` has been built, before its dependents are looked at.
    pub open spec fn with_completed(self, t: Seq<char>) -> DagState {
        DagState {
            in_flight: self.in_flight.remove(t),
            completed: self.completed.insert(t),
            ..self
        }
    }

    /// Whether the completion of `t` in this state makes `d` ready.
    pub open spec fn releases(self, t: Seq<char>, d: Seq<char>) -> bool {
        &&& self.all.contains(d)
        &&& self.deps[d].contains(t)
        &&& !self.completed.contains(d)
        &&& !self.failed.contains(d)
        &&& !self.cancelled.contains(d)
        &&& !self.in_flight.contains(d)
        &&& !self.ready.contains(d)
        &&& self.unblocked(d)
    }

    /// The state after `t` has been built: the dependents that this unblocks have joined the
    /// queue, in the order of their names.
    pub open spec fn completes(self, t: Seq<char>, next: DagState) -> bool {
        let mid = self.with_completed(t);
        let added = next.ready.skip(self.ready.len() as int);
        &&& next == (DagState { ready: self.ready + added, ..mid })
        &&& order::ascending(added)
        &&& forall|d: Seq<char>| #[trigger] added.contains(d) == mid.releases(t, d)
    }

    /// The state after the build of `t` has failed.
    pub open spec fn fails(self, t: Seq<char>) -> DagState {
        DagState { in_flight: self.in_flight.remove(t), failed: self.failed.insert(t), ..self }
    }

    /// The state after the build of `t` has been cancelled.
    pub open spec fn cancels(self, t: Seq<char>) -> DagState {
        DagState {
            in_flight: self.in_flight.remove(t),
            cancelled: self.cancelled.insert(t),
            ..self
        }
    }

    /// Whether all targets have come to an end.
    pub open spec fn done(self) -> bool {
        forall|t: Seq<char>| #[trigger] self.all.contains(t) ==> self.ended(t)
    }

    /// Whether no further progress is possible.
    pub open spec fn stalled(self) -> bool {
        &&& !self.done()
        &&& self.in_flight == Set::<Seq<char>>::empty()
        &&& forall|i: int| 0 <= i < self.ready.len() ==> !self.claimable(#[trigger] self.ready[i])
    }

    /// Whether the search for a failed dependency goes on through `t`.
    pub open spec fn open(self, t: Seq<char>) -> bool {
        !self.ended(t)
    }

    /// Whether each target of `path` depends on the next one.
    pub open spec fn chain(self, path: Seq<Seq<char>>) -> bool {
        forall|i: int|
            0 <= i < path.len() - 1 ==> names::set_for(self.deps, #[trigger] path[i]).contains(
                path[i + 1],
            )
    }

    /// Whether `path` leads from `t` to its last target, through dependencies that are still
    /// waiting.
    pub open spec fn waits_along(self, t: Seq<char>, path: Seq<Seq<char>>) -> bool {
        &&& path.len() >= 2
        &&& path[0] == t
        &&& self.chain(path)
        &&& forall|i: int| 0 < i < path.len() - 1 ==> self.open(#[trigger] path[i])
    }

    /// Whether `t` waits, directly or through dependencies that are still waiting, for `d`,
    /// whose build failed.
    pub open spec fn blocked_by(self, t: Seq<char>, d: Seq<char>) -> bool {
        self.failed.contains(d) && exists|path: Seq<Seq<char>>| #[trigger]
            self.waits_along(t, path) && path.last() == d
    }

    /// The failed dependencies that `t` waits for.
    pub open spec fn blockers(self, t: Seq<char>) -> Set<Seq<char>> {
        Set::new(|d: Seq<char>| self.blocked_by(t, d))
    }

    /// Whether `cycle` is a cycle of dependencies: each target depends on the next one, and the
    /// last on the first.
    pub open spec fn is_cycle(self, cycle: Seq<Seq<char>>) -> bool {
        &&& cycle.len() > 0
        &&& self.chain(cycle)
        &&& names::set_for(self.deps, cycle.last()).contains(cycle[0])
    }

    /// Whether no target depends on itself through others.
    pub open spec fn acyclic(self) -> bool {
        forall|cycle: Seq<Seq<char>>| !(#[trigger] self.is_cycle(cycle))
    }
}

/// The place in `queue` of the first target that a node with these platforms can build.
pub open spec fn first_fitting(s: DagState, node: Seq<Seq<char>>, queue: Seq<Seq<char>>) -> int
    decreases queue.len(),
{
    if queue.len() == 0 || s.fits(node, queue[0]) {
        0
    } else {
        1 + first_fitting(s, node, queue.skip(1))
    }
}

/// The dependencies of `t` among the targets, without itself.
pub open spec fn known_deps(
    all: Set<Seq<char>>,
    deps: Map<Seq<char>, Seq<Seq<char>>>,
    t: Seq<char>,
) -> Set<Seq<char>> {
    Set::new(|d: Seq<char>| names::list_for(deps, t).contains(d) && all.contains(d) && d != t)
}

/// The state of a new queue.
pub open spec fn new_state(
    targets: Seq<Seq<char>>,
    deps: Map<Seq<char>, Seq<Seq<char>>>,
    platforms: Map<Seq<char>, Seq<Seq<char>>>,
) -> DagState {
    let all = targets.to_set();
    DagState {
        all,
        deps: Map::new(|t: Seq<char>| all.contains(t), |t: Seq<char>| known_deps(all, deps, t)),
        ready: targets.filter(
            |t: Seq<char>| known_deps(all, deps, t) == Set::<Seq<char>>::empty(),
        ),
        in_flight: Set::empty(),
        completed: Set::empty(),
        failed: Set::empty(),
        cancelled: Set::empty(),
        platforms,
        nodes: Seq::empty(),
    }
}

/// A queue of targets that follows their dependencies and platforms. A target becomes ready
/// when all its dependencies have been built, and only a node that supports one of its
/// platforms can claim it.
pub struct DagQueue {
    /// What each target depends on.
    deps: NameMap<NameSet>,
    /// What depends on each target.
    rdeps: NameMap<NameSet>,
    /// The targets that can be claimed.
    ready: VecDeque<String>,
    /// The targets that are being built.
    in_flight: NameSet,
    /// The targets that were built.
    completed: NameSet,
    /// The targets whose build failed.
    failed: NameSet,
    /// The targets whose build was cancelled. This is an end but no failure: what depends on
    /// them is not told that a dependency failed.
    cancelled: NameSet,
    /// All targets.
    all: NameSet,
    /// The platforms that targets ask for; where none are given any node can build.
    target_platforms: NameMap<Vec<String>>,
    /// The platforms of the nodes that will build. Empty where they are not known: every
    /// target then counts as claimable.
    node_platforms: Vec<Vec<String>>,
}

impl View for DagQueue {
    type V = DagState;

    closed spec fn view(&self) -> DagState {
        DagState {
            all: self.all@,
            deps: names::sets_of(self.deps@),
            ready: text::texts(self.ready@),
            in_flight: self.in_flight@,
            completed: self.completed@,
            failed: self.failed@,
            cancelled: self.cancelled@,
            platforms: names::lists_of(self.target_platforms@),
            nodes: text::text_lists(self.node_platforms@),
        }
    }
}

/// Whether `rdeps` holds the dependencies of `deps` turned round.
spec fn turned_round(
    all: Set<Seq<char>>,
    deps: Map<Seq<char>, Set<Seq<char>>>,
    rdeps: Map<Seq<char>, Set<Seq<char>>>,
) -> bool {
    &&& rdeps.dom() == all
    &&& forall|d: Seq<char>, t: Seq<char>|
        all.contains(d) ==> (#[trigger] rdeps[d].contains(t) <==> all.contains(t) && deps[t].contains(d))
}

/// The dependencies of `t` among the targets, without itself.
fn known_dependencies(all: &NameSet, deps: &NameMap<Vec<String>>, t: &str) -> (r: NameSet)
    requires
        all.wf(),
        deps.wf(),
    ensures
        r.wf(),
        r@ == known_deps(all@, names::lists_of(deps@), t@),
{
    let mut r = NameSet::new();
    let ghost found = names::list_for(names::lists_of(deps@), t@);
    match deps.get(t) {
        Some(list) => {
            assert(found == text::texts(list@));
            let mut i: usize = 0;
            while i < list.len()
                invariant
                    all.wf(),
                    r.wf(),
                    i <= list@.len(),
                    found == text::texts(list@),
                    forall|d: Seq<char>|
                        r@.contains(d) <==> found.take(i as int).contains(d) && all@.contains(d) && d
                            != t@,
                decreases list@.len() - i,
            {
                assert(found[i as int] == list@[i as int]@);
                assert(found.take(i + 1) =~= found.take(i as int).push(found[i as int]));
                assert forall|d: Seq<char>| found.take(i + 1).contains(d) <==> found.take(
                    i as int,
                ).contains(d) || d == found[i as int] by {
                    names::lemma_take_to_set(found, i as int);
                    assert(found.take(i + 1).to_set().contains(d) == found.take(
                        i as int,
                    ).to_set().insert(found[i as int]).contains(d));
                }
                if !same_text(list[i].as_str(), t) && all.contains(list[i].as_str()) {
                    let _ = r.insert(list[i].clone());
                }
                i += 1;
            }
            assert(found.take(i as int) =~= found);
        },
        None => {},
    }
    assert(r@ =~= known_deps(all@, names::lists_of(deps@), t@));
    r
}

/// The warnings that a target depends on itself, one for each time it says so.
pub open spec fn self_warnings(
    all: Set<Seq<char>>,
    deps: Map<Seq<char>, Seq<Seq<char>>>,
    keys: Seq<Seq<char>>,
) -> Seq<Seq<char>>
    decreases keys.len(),
{
    if keys.len() == 0 {
        Seq::empty()
    } else {
        let t = keys.last();
        let n = if all.contains(t) {
            times(names::list_for(deps, t), t)
        } else {
            0
        };
        self_warnings(all, deps, keys.drop_last()) + Seq::new(n, |i: int| self_warning(t))
    }
}

/// How often `t` stands in a list.
pub open spec fn times(list: Seq<Seq<char>>, t: Seq<char>) -> nat
    decreases list.len(),
{
    if list.len() == 0 {
        0
    } else if list.last() == t {
        times(list.drop_last(), t) + 1
    } else {
        times(list.drop_last(), t)
    }
}

/// The warning that `t` depends on itself.
pub open spec fn self_warning(t: Seq<char>) -> Seq<char> {
    "warning: target '"@ + t + "' depends on itself — ignoring self-dependency"@
}

/// The warnings that a target depends on itself, one for each time `deps` says so, by the
/// order of the targets. Such a dependency is otherwise ignored.
pub fn self_dependency_warnings(targets: &[String], deps: &NameMap<Vec<String>>) -> (r: Vec<String>)
    requires
        deps.wf(),
    ensures
        text::texts(r@) == self_warnings(
            text::texts(targets@).to_set(),
            names::lists_of(deps@),
            deps.key_list(),
        ),
{
    let all = NameSet::from_list(targets);
    let ghost lists = names::lists_of(deps@);
    let ghost keys = deps.key_list();
    let mut out: Vec<String> = Vec::new();
    let mut i: usize = 0;
    assert(text::texts(out@) =~= self_warnings(all@, lists, keys.take(0)));
    while i < deps.len()
        invariant
            deps.wf(),
            all.wf(),
            keys == deps.key_list(),
            lists == names::lists_of(deps@),
            i <= keys.len(),
            text::texts(out@) == self_warnings(all@, lists, keys.take(i as int)),
        decreases keys.len() - i,
    {
        let t = deps.key_at(i);
        let list = deps.value_at(i);
        let ghost found = text::texts(list@);
        let ghost before = text::texts(out@);
        assert(keys.take(i + 1).drop_last() =~= keys.take(i as int));
        assert(keys.take(i + 1).last() == t@);
        assert(names::list_for(lists, t@) == found);
        let mut n: Ghost<nat> = Ghost(0);
        assert(before =~= before + Seq::new(0, |k: int| self_warning(t@)));
        if all.contains(t.as_str()) {
            let mut j: usize = 0;
            while j < list.len()
                invariant
                    j <= list@.len(),
                    found == text::texts(list@),
                    n@ == times(found.take(j as int), t@),
                    text::texts(out@) == before + Seq::new(n@, |k: int| self_warning(t@)),
                decreases list@.len() - j,
            {
                proof {
                    assert(found.take(j + 1).drop_last() =~= found.take(j as int));
                    assert(found.take(j + 1).last() == found[j as int]);
                    assert(found[j as int] == list@[j as int]@);
                }
                if same_text(list[j].as_str(), t.as_str()) {
                    let line = "warning: target '".to_string().concat(t.as_str()).concat(
                        "' depends on itself — ignoring self-dependency",
                    );
                    add_text(&mut out, line);
                    proof {
                        n@ = n@ + 1;
                    }
                    assert(text::texts(out@) =~= before + Seq::new(n@, |k: int| self_warning(t@)));
                }
                j += 1;
            }
            assert(found.take(j as int) =~= found);
        }
        i += 1;
    }
    assert(keys.take(i as int) =~= keys);
    out
}

/// Adds `name` to the set of `key`.
fn add_edge(m: &mut NameMap<NameSet>, key: &str, name: String)
    requires
        old(m).wf(),
        names::sets_wf(old(m)@),
        old(m)@.contains_key(key@),
    ensures
        final(m).wf(),
        names::sets_wf(final(m)@),
        names::sets_of(final(m)@) == names::sets_of(old(m)@).insert(
            key@,
            names::sets_of(old(m)@)[key@].insert(name@),
        ),
{
    let ghost before = m@;
    if let Some(set) = m.get_mut(key) {
        let _ = set.insert(name);
    }
    assert(names::sets_of(m@) =~= names::sets_of(before).insert(
        key@,
        names::sets_of(before)[key@].insert(name@),
    ));
}

impl DagQueue {
    /// The parts of the queue agree.
    pub closed spec fn wf(&self) -> bool {
        &&& self.all.wf()
        &&& self.deps.wf()
        &&& names::sets_wf(self.deps@)
        &&& self.rdeps.wf()
        &&& names::sets_wf(self.rdeps@)
        &&& self.in_flight.wf()
        &&& self.completed.wf()
        &&& self.failed.wf()
        &&& self.cancelled.wf()
        &&& self.target_platforms.wf()
        &&& self@.valid()
        &&& turned_round(self@.all, self@.deps, names::sets_of(self.rdeps@))
    }

    /// What a well-formed queue holds is valid.
    pub proof fn lemma_valid(&self)
        requires
            self.wf(),
        ensures
            self@.valid(),
    {
    }

    /// A queue of targets. `deps` gives what a target depends on; only what is itself among the
    /// targets counts, and not the target itself. `target_platforms` gives the platforms that
    /// a target asks for.
    pub fn new(
        targets: Vec<String>,
        deps: NameMap<Vec<String>>,
        target_platforms: NameMap<Vec<String>>,
    ) -> (r: DagQueue)
        requires
            deps.wf(),
            target_platforms.wf(),
        ensures
            r.wf(),
            r@ == new_state(
                text::texts(targets@),
                names::lists_of(deps@),
                names::lists_of(target_platforms@),
            ),
    {
        let all = NameSet::from_list(targets.as_slice());
        let ghost lists = names::lists_of(deps@);
        let ghost state = new_state(
            text::texts(targets@),
            lists,
            names::lists_of(target_platforms@),
        );
        let forward = forward_edges(&all, &deps);
        assert(names::sets_of(forward@) =~= state.deps);
        let reverse = reverse_edges(&all, &forward);
        let mut ready: VecDeque<String> = VecDeque::new();
        let ghost names = text::texts(targets@);
        let ghost free = |t: Seq<char>| known_deps(all@, lists, t) == Set::<Seq<char>>::empty();
        let mut i: usize = 0;
        assert(text::texts(ready@) =~= names.take(0).filter(free)) by {
            reveal(Seq::filter);
        }
        while i < targets.len()
            invariant
                i <= targets@.len(),
                names == text::texts(targets@),
                all@ == names.to_set(),
                forward.wf(),
                names::sets_wf(forward@),
                names::sets_of(forward@) == state.deps,
                state.deps == Map::new(
                    |t: Seq<char>| all@.contains(t),
                    |t: Seq<char>| known_deps(all@, lists, t),
                ),
                free == (|t: Seq<char>| known_deps(all@, lists, t) == Set::<Seq<char>>::empty()),
                text::texts(ready@) == names.take(i as int).filter(free),
            decreases targets@.len() - i,
        {
            let ghost t = names[i as int];
            proof {
                assert(t == targets@[i as int]@);
                assert(names.to_set().contains(t));
                assert(state.deps.contains_key(t));
                assert(forward@.contains_key(t));
                reveal(Seq::filter);
                assert(names.take(i + 1).drop_last() =~= names.take(i as int));
                assert(names.take(i + 1).last() == t);
            }
            let unblocked = match forward.get(targets[i].as_str()) {
                Some(set) => {
                    assert(set@ == names::sets_of(forward@)[t]);
                    set.is_empty()
                },
                None => true,
            };
            if unblocked {
                let ghost before = ready@;
                ready.push_back(targets[i].clone());
                proof {
                    text::lemma_texts_push(before, ready@.last());
                    assert(ready@ == before.push(ready@.last()));
                }
            }
            i += 1;
        }
        assert(names.take(i as int) =~= names);
        let r = DagQueue {
            deps: forward,
            rdeps: reverse,
            ready,
            in_flight: NameSet::new(),
            completed: NameSet::new(),
            failed: NameSet::new(),
            cancelled: NameSet::new(),
            all,
            target_platforms,
            node_platforms: Vec::new(),
        };
        proof {
            all.lemma_finite();
            assert(text::text_lists(r.node_platforms@) =~= Seq::empty());
            assert(r@ =~= state);
            lemma_new_valid(names, lists, names::lists_of(target_platforms@));
        }
        r
    }
}

impl DagQueue {
    /// Says which nodes there are, so that "waiting for a build" can be told from "no node can
    /// ever build what is left".
    pub fn with_nodes(self, node_platforms: Vec<Vec<String>>) -> (r: DagQueue)
        requires
            self.wf(),
        ensures
            r.wf(),
            r@ == (DagState { nodes: text::text_lists(node_platforms@), ..self@ }),
    {
        let mut r = self;
        r.node_platforms = node_platforms;
        assert(r@ =~= (DagState { nodes: text::text_lists(node_platforms@), ..self@ }));
        r
    }

    /// The platforms that a target asks for; none where any node will do.
    pub fn target_platforms(&self, target: &str) -> (r: &[String])
        requires
            self.wf(),
        ensures
            text::texts(r@) == self@.wants(target@),
    {
        match self.target_platforms.get(target) {
            Some(list) => list.as_slice(),
            None => {
                let none: &[String] = &[];
                assert(text::texts(none@) =~= Seq::empty());
                none
            },
        }
    }

    /// The number of targets that can be claimed.
    pub fn ready_count(&self) -> (r: usize)
        requires
            self.wf(),
        ensures
            r == self@.ready.len(),
    {
        self.ready.len()
    }

    fn claimable_by_any_node(&self, target: &str) -> (r: bool)
        requires
            self.wf(),
        ensures
            r == self@.claimable(target@),
    {
        if self.node_platforms.len() == 0 {
            return true;
        }
        let required = self.target_platforms(target);
        let mut i: usize = 0;
        while i < self.node_platforms.len()
            invariant
                self.wf(),
                i <= self.node_platforms@.len(),
                text::texts(required@) == self@.wants(target@),
                forall|j: int| 0 <= j < i ==> !self@.fits(#[trigger] self@.nodes[j], target@),
            decreases self.node_platforms@.len() - i,
        {
            assert(self@.nodes[i as int] == text::texts(self.node_platforms@[i as int]@));
            if platforms_compatible(self.node_platforms[i].as_slice(), required) {
                return true;
            }
            i += 1;
        }
        false
    }

    fn unsatisfiable_names(&self) -> (r: NameSet)
        requires
            self.wf(),
        ensures
            r.wf(),
            forall|t: Seq<char>|
                r@.contains(t) <==> self@.all.contains(t) && !self@.claimable(t),
    {
        let targets = self.all.as_list();
        let ghost list = text::texts(targets@);
        let mut out = NameSet::new();
        let mut i: usize = 0;
        while i < targets.len()
            invariant
                self.wf(),
                out.wf(),
                i <= targets@.len(),
                list == text::texts(targets@),
                forall|t: Seq<char>|
                    out@.contains(t) <==> list.take(i as int).contains(t) && !self@.claimable(t),
            decreases targets@.len() - i,
        {
            proof {
                names::lemma_take_contains(list, i as int);
                assert(list[i as int] == targets@[i as int]@);
            }
            if !self.claimable_by_any_node(targets[i].as_str()) {
                let _ = out.insert(targets[i].clone());
            }
            i += 1;
        }
        proof {
            assert(list.take(i as int) =~= list);
            assert forall|t: Seq<char>| list.contains(t) == self@.all.contains(t) by {
                assert(list.to_set().contains(t) == self@.all.contains(t));
            }
        }
        out
    }

    /// The targets that no known node can build, by name, each with the platforms that it asks
    /// for: waiting for one of them would be waiting for ever.
    pub fn unsatisfiable_targets(&self) -> (r: Vec<(String, Vec<String>)>)
        requires
            self.wf(),
        ensures
            order::ascending(target_names(r@)),
            forall|t: Seq<char>|
                #[trigger] target_names(r@).contains(t) <==> self@.all.contains(t)
                    && !self@.claimable(t),
            forall|i: int|
                0 <= i < r@.len() ==> text::texts((#[trigger] r@[i]).1@) == self@.wants(r@[i].0@),
    {
        let names = self.unsatisfiable_names().into_list();
        let ghost list = text::texts(names@);
        let mut out: Vec<(String, Vec<String>)> = Vec::new();
        let mut i: usize = 0;
        while i < names.len()
            invariant
                self.wf(),
                i <= names@.len(),
                list == text::texts(names@),
                target_names(out@) == list.take(i as int),
                forall|j: int|
                    0 <= j < out@.len() ==> text::texts((#[trigger] out@[j]).1@) == self@.wants(
                        out@[j].0@,
                    ),
            decreases names@.len() - i,
        {
            let required = copy_texts(self.target_platforms(names[i].as_str()));
            let ghost before = out@;
            out.push((names[i].clone(), required));
            assert(list[i as int] == names@[i as int]@);
            assert(target_names(out@) =~= target_names(before).push(list[i as int]));
            assert(target_names(out@) =~= list.take(i + 1));
            i += 1;
        }
        proof {
            assert(list.take(i as int) =~= list);
            assert forall|t: Seq<char>| #[trigger]
                target_names(out@).contains(t) <==> self@.all.contains(t) && !self@.claimable(
                    t,
                ) by {
                assert(list.to_set().contains(t) == list.contains(t));
            }
        }
        out
    }

    fn has_ended(&self, target: &str) -> (r: bool)
        requires
            self.wf(),
        ensures
            r == self@.ended(target@),
    {
        self.completed.contains(target) || self.failed.contains(target) || self.cancelled.contains(
            target,
        )
    }

    /// The targets that have not come to an end, by name. At the end of a run these are the
    /// cancelled and blocked ones, which would otherwise be left waiting.
    pub fn unfinished_targets(&self) -> (r: Vec<String>)
        requires
            self.wf(),
        ensures
            order::ascending(text::texts(r@)),
            text::texts(r@).to_set() == self@.unfinished(),
    {
        let targets = self.all.as_list();
        let ghost list = text::texts(targets@);
        let mut out = NameSet::new();
        let mut i: usize = 0;
        while i < targets.len()
            invariant
                self.wf(),
                out.wf(),
                i <= targets@.len(),
                list == text::texts(targets@),
                forall|t: Seq<char>|
                    out@.contains(t) <==> list.take(i as int).contains(t) && !self@.ended(t),
            decreases targets@.len() - i,
        {
            proof {
                names::lemma_take_contains(list, i as int);
                assert(list[i as int] == targets@[i as int]@);
            }
            if !self.has_ended(targets[i].as_str()) {
                let _ = out.insert(targets[i].clone());
            }
            i += 1;
        }
        proof {
            assert(list.take(i as int) =~= list);
            assert forall|t: Seq<char>| list.contains(t) == self@.all.contains(t) by {
                assert(list.to_set().contains(t) == self@.all.contains(t));
            }
            assert(out@ =~= self@.unfinished());
        }
        out.into_list()
    }

    /// Claims the first target of the queue that a node with these platforms can build; none
    /// where there is no such target now.
    pub fn claim_for_platforms(&mut self, node_platforms: &[String]) -> (r: Option<String>)
        requires
            old(self).wf(),
        ensures
            final(self).wf(),
            ({
                let node = text::texts(node_platforms@);
                let at = old(self)@.first_fit(node);
                match r {
                    Some(t) => {
                        &&& at < old(self)@.ready.len()
                        &&& t@ == old(self)@.ready[at]
                        &&& final(self)@ == old(self)@.claim_at(at)
                    },
                    None => at == old(self)@.ready.len() && final(self)@ == old(self)@,
                }
            }),
    {
        let ghost before = self@;
        let ghost node = text::texts(node_platforms@);
        let mut at: usize = 0;
        while at < self.ready.len()
            invariant
                self.wf(),
                self@ == before,
                before == old(self)@,
                node == text::texts(node_platforms@),
                at <= before.ready.len(),
                forall|j: int| 0 <= j < at ==> !before.fits(node, #[trigger] before.ready[j]),
            decreases self.ready@.len() - at,
        {
            assert(before.ready[at as int] == self.ready@[at as int]@);
            let required = self.target_platforms(self.ready[at].as_str());
            if platforms_compatible(node_platforms, required) {
                proof {
                    lemma_first_fit(before, node, before.ready, at as int);
                }
                let ghost queue = self.ready@;
                if let Some(target) = self.ready.remove(at) {
                    let _ = self.in_flight.insert(target.clone());
                    proof {
                        assert(text::texts(queue.remove(at as int)) =~= before.ready.remove(
                            at as int,
                        ));
                        assert(self@ =~= before.claim_at(at as int));
                        self.in_flight.lemma_finite();
                        assert forall|i: int| 0 <= i < self@.ready.len() implies self@.all.contains(
                            #[trigger] self@.ready[i],
                        ) by {
                            let j: int = if i < at {
                                i
                            } else {
                                i + 1
                            };
                            assert(self@.ready[i] == before.ready[j]);
                        }
                    }
                    return Some(target);
                }
            }
            at += 1;
        }
        proof {
            lemma_first_fit(before, node, before.ready, at as int);
        }
        None
    }

    /// Notes that a target was built. The dependents that this unblocks join the queue.
    pub fn complete(&mut self, target: &str)
        requires
            old(self).wf(),
        ensures
            final(self).wf(),
            old(self)@.completes(target@, final(self)@),
    {
        let ghost before = self@;
        self.in_flight.remove(target);
        let _ = self.completed.insert(target.to_string());
        proof {
            assert(self@ =~= before.with_completed(target@));
            self.in_flight.lemma_finite();
            self.completed.lemma_finite();
        }
        self.release_dependents(target);
    }

    /// Notes that the build of a target failed. What depends on it never becomes ready.
    pub fn fail(&mut self, target: &str)
        requires
            old(self).wf(),
        ensures
            final(self).wf(),
            final(self)@ == old(self)@.fails(target@),
    {
        let ghost before = self@;
        self.in_flight.remove(target);
        let _ = self.failed.insert(target.to_string());
        proof {
            assert(self@ =~= before.fails(target@));
            self.in_flight.lemma_finite();
            self.failed.lemma_finite();
        }
    }

    /// Notes that the build of a target was cancelled: an end, but no failure. What depends on
    /// it is not told that a dependency failed when the run was merely interrupted.
    pub fn cancel(&mut self, target: &str)
        requires
            old(self).wf(),
        ensures
            final(self).wf(),
            final(self)@ == old(self)@.cancels(target@),
    {
        let ghost before = self@;
        self.in_flight.remove(target);
        let _ = self.cancelled.insert(target.to_string());
        proof {
            assert(self@ =~= before.cancels(target@));
            self.in_flight.lemma_finite();
            self.cancelled.lemma_finite();
        }
    }

    /// Whether all targets have come to an end.
    pub fn is_done(&self) -> (r: bool)
        requires
            self.wf(),
        ensures
            r == self@.done(),
    {
        let targets = self.all.as_list();
        let ghost list = text::texts(targets@);
        let mut i: usize = 0;
        while i < targets.len()
            invariant
                self.wf(),
                i <= targets@.len(),
                list == text::texts(targets@),
                list.to_set() == self@.all,
                forall|j: int| 0 <= j < i ==> self@.ended(#[trigger] list[j]),
            decreases targets@.len() - i,
        {
            assert(list[i as int] == targets@[i as int]@);
            if !self.has_ended(targets[i].as_str()) {
                assert(list.to_set().contains(list[i as int]));
                return false;
            }
            i += 1;
        }
        assert forall|t: Seq<char>| #[trigger] self@.all.contains(t) implies self@.ended(t) by {
            assert(list.to_set().contains(t));
            let j: int = choose|j: int| 0 <= j < list.len() && list[j] == t;
            assert(self@.ended(list[j]));
        }
        true
    }

    /// Whether no further progress is possible. A queue whose targets no node can claim is
    /// stalled: the nodes would otherwise wait for a build that never starts.
    pub fn is_stalled(&self) -> (r: bool)
        requires
            self.wf(),
        ensures
            r == self@.stalled(),
    {
        if self.is_done() || !self.in_flight.is_empty() {
            return false;
        }
        let mut i: usize = 0;
        while i < self.ready.len()
            invariant
                self.wf(),
                i <= self.ready@.len(),
                forall|j: int| 0 <= j < i ==> !self@.claimable(#[trigger] self@.ready[j]),
            decreases self.ready@.len() - i,
        {
            assert(self@.ready[i as int] == self.ready@[i as int]@);
            if self.claimable_by_any_node(self.ready[i].as_str()) {
                return false;
            }
            i += 1;
        }
        true
    }

    fn all_completed(&self, target: &str) -> (r: bool)
        requires
            self.wf(),
        ensures
            r == self@.unblocked(target@),
    {
        match self.deps.get(target) {
            Some(set) => {
                let deps = set.as_list();
                let ghost list = text::texts(deps@);
                assert(self@.deps[target@] == set@);
                let mut i: usize = 0;
                while i < deps.len()
                    invariant
                        self.wf(),
                        i <= deps@.len(),
                        list == text::texts(deps@),
                        list.to_set() == self@.deps[target@],
                        self@.deps.contains_key(target@),
                        forall|j: int| 0 <= j < i ==> self@.completed.contains(#[trigger] list[j]),
                    decreases deps@.len() - i,
                {
                    assert(list[i as int] == deps@[i as int]@);
                    if !self.completed.contains(deps[i].as_str()) {
                        assert(list.to_set().contains(list[i as int]));
                        return false;
                    }
                    i += 1;
                }
                assert forall|d: Seq<char>| self@.deps[target@].contains(d) implies self@.completed.contains(d) by {
                    assert(list.to_set().contains(d));
                    let j: int = choose|j: int| 0 <= j < list.len() && list[j] == d;
                    assert(self@.completed.contains(list[j]));
                }
                true
            },
            None => true,
        }
    }

    fn is_ready(&self, target: &str) -> (r: bool)
        ensures
            r == self@.ready.contains(target@),
    {
        let mut i: usize = 0;
        while i < self.ready.len()
            invariant
                i <= self.ready@.len(),
                forall|j: int| 0 <= j < i ==> #[trigger] self@.ready[j] != target@,
            decreases self.ready@.len() - i,
        {
            assert(self@.ready[i as int] == self.ready@[i as int]@);
            if same_text(self.ready[i].as_str(), target) {
                return true;
            }
            i += 1;
        }
        false
    }

    /// Puts the dependents of a target that has been built into the queue, where nothing else
    /// blocks them.
    fn release_dependents(&mut self, completed_target: &str)
        requires
            old(self).wf(),
        ensures
            final(self).wf(),
            ({
                let added = final(self)@.ready.skip(old(self)@.ready.len() as int);
                &&& final(self)@ == (DagState { ready: old(self)@.ready + added, ..old(self)@ })
                &&& order::ascending(added)
                &&& forall|d: Seq<char>| #[trigger]
                    added.contains(d) == old(self)@.releases(completed_target@, d)
            }),
    {
        let ghost before = self@;
        let ghost t = completed_target@;
        let dependents: Vec<String> = match self.rdeps.get(completed_target) {
            Some(set) => {
                assert(set@ == names::sets_of(self.rdeps@)[t]);
                assert(before.all.contains(t));
                let list = copy_texts(set.as_list().as_slice());
                assert forall|d: Seq<char>| text::texts(list@).contains(d) implies before.all.contains(
                    d,
                ) && before.deps[d].contains(t) by {
                    assert(text::texts(list@).to_set().contains(d));
                }
                assert forall|d: Seq<char>| before.releases(t, d) implies text::texts(
                    list@,
                ).contains(d) by {
                    assert(set@.contains(d));
                    assert(text::texts(list@).to_set().contains(d));
                }
                list
            },
            None => {
                let list: Vec<String> = Vec::new();
                assert forall|d: Seq<char>| before.releases(t, d) implies text::texts(
                    list@,
                ).contains(d) by {
                    assert(names::sets_of(self.rdeps@).contains_key(t));
                }
                list
            },
        };
        let ghost list = text::texts(dependents@);
        let ghost mut added: Seq<Seq<char>> = Seq::empty();
        let mut i: usize = 0;
        assert(before.ready + added =~= before.ready);
        assert(self@ =~= (DagState { ready: before.ready + added, ..before }));
        while i < dependents.len()
            invariant
                self.wf(),
                before.valid(),
                i <= dependents@.len(),
                list == text::texts(dependents@),
                order::ascending(list),
                forall|d: Seq<char>| list.contains(d) ==> before.all.contains(d)
                    && before.deps[d].contains(t),
                self@ == (DagState { ready: before.ready + added, ..before }),
                order::ascending(added),
                forall|d: Seq<char>| #[trigger]
                    added.contains(d) <==> list.take(i as int).contains(d) && before.releases(t, d),
            decreases dependents@.len() - i,
        {
            let ghost d = list[i as int];
            proof {
                names::lemma_take_contains(list, i as int);
                assert(d == dependents@[i as int]@);
                assert(list.contains(d));
                assert(!list.take(i as int).contains(d)) by {
                    order::lemma_ascending_distinct(list);
                }
                assert(self@.ready == before.ready + added);
                assert(!added.contains(d));
                names::lemma_sum_contains(before.ready, added, d);
                assert(self@.ready.contains(d) == before.ready.contains(d));
                assert(self@.unblocked(d) == before.unblocked(d));
                assert(before.all.contains(d) && before.deps[d].contains(t));
            }
            let dep = dependents[i].as_str();
            let held = self.has_ended(dep) || self.in_flight.contains(dep) || self.is_ready(dep);
            if !held && self.all_completed(dep) {
                assert(before.releases(t, d));
                let ghost queue = self.ready@;
                self.ready.push_back(dependents[i].clone());
                proof {
                    let grown = added.push(d);
                    text::lemma_texts_push(queue, self.ready@.last());
                    assert(self.ready@ == queue.push(self.ready@.last()));
                    assert(before.ready + grown =~= (before.ready + added).push(d));
                    assert(self@ =~= (DagState { ready: before.ready + grown, ..before }));
                    assert forall|j: int| 0 <= j < self@.ready.len() implies self@.all.contains(
                        #[trigger] self@.ready[j],
                    ) by {
                        if j < queue.len() {
                            assert(self@.ready[j] == text::texts(queue)[j]);
                        }
                    }
                    assert forall|a: int, b: int| 0 <= a < b < grown.len() implies order::text_le(
                        #[trigger] grown[a],
                        #[trigger] grown[b],
                    ) && grown[a] != grown[b] by {
                        if b == added.len() {
                            assert(added.contains(added[a]));
                            assert(list.take(i as int).contains(added[a]));
                            let k: int = choose|k: int|
                                0 <= k < i && list.take(i as int)[k] == added[a];
                            assert(list[k] == added[a]);
                            assert(order::text_le(list[k], list[i as int]));
                        } else {
                            assert(grown[a] == added[a] && grown[b] == added[b]);
                        }
                    }
                    assert forall|x: Seq<char>| #[trigger]
                        grown.contains(x) <==> list.take(i + 1).contains(x) && before.releases(
                            t,
                            x,
                        ) by {
                        names::lemma_push_contains(added, d, x);
                        assert(added.contains(x) <==> list.take(i as int).contains(x)
                            && before.releases(t, x));
                    }
                    added = grown;
                }
            } else {
                assert(!before.releases(t, d));
            }
            i += 1;
        }
        proof {
            assert(list.take(i as int) =~= list);
            assert(self@.ready.skip(before.ready.len() as int) =~= added);
        }
    }
}

/// The names of a list of targets and platforms.
pub open spec fn target_names(list: Seq<(String, Vec<String>)>) -> Seq<Seq<char>> {
    list.map_values(|e: (String, Vec<String>)| e.0@)
}

/// The first place that fits, where the places before it do not.
proof fn lemma_first_fit(s: DagState, node: Seq<Seq<char>>, queue: Seq<Seq<char>>, at: int)
    requires
        0 <= at <= queue.len(),
        forall|j: int| 0 <= j < at ==> !s.fits(node, #[trigger] queue[j]),
        at < queue.len() ==> s.fits(node, queue[at]),
    ensures
        first_fitting(s, node, queue) == at,
    decreases queue.len(),
{
    if at > 0 {
        assert(!s.fits(node, queue[0]));
        assert forall|j: int| 0 <= j < at - 1 implies !s.fits(node, #[trigger] queue.skip(1)[j]) by {
            assert(queue.skip(1)[j] == queue[j + 1]);
        }
        lemma_first_fit(s, node, queue.skip(1), at - 1);
    }
}

/// What each target depends on.
fn forward_edges(all: &NameSet, deps: &NameMap<Vec<String>>) -> (r: NameMap<NameSet>)
    requires
        all.wf(),
        deps.wf(),
    ensures
        r.wf(),
        names::sets_wf(r@),
        r@.dom() == all@,
        forall|t: Seq<char>|
            all@.contains(t) ==> #[trigger] names::sets_of(r@)[t] == known_deps(
                all@,
                names::lists_of(deps@),
                t,
            ),
{
    let mut r: NameMap<NameSet> = NameMap::new();
    let targets = all.as_list();
    let ghost list = text::texts(targets@);
    let mut i: usize = 0;
    assert(list.take(0).to_set() =~= Set::empty());
    assert(r@.dom() =~= Set::empty());
    while i < targets.len()
        invariant
            i <= targets@.len(),
            all.wf(),
            deps.wf(),
            list == text::texts(targets@),
            r.wf(),
            names::sets_wf(r@),
            r@.dom() == list.take(i as int).to_set(),
            forall|t: Seq<char>|
                r@.contains_key(t) ==> #[trigger] names::sets_of(r@)[t] == known_deps(
                    all@,
                    names::lists_of(deps@),
                    t,
                ),
        decreases targets@.len() - i,
    {
        let t = targets[i].clone();
        let set = known_dependencies(all, deps, t.as_str());
        let ghost before = r@;
        r.insert(t, set);
        proof {
            names::lemma_take_to_set(list, i as int);
            assert(list[i as int] == t@);
            assert(r@.dom() =~= before.dom().insert(t@));
            assert forall|u: Seq<char>| r@.contains_key(u) implies #[trigger] names::sets_of(r@)[u]
                == known_deps(all@, names::lists_of(deps@), u) by {
                if u != t@ {
                    assert(names::sets_of(r@)[u] == names::sets_of(before)[u]);
                }
            }
        }
        i += 1;
    }
    assert(list.take(i as int) =~= list);
    r
}

/// What depends on each target.
fn reverse_edges(all: &NameSet, forward: &NameMap<NameSet>) -> (r: NameMap<NameSet>)
    requires
        all.wf(),
        forward.wf(),
        names::sets_wf(forward@),
        forward@.dom() == all@,
        forall|t: Seq<char>, d: Seq<char>|
            all@.contains(t) && #[trigger] names::sets_of(forward@)[t].contains(d) ==> all@.contains(
                d,
            ),
    ensures
        r.wf(),
        names::sets_wf(r@),
        turned_round(all@, names::sets_of(forward@), names::sets_of(r@)),
{
    let mut r = empty_edges(all);
    let targets = all.as_list();
    let ghost list = text::texts(targets@);
    let ghost edges = names::sets_of(forward@);
    let mut i: usize = 0;
    while i < targets.len()
        invariant
            i <= targets@.len(),
            list == text::texts(targets@),
            list.to_set() == all@,
            list.no_duplicates(),
            forward.wf(),
            names::sets_wf(forward@),
            forward@.dom() == all@,
            edges == names::sets_of(forward@),
            forall|t: Seq<char>, d: Seq<char>|
                all@.contains(t) && #[trigger] edges[t].contains(d) ==> all@.contains(d),
            r.wf(),
            names::sets_wf(r@),
            r@.dom() == all@,
            forall|d: Seq<char>, t: Seq<char>|
                all@.contains(d) ==> (#[trigger] names::sets_of(r@)[d].contains(t) <==> list.take(
                    i as int,
                ).contains(t) && edges[t].contains(d)),
        decreases targets@.len() - i,
    {
        let ghost t = list[i as int];
        proof {
            assert(t == targets@[i as int]@);
            assert(list.to_set().contains(t));
        }
        if let Some(set) = forward.get(targets[i].as_str()) {
            let ghost before = names::sets_of(r@);
            let ghost here = edges[t];
            assert(here == set@);
            let into = set.as_list();
            let ghost into_list = text::texts(into@);
            let mut j: usize = 0;
            while j < into.len()
                invariant
                    j <= into@.len(),
                    i < targets@.len(),
                    t == targets@[i as int]@,
                    into_list == text::texts(into@),
                    into_list.to_set() == here,
                    forall|d: Seq<char>| here.contains(d) ==> all@.contains(d),
                    r.wf(),
                    names::sets_wf(r@),
                    r@.dom() == all@,
                    forall|d: Seq<char>, u: Seq<char>|
                        all@.contains(d) ==> (#[trigger] names::sets_of(r@)[d].contains(u)
                            <==> before[d].contains(u) || (u == t && into_list.take(
                            j as int,
                        ).contains(d))),
                decreases into@.len() - j,
            {
                let ghost d0 = into_list[j as int];
                let ghost mid = names::sets_of(r@);
                proof {
                    assert(d0 == into@[j as int]@);
                    assert(into_list.to_set().contains(d0));
                    assert(r@.contains_key(d0));
                    names::lemma_take_to_set(into_list, j as int);
                    assert forall|d: Seq<char>| into_list.take(j + 1).contains(d) == (
                    into_list.take(j as int).contains(d) || d == d0) by {
                        assert(into_list.take(j + 1).to_set().contains(d) == into_list.take(
                            j as int,
                        ).to_set().insert(d0).contains(d));
                    }
                }
                add_edge(&mut r, into[j].as_str(), targets[i].clone());
                proof {
                    let now = names::sets_of(r@);
                    assert(r@.dom() =~= now.dom());
                    assert(mid.insert(d0, mid[d0].insert(t)).dom() =~= all@);
                    assert forall|d: Seq<char>, u: Seq<char>| all@.contains(d) implies (
                    #[trigger] now[d].contains(u) <==> before[d].contains(u) || (u == t
                        && into_list.take(j + 1).contains(d))) by {
                        assert(mid[d].contains(u) <==> before[d].contains(u) || (u == t
                            && into_list.take(j as int).contains(d)));
                        if d == d0 {
                            assert(now[d] == mid[d].insert(t));
                        } else {
                            assert(now[d] == mid[d]);
                        }
                    }
                }
                j += 1;
            }
            proof {
                assert(into_list.take(j as int) =~= into_list);
                assert forall|d: Seq<char>| into_list.contains(d) == here.contains(d) by {
                    assert(into_list.to_set().contains(d) == here.contains(d));
                }
                names::lemma_take_to_set(list, i as int);
                assert forall|u: Seq<char>| list.take(i + 1).contains(u) == (list.take(
                    i as int,
                ).contains(u) || u == t) by {
                    assert(list.take(i + 1).to_set().contains(u) == list.take(
                        i as int,
                    ).to_set().insert(t).contains(u));
                }
                let now = names::sets_of(r@);
                assert forall|d: Seq<char>, u: Seq<char>| all@.contains(d) implies (
                #[trigger] now[d].contains(u) <==> list.take(i + 1).contains(u)
                    && edges[u].contains(d)) by {
                    assert(before[d].contains(u) <==> list.take(i as int).contains(u)
                        && edges[u].contains(d));
                    assert(now[d].contains(u) <==> before[d].contains(u) || (u == t
                        && here.contains(d)));
                }
            }
        }
        i += 1;
    }
    proof {
        assert(list.take(i as int) =~= list);
        assert forall|u: Seq<char>| list.contains(u) == all@.contains(u) by {
            assert(list.to_set().contains(u) == all@.contains(u));
        }
        assert(names::sets_of(r@).dom() =~= all@);
    }
    r
}

/// An empty set for each target.
fn empty_edges(all: &NameSet) -> (r: NameMap<NameSet>)
    requires
        all.wf(),
    ensures
        r.wf(),
        names::sets_wf(r@),
        r@.dom() == all@,
        forall|t: Seq<char>|
            all@.contains(t) ==> #[trigger] names::sets_of(r@)[t] == Set::<Seq<char>>::empty(),
{
    let mut r: NameMap<NameSet> = NameMap::new();
    let targets = all.as_list();
    let ghost list = text::texts(targets@);
    let mut i: usize = 0;
    assert(list.take(0).to_set() =~= Set::empty());
    assert(r@.dom() =~= Set::empty());
    while i < targets.len()
        invariant
            i <= targets@.len(),
            list == text::texts(targets@),
            r.wf(),
            names::sets_wf(r@),
            r@.dom() == list.take(i as int).to_set(),
            forall|t: Seq<char>|
                r@.contains_key(t) ==> #[trigger] names::sets_of(r@)[t]
                    == Set::<Seq<char>>::empty(),
        decreases targets@.len() - i,
    {
        let ghost before = r@;
        r.insert(targets[i].clone(), NameSet::new());
        proof {
            names::lemma_take_to_set(list, i as int);
            assert(list[i as int] == targets@[i as int]@);
            assert(r@.dom() =~= before.dom().insert(list[i as int]));
            assert forall|u: Seq<char>| r@.contains_key(u) implies #[trigger] names::sets_of(r@)[u]
                == Set::<Seq<char>>::empty() by {
                if u != list[i as int] {
                    assert(names::sets_of(r@)[u] == names::sets_of(before)[u]);
                }
            }
        }
        i += 1;
    }
    assert(list.take(i as int) =~= list);
    r
}

/// A new queue is valid.
proof fn lemma_new_valid(
    targets: Seq<Seq<char>>,
    deps: Map<Seq<char>, Seq<Seq<char>>>,
    platforms: Map<Seq<char>, Seq<Seq<char>>>,
)
    ensures
        new_state(targets, deps, platforms).valid(),
{
    let s = new_state(targets, deps, platforms);
    let free = |t: Seq<char>| known_deps(s.all, deps, t) == Set::<Seq<char>>::empty();
    assert(s.deps.dom() =~= s.all);
    assert forall|i: int| 0 <= i < s.ready.len() implies s.all.contains(#[trigger] s.ready[i]) by {
        lemma_filter_among(targets, free, i);
    }
}

/// What is left of a list after filtering was in it.
proof fn lemma_filter_among(s: Seq<Seq<char>>, f: spec_fn(Seq<char>) -> bool, i: int)
    requires
        0 <= i < s.filter(f).len(),
    ensures
        s.contains(s.filter(f)[i]),
        f(s.filter(f)[i]),
    decreases s.len(),
{
    reveal(Seq::filter);
    if s.len() > 0 {
        let sub = s.drop_last().filter(f);
        if i < sub.len() {
            lemma_filter_among(s.drop_last(), f, i);
            let j: int = choose|j: int| 0 <= j < s.len() - 1 && s.drop_last()[j] == sub[i];
            assert(s[j] == sub[i]);
        } else {
            assert(s[s.len() - 1] == s.filter(f)[i]);
        }
    }
}

}
