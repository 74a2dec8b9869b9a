//! What holds of every selection.
use super::{SelectionErrorView, SelectionView};
use crate::closure;
use crate::json;
use crate::names;
use crate::order;
use crate::path;
use crate::text;
use crate::typo;
use vstd::prelude::*;

verus! {

/// What the targets are with what they depend on: each of them, and all that they lead to.
proof fn lemma_with_deps(v: SelectionView, list: Seq<Seq<char>>, t: Seq<char>)
    requires
        list == super::after_deps(v),
        v.with_deps,
        order::ascending(list),
        list.to_set() == closure::reach(v.deps, v.all.to_set(), super::after_request(v)),
    ensures
        list.contains(t) <==> closure::reachable(
            v.deps,
            v.all.to_set(),
            super::after_request(v),
            t,
        ),
{
    assert(list.to_set().contains(t) == list.contains(t));
}

/// What leads from known targets through known targets is known.
proof fn lemma_reach_known(v: SelectionView, t: Seq<char>)
    requires
        closure::reachable(v.deps, v.all.to_set(), super::after_request(v), t),
    ensures
        v.all.contains(t),
{
    let from = super::after_request(v);
    let path = choose|path: Seq<Seq<char>>| #[trigger]
        closure::leads_along(v.deps, v.all.to_set(), path) && path.len() > 0 && from.contains(
            path[0],
        ) && path.last() == t;
    if path.len() == 1 {
        lemma_request_known(v, t);
    } else {
        let i: int = path.len() - 2;
        assert(v.all.to_set().contains(path[i + 1])) by {
            assert(names::list_for(v.deps, path[i]).contains(path[i + 1]));
        }
    }
}

/// What was asked for and left by the profiles is known.
proof fn lemma_request_known(v: SelectionView, t: Seq<char>)
    requires
        super::after_request(v).contains(t),
    ensures
        super::after_profiles(v).contains(t),
        v.all.contains(t),
{
    if v.requested.len() > 0 {
        names::lemma_filter_holds(
            super::after_profiles(v),
            |x: Seq<char>| v.requested.to_set().contains(x),
            t,
        );
    }
    if v.wanted.len() > 0 {
        names::lemma_filter_holds(v.all, |x: Seq<char>| super::active(v, x), t);
    }
}

/// The targets with their dependencies form a list in order, where they are asked for.
proof fn lemma_deps_listed(v: SelectionView)
    requires
        v.with_deps,
    ensures
        order::ascending(super::after_deps(v)),
        super::after_deps(v).to_set() == closure::reach(
            v.deps,
            v.all.to_set(),
            super::after_request(v),
        ),
{
    let set = closure::reach(v.deps, v.all.to_set(), super::after_request(v));
    assert forall|t: Seq<char>| set.contains(t) implies v.all.to_set().contains(t) by {
        lemma_reach_known(v, t);
    }
    vstd::seq_lib::seq_to_set_is_finite(v.all);
    vstd::set_lib::lemma_set_subset_finite(v.all.to_set(), set);
    order::lemma_in_order_exists(set);
}

/// Every selected target is a target of the bake file, and none that was to be left out.
pub proof fn law_selected_are_known(v: SelectionView, t: Seq<char>)
    requires
        super::selection(v) matches Ok(o) && o.0.contains(t),
    ensures
        v.all.contains(t),
        !v.exclude.contains(t),
{
    let excluded = v.exclude.to_set();
    names::lemma_filter_holds(super::after_deps(v), |x: Seq<char>| !excluded.contains(x), t);
    if v.with_deps {
        lemma_deps_listed(v);
        lemma_with_deps(v, super::after_deps(v), t);
        lemma_reach_known(v, t);
    } else {
        lemma_request_known(v, t);
    }
    assert(!excluded.contains(t));
}

/// A selection is never empty.
pub proof fn law_selection_not_empty(v: SelectionView)
    ensures
        super::selection(v) matches Ok(o) ==> o.0.len() > 0,
{
}

/// A target that was asked for is selected, unless it was to be left out: it is never passed
/// over.
pub proof fn law_requested_are_selected(v: SelectionView, t: Seq<char>)
    requires
        super::selection(v) is Ok,
        v.requested.contains(t),
        !v.exclude.contains(t),
    ensures
        super::selection(v) matches Ok(o) && o.0.contains(t),
{
    let excluded = v.exclude.to_set();
    let left = super::after_profiles(v);
    let gated = super::those_not_in(v.requested, left.to_set());
    names::lemma_filter_holds(v.requested, |x: Seq<char>| !left.to_set().contains(x), t);
    assert(!gated.contains(t)) by {
        assert(gated.len() == 0);
    }
    assert(left.contains(t));
    names::lemma_filter_holds(left, |x: Seq<char>| v.requested.to_set().contains(x), t);
    assert(v.requested.to_set().contains(t));
    assert(super::after_request(v).contains(t));
    if v.with_deps {
        lemma_deps_listed(v);
        lemma_with_deps(v, super::after_deps(v), t);
        closure::lemma_reach_start(v.deps, v.all.to_set(), super::after_request(v), t);
    }
    names::lemma_filter_holds(super::after_deps(v), |x: Seq<char>| !excluded.contains(x), t);
}

/// Where no targets are named, a service that declares no profiles is selected under any
/// profiles, unless it was to be left out.
pub proof fn law_ungated_are_selected(v: SelectionView, t: Seq<char>)
    requires
        super::selection(v) is Ok,
        v.requested.len() == 0,
        v.all.contains(t),
        names::list_for(v.profiles, t).len() == 0,
        !v.exclude.contains(t),
    ensures
        super::selection(v) matches Ok(o) && o.0.contains(t),
{
    let excluded = v.exclude.to_set();
    names::lemma_filter_holds(v.all, |x: Seq<char>| super::active(v, x), t);
    assert(super::after_request(v).contains(t));
    if v.with_deps {
        lemma_deps_listed(v);
        lemma_with_deps(v, super::after_deps(v), t);
        closure::lemma_reach_start(v.deps, v.all.to_set(), super::after_request(v), t);
    }
    names::lemma_filter_holds(super::after_deps(v), |x: Seq<char>| !excluded.contains(x), t);
}

/// With dependencies, whatever a selected target depends on is selected too, if it is a target
/// of the bake file and not to be left out.
pub proof fn law_dependencies_are_selected(v: SelectionView, t: Seq<char>, d: Seq<char>)
    requires
        v.with_deps,
        super::selection(v) matches Ok(o) && o.0.contains(t),
        names::list_for(v.deps, t).contains(d),
        v.all.contains(d),
        !v.exclude.contains(d),
    ensures
        super::selection(v) matches Ok(o) && o.0.contains(d),
{
    let excluded = v.exclude.to_set();
    let list = super::after_deps(v);
    names::lemma_filter_holds(list, |x: Seq<char>| !excluded.contains(x), t);
    names::lemma_filter_holds(list, |x: Seq<char>| !excluded.contains(x), d);
    lemma_deps_listed(v);
    lemma_with_deps(v, list, t);
    lemma_with_deps(v, list, d);
    closure::lemma_reach_step(v.deps, v.all.to_set(), super::after_request(v), t, d);
}

/// Whatever else is asked for, an unknown target is an error.
pub proof fn law_unknown_request_fails(v: SelectionView, t: Seq<char>)
    requires
        v.requested.contains(t),
        !v.all.contains(t),
    ensures
        super::selection(v) is Err,
{
    let known = v.all.to_set();
    let i: int = choose|i: int| 0 <= i < v.requested.len() && v.requested[i] == t;
    assert(!known.contains(v.requested[i]));
    lemma_found_not_in(v.requested, known, i);
}

proof fn lemma_found_not_in(list: Seq<Seq<char>>, set: Set<Seq<char>>, i: int)
    requires
        0 <= i < list.len(),
        !set.contains(list[i]),
    ensures
        super::first_not_in(list, set) <= i,
    decreases i,
{
    if set.contains(list[0]) {
        assert(list.skip(1)[i - 1] == list[i]);
        lemma_found_not_in(list.skip(1), set, i - 1);
    }
}

/// Adding what targets depend on twice adds no more than adding it once.
pub proof fn law_expansion_is_complete(
    deps: Map<Seq<char>, Seq<Seq<char>>>,
    targets: Seq<Seq<char>>,
    expanded: Seq<Seq<char>>,
    x: Seq<char>,
)
    requires
        expanded.to_set() == closure::reach(deps, Set::full(), targets),
    ensures
        closure::reachable(deps, Set::full(), expanded, x) <==> closure::reachable(
            deps,
            Set::full(),
            targets,
            x,
        ),
{
    let set = closure::reach(deps, Set::full(), targets);
    if closure::reachable(deps, Set::full(), expanded, x) {
        assert forall|y: Seq<char>| #[trigger] expanded.contains(y) implies set.contains(y) by {
            assert(expanded.to_set().contains(y));
        }
        assert forall|y: Seq<char>, z: Seq<char>|
            set.contains(y) && Set::<Seq<char>>::full().contains(z) && #[trigger] names::list_for(
                deps,
                y,
            ).contains(z) implies set.contains(z) by {
            closure::lemma_reach_step(deps, Set::full(), targets, y, z);
        }
        closure::lemma_closed_set_holds(deps, Set::full(), expanded, set, x);
    }
    if closure::reachable(deps, Set::full(), targets, x) {
        assert(set.contains(x));
        assert(expanded.to_set().contains(x));
        closure::lemma_reach_start(deps, Set::full(), expanded, x);
    }
}

/// Whether a target declares profiles and none of those asked for is among them.
pub open spec fn gated(v: SelectionView, t: Seq<char>) -> bool {
    &&& v.wanted.len() > 0
    &&& v.profiles.contains_key(t)
    &&& v.profiles[t].len() > 0
    &&& forall|p: Seq<char>| #[trigger] v.profiles[t].contains(p) ==> !v.wanted.contains(p)
}

/// Whether a selection starts from a target: it is one of the bake file, the profiles do not
/// gate it, and it is asked for where targets are named.
pub open spec fn starts_from(v: SelectionView, t: Seq<char>) -> bool {
    &&& v.all.contains(t)
    &&& !gated(v, t)
    &&& v.requested.len() == 0 || v.requested.contains(t)
}

proof fn lemma_left_by_profiles(v: SelectionView, t: Seq<char>)
    ensures
        super::after_profiles(v).contains(t) <==> v.all.contains(t) && !gated(v, t),
{
    names::lemma_filter_holds(v.all, |x: Seq<char>| super::active(v, x), t);
    let own = names::list_for(v.profiles, t);
    if v.wanted.len() > 0 {
        if super::active(v, t) && own.len() > 0 {
            let i: int = choose|i: int| 0 <= i < own.len() && v.wanted.contains(#[trigger] own[i]);
            assert(own.contains(own[i]));
        }
        if !super::active(v, t) {
            assert forall|p: Seq<char>| #[trigger] v.profiles[t].contains(
                p,
            ) implies !v.wanted.contains(p) by {
                let i: int = choose|i: int| 0 <= i < own.len() && own[i] == p;
                assert(!v.wanted.contains(own[i]));
            }
        }
    }
}

proof fn lemma_started(v: SelectionView, t: Seq<char>)
    ensures
        super::after_request(v).contains(t) <==> starts_from(v, t),
{
    lemma_left_by_profiles(v, t);
    let left = super::after_profiles(v);
    names::lemma_filter_holds(left, |x: Seq<char>| v.requested.to_set().contains(x), t);
    assert(v.requested.to_set().contains(t) <==> v.requested.contains(t));
}

proof fn lemma_kept(v: SelectionView, t: Seq<char>)
    ensures
        super::after_exclude(v).contains(t) <==> super::after_deps(v).contains(t)
            && !v.exclude.contains(t),
{
    let excluded = v.exclude.to_set();
    names::lemma_filter_holds(super::after_deps(v), |x: Seq<char>| !excluded.contains(x), t);
    assert(excluded.contains(t) <==> v.exclude.contains(t));
}

/// Where no targets are named, a target that declares any of the profiles asked for is selected,
/// unless it was to be left out: it does not matter which of its profiles that is.
pub proof fn law_any_declared_profile_selects(v: SelectionView, t: Seq<char>, p: Seq<char>)
    requires
        super::selection(v) is Ok,
        v.requested.len() == 0,
        v.all.contains(t),
        v.profiles.contains_key(t),
        v.profiles[t].contains(p),
        v.wanted.contains(p),
        !v.exclude.contains(t),
    ensures
        super::selection(v) matches Ok(o) && o.0.contains(t),
{
    assert(!gated(v, t));
    law_selection_starts_from_all(v, t);
}

/// A target that declares profiles, none of them asked for where some are, is not selected
/// without dependencies.
pub proof fn law_other_profiles_are_left_out(v: SelectionView, t: Seq<char>)
    requires
        !v.with_deps,
        v.wanted.len() > 0,
        v.profiles.contains_key(t),
        v.profiles[t].len() > 0,
        forall|p: Seq<char>| #[trigger] v.profiles[t].contains(p) ==> !v.wanted.contains(p),
    ensures
        super::selection(v) matches Ok(o) ==> !o.0.contains(t),
{
    lemma_kept(v, t);
    lemma_started(v, t);
}

/// Where no profiles are asked for none gates anything: without names every target is selected,
/// but for those to be left out.
pub proof fn law_everything_is_selected_by_default(v: SelectionView, t: Seq<char>)
    requires
        super::selection(v) is Ok,
        v.wanted.len() == 0,
        v.requested.len() == 0,
        v.all.contains(t),
        !v.exclude.contains(t),
    ensures
        super::selection(v) matches Ok(o) && o.0.contains(t),
{
    assert(!gated(v, t));
    law_selection_starts_from_all(v, t);
}

/// A target that is not asked for, where targets are named, is not selected without
/// dependencies.
pub proof fn law_only_requested_are_selected(v: SelectionView, t: Seq<char>)
    requires
        !v.with_deps,
        v.requested.len() > 0,
        !v.requested.contains(t),
    ensures
        super::selection(v) matches Ok(o) ==> !o.0.contains(t),
{
    lemma_kept(v, t);
    lemma_started(v, t);
}

/// Whatever a selection starts from is selected, unless it was to be left out; without
/// dependencies nothing else is.
pub proof fn law_selection_starts_from_all(v: SelectionView, t: Seq<char>)
    ensures
        super::selection(v) matches Ok(o) ==> {
            &&& starts_from(v, t) && !v.exclude.contains(t) ==> o.0.contains(t)
            &&& !v.with_deps && o.0.contains(t) ==> starts_from(v, t) && !v.exclude.contains(t)
        },
{
    lemma_kept(v, t);
    lemma_started(v, t);
    if v.with_deps {
        lemma_deps_listed(v);
        lemma_with_deps(v, super::after_deps(v), t);
        if starts_from(v, t) {
            closure::lemma_reach_start(v.deps, v.all.to_set(), super::after_request(v), t);
        }
    }
}

/// With dependencies nothing is added but what the targets that a selection starts from lead to:
/// each name of the way is in the list of the one before it.
pub proof fn law_only_dependencies_are_added(v: SelectionView, t: Seq<char>) -> (path: Seq<
    Seq<char>,
>)
    requires
        v.with_deps,
        super::selection(v) matches Ok(o) && o.0.contains(t),
    ensures
        path.len() > 0,
        starts_from(v, path[0]),
        path.last() == t,
        forall|i: int|
            0 <= i < path.len() - 1 ==> v.deps.contains_key(path[i]) && v.deps[#[trigger] path[i]].contains(
                path[i + 1],
            ) && v.all.contains(path[i + 1]),
{
    lemma_kept(v, t);
    lemma_deps_listed(v);
    lemma_with_deps(v, super::after_deps(v), t);
    let from = super::after_request(v);
    let path = choose|path: Seq<Seq<char>>| #[trigger]
        closure::leads_along(v.deps, v.all.to_set(), path) && path.len() > 0 && from.contains(
            path[0],
        ) && path.last() == t;
    lemma_started(v, path[0]);
    assert forall|i: int| 0 <= i < path.len() - 1 implies v.deps.contains_key(path[i])
        && v.deps[#[trigger] path[i]].contains(path[i + 1]) && v.all.contains(path[i + 1]) by {
        assert(names::list_for(v.deps, path[i]).contains(path[i + 1]));
        assert(v.all.to_set().contains(path[i + 1]));
    }
    path
}

/// Everything that a target leads to is selected with it, however long the way: even over
/// targets that are to be left out themselves.
pub proof fn law_dependencies_are_followed(v: SelectionView, path: Seq<Seq<char>>)
    requires
        v.with_deps,
        super::selection(v) is Ok,
        path.len() > 0,
        starts_from(v, path[0]),
        forall|i: int|
            0 <= i < path.len() - 1 ==> v.deps.contains_key(path[i]) && v.deps[#[trigger] path[i]].contains(
                path[i + 1],
            ) && v.all.contains(path[i + 1]),
        !v.exclude.contains(path.last()),
    ensures
        super::selection(v) matches Ok(o) && o.0.contains(path.last()),
{
    let t = path.last();
    let from = super::after_request(v);
    lemma_kept(v, t);
    lemma_started(v, path[0]);
    assert forall|i: int| 0 <= i < path.len() - 1 implies names::list_for(
        v.deps,
        #[trigger] path[i],
    ).contains(path[i + 1]) && v.all.to_set().contains(path[i + 1]) by {
        assert(v.deps[path[i]].contains(path[i + 1]));
    }
    assert(closure::leads_along(v.deps, v.all.to_set(), path));
    assert(closure::reachable(v.deps, v.all.to_set(), from, t));
    lemma_deps_listed(v);
    lemma_with_deps(v, super::after_deps(v), t);
}

/// What is selected of targets in order is in order, each once.
pub proof fn law_selection_is_in_order(v: SelectionView)
    requires
        order::ascending(v.all),
    ensures
        super::selection(v) matches Ok(o) ==> order::ascending(o.0),
{
    let excluded = v.exclude.to_set();
    let asked = v.requested.to_set();
    if v.with_deps {
        lemma_deps_listed(v);
    } else {
        order::lemma_ascending_filter(v.all, |x: Seq<char>| super::active(v, x));
        order::lemma_ascending_filter(super::after_profiles(v), |x: Seq<char>| asked.contains(x));
    }
    order::lemma_ascending_filter(super::after_deps(v), |x: Seq<char>| !excluded.contains(x));
}

proof fn lemma_first_not_in(list: Seq<Seq<char>>, set: Set<Seq<char>>)
    ensures
        super::first_not_in(list, set) <= list.len(),
        forall|j: int|
            0 <= j < super::first_not_in(list, set) ==> set.contains(#[trigger] list[j]),
        super::first_not_in(list, set) < list.len() ==> !set.contains(
            list[super::first_not_in(list, set) as int],
        ),
    decreases list.len(),
{
    if list.len() > 0 && set.contains(list[0]) {
        lemma_first_not_in(list.skip(1), set);
        assert forall|j: int| 0 <= j < super::first_not_in(list, set) implies set.contains(
            #[trigger] list[j],
        ) by {
            if j > 0 {
                assert(list.skip(1)[j - 1] == list[j]);
            }
        }
    }
}

/// The reason of an error is a true one, and names what is at fault: a profile asked for that no
/// service declares, a target asked for that is not in the bake file, targets asked for that
/// their profiles gate, or that nothing is left. A selection is made only where none of these
/// holds.
pub proof fn law_errors_tell_the_truth(v: SelectionView, p: Seq<char>, t: Seq<char>)
    ensures
        match super::selection(v) {
            Err(SelectionErrorView::UnknownProfile { profile, .. }) => v.wanted.contains(profile) && (
            v.profiles.contains_key(t) ==> !v.profiles[t].contains(profile)),
            Err(SelectionErrorView::UnknownTarget { target, available, .. }) => v.requested.contains(
                target,
            ) && !v.all.contains(target) && available == v.all,
            Err(SelectionErrorView::GatedOut { targets, profiles }) => targets.len() > 0 && profiles
                == v.wanted && (targets.contains(t) <==> v.requested.contains(t) && gated(v, t)),
            Err(SelectionErrorView::Empty) => starts_from(v, t) ==> v.exclude.contains(t),
            Ok(_) => {
                &&& v.wanted.contains(p) ==> exists|s: Seq<char>|
                    v.profiles.contains_key(s) && #[trigger] v.profiles[s].contains(p)
                &&& v.requested.contains(t) ==> v.all.contains(t) && !gated(v, t)
            },
        },
{
    let shown = super::declared(v.profiles);
    let known = v.all.to_set();
    let left = super::after_profiles(v);
    let out = super::those_not_in(v.requested, left.to_set());
    lemma_first_not_in(v.wanted, shown);
    lemma_first_not_in(v.requested, known);
    let undeclared = super::first_not_in(v.wanted, shown) as int;
    let unknown = super::first_not_in(v.requested, known) as int;
    names::lemma_filter_holds(v.requested, |x: Seq<char>| !left.to_set().contains(x), t);
    assert(left.to_set().contains(t) <==> left.contains(t));
    lemma_left_by_profiles(v, t);
    if undeclared < v.wanted.len() {
        assert(v.wanted.contains(v.wanted[undeclared]));
        assert(!shown.contains(v.wanted[undeclared]));
    } else if unknown < v.requested.len() {
        assert(v.requested.contains(v.requested[unknown]));
        assert(!known.contains(v.requested[unknown]));
    } else {
        if v.requested.contains(t) {
            let i: int = choose|i: int| 0 <= i < v.requested.len() && v.requested[i] == t;
            assert(known.contains(v.requested[i]));
        }
        if out.len() == 0 {
            assert(!out.contains(t));
            lemma_kept(v, t);
            lemma_started(v, t);
            if v.with_deps && starts_from(v, t) {
                lemma_deps_listed(v);
                lemma_with_deps(v, super::after_deps(v), t);
                closure::lemma_reach_start(v.deps, known, super::after_request(v), t);
            }
            if super::after_exclude(v).len() == 0 {
                assert(!super::after_exclude(v).contains(t));
            }
        }
        if v.wanted.contains(p) {
            let i: int = choose|i: int| 0 <= i < v.wanted.len() && v.wanted[i] == p;
            assert(shown.contains(v.wanted[i]));
        }
    }
}

/// A profile that no service declares is an error, and so is a target asked for that its profiles
/// gate: neither is passed over.
pub proof fn law_faulty_requests_fail(v: SelectionView, p: Seq<char>, t: Seq<char>)
    requires
        (v.wanted.contains(p) && forall|s: Seq<char>| #[trigger]
            v.profiles.contains_key(s) ==> !v.profiles[s].contains(p)) || (v.requested.contains(t)
            && gated(v, t)),
    ensures
        super::selection(v) is Err,
{
    law_errors_tell_the_truth(v, p, t);
}

/// A warning of what is to be left out but is no target, or of what is left out of the
/// dependencies of a selected target, where these are dependencies of builds.
pub open spec fn warned_of(v: SelectionView, chosen: Seq<Seq<char>>, w: Seq<char>) -> bool {
    ||| exists|x: Seq<char>|
        v.exclude.contains(x) && !v.all.contains(x) && w == #[trigger] unmatched_warning(x)
    ||| v.build_deps && exists|t: Seq<char>, d: Seq<char>|
        chosen.contains(t) && v.deps.contains_key(t) && v.deps[t].contains(d)
            && v.exclude.contains(d) && w == #[trigger] stale_warning(t, d)
}

/// The warning that a name to be left out is that of no target.
pub open spec fn unmatched_warning(x: Seq<char>) -> Seq<char> {
    "--exclude '"@ + x + "' matches no target"@
}

/// The warning that `d`, on which `t` depends, is left out.
pub open spec fn stale_warning(t: Seq<char>, d: Seq<char>) -> Seq<char> {
    "'"@ + t + "' depends on excluded target '"@ + d + "' — it will build against whatever '"@ + d
        + "' image already exists on the node"@
}

proof fn lemma_unmatched(exclude: Seq<Seq<char>>, known: Set<Seq<char>>, w: Seq<char>)
    ensures
        super::unmatched_warnings(exclude, known).contains(w) <==> exists|x: Seq<char>|
            exclude.contains(x) && !known.contains(x) && w == #[trigger] unmatched_warning(x),
    decreases exclude.len(),
{
    if exclude.len() > 0 {
        let short = exclude.drop_last();
        let last = exclude.last();
        lemma_unmatched(short, known, w);
        names::lemma_push_contains(
            super::unmatched_warnings(short, known),
            unmatched_warning(last),
            w,
        );
        assert(exclude =~= short.push(last));
        if exists|x: Seq<char>|
            exclude.contains(x) && !known.contains(x) && w == #[trigger] unmatched_warning(x) {
            let x = choose|x: Seq<char>|
                exclude.contains(x) && !known.contains(x) && w == #[trigger] unmatched_warning(x);
            names::lemma_push_contains(short, last, x);
        }
        if super::unmatched_warnings(short, known).contains(w) {
            let x = choose|x: Seq<char>|
                short.contains(x) && !known.contains(x) && w == #[trigger] unmatched_warning(x);
            names::lemma_push_contains(short, last, x);
        }
        names::lemma_push_contains(short, last, last);
        if !known.contains(last) && w == unmatched_warning(last) {
            assert(exclude.contains(last));
        }
    }
}

proof fn lemma_stale(
    t: Seq<char>,
    deps: Seq<Seq<char>>,
    excluded: Set<Seq<char>>,
    w: Seq<char>,
)
    ensures
        super::stale_warnings(t, deps, excluded).contains(w) <==> exists|d: Seq<char>|
            deps.contains(d) && excluded.contains(d) && w == #[trigger] stale_warning(t, d),
    decreases deps.len(),
{
    if deps.len() > 0 {
        let short = deps.drop_last();
        let last = deps.last();
        lemma_stale(t, short, excluded, w);
        names::lemma_push_contains(
            super::stale_warnings(t, short, excluded),
            stale_warning(t, last),
            w,
        );
        assert(deps =~= short.push(last));
        if exists|d: Seq<char>|
            deps.contains(d) && excluded.contains(d) && w == #[trigger] stale_warning(t, d) {
            let d = choose|d: Seq<char>|
                deps.contains(d) && excluded.contains(d) && w == #[trigger] stale_warning(t, d);
            names::lemma_push_contains(short, last, d);
        }
        if super::stale_warnings(t, short, excluded).contains(w) {
            let d = choose|d: Seq<char>|
                short.contains(d) && excluded.contains(d) && w == #[trigger] stale_warning(t, d);
            names::lemma_push_contains(short, last, d);
        }
        names::lemma_push_contains(short, last, last);
        if excluded.contains(last) && w == stale_warning(t, last) {
            assert(deps.contains(last));
        }
    }
}

proof fn lemma_all_stale(
    targets: Seq<Seq<char>>,
    deps: Map<Seq<char>, Seq<Seq<char>>>,
    excluded: Set<Seq<char>>,
    w: Seq<char>,
)
    ensures
        super::all_stale_warnings(targets, deps, excluded).contains(w) <==> exists|
            t: Seq<char>,
            d: Seq<char>,
        |
            targets.contains(t) && deps.contains_key(t) && deps[t].contains(d)
                && excluded.contains(d) && w == #[trigger] stale_warning(t, d),
    decreases targets.len(),
{
    if targets.len() > 0 {
        let short = targets.drop_last();
        let last = targets.last();
        let own = names::list_for(deps, last);
        lemma_all_stale(short, deps, excluded, w);
        lemma_stale(last, own, excluded, w);
        names::lemma_sum_contains(
            super::all_stale_warnings(short, deps, excluded),
            super::stale_warnings(last, own, excluded),
            w,
        );
        assert(targets =~= short.push(last));
        if exists|t: Seq<char>, d: Seq<char>|
            targets.contains(t) && deps.contains_key(t) && deps[t].contains(d)
                && excluded.contains(d) && w == #[trigger] stale_warning(t, d) {
            let (t, d) = choose|t: Seq<char>, d: Seq<char>|
                targets.contains(t) && deps.contains_key(t) && deps[t].contains(d)
                    && excluded.contains(d) && w == #[trigger] stale_warning(t, d);
            names::lemma_push_contains(short, last, t);
            if t == last {
                assert(own.contains(d) && w == stale_warning(last, d));
            }
        }
        if super::all_stale_warnings(short, deps, excluded).contains(w) {
            let (t, d) = choose|t: Seq<char>, d: Seq<char>|
                short.contains(t) && deps.contains_key(t) && deps[t].contains(d)
                    && excluded.contains(d) && w == #[trigger] stale_warning(t, d);
            names::lemma_push_contains(short, last, t);
            assert(targets.contains(t) && w == stale_warning(t, d));
        }
        if super::stale_warnings(last, own, excluded).contains(w) {
            let d = choose|d: Seq<char>|
                own.contains(d) && excluded.contains(d) && w == #[trigger] stale_warning(last, d);
            names::lemma_push_contains(short, last, last);
            assert(targets.contains(last) && deps.contains_key(last) && deps[last].contains(d) && w
                == stale_warning(last, d));
        }
    }
}

/// A selection warns of each name to be left out that is no target and, where the dependencies
/// are those of builds, of each dependency of a selected target that is left out; and of nothing
/// else.
pub proof fn law_warnings_are_due(v: SelectionView, w: Seq<char>)
    ensures
        super::selection(v) matches Ok(o) ==> (o.1.contains(w) <==> warned_of(v, o.0, w)),
{
    if super::selection(v) is Ok {
        let chosen = super::after_exclude(v);
        let known = v.all.to_set();
        let excluded = v.exclude.to_set();
        let a = super::unmatched_warnings(v.exclude, known);
        let b = if v.build_deps {
            super::all_stale_warnings(chosen, v.deps, excluded)
        } else {
            Seq::empty()
        };
        lemma_unmatched(v.exclude, known, w);
        lemma_all_stale(chosen, v.deps, excluded, w);
        names::lemma_sum_contains(a, b, w);
        assert(forall|x: Seq<char>| known.contains(x) <==> v.all.contains(x));
        assert(forall|x: Seq<char>| excluded.contains(x) <==> v.exclude.contains(x));
        if a.contains(w) {
            let x = choose|x: Seq<char>|
                v.exclude.contains(x) && !known.contains(x) && w == #[trigger] unmatched_warning(x);
            assert(!v.all.contains(x));
        }
        if exists|x: Seq<char>|
            v.exclude.contains(x) && !v.all.contains(x) && w == #[trigger] unmatched_warning(x) {
            let x = choose|x: Seq<char>|
                v.exclude.contains(x) && !v.all.contains(x) && w == #[trigger] unmatched_warning(x);
            assert(!known.contains(x));
        }
    }
}

/// The extension decides whether a file is a bake file where it can, whatever the file holds; a
/// JSON file is one by the `target` object that it declares, and a file without an extension, or
/// with another one, by a target block.
pub proof fn law_bake_files_are_told_apart(
    dir: Seq<char>,
    stem: Seq<char>,
    contents: Option<Seq<char>>,
)
    requires
        !stem.contains('/'),
        stem.len() > 0,
    ensures
        super::hcl_bake_file(path::join_path(dir, stem + ".hcl"@), contents),
        !super::hcl_bake_file(path::join_path(dir, stem + ".yml"@), contents),
        !super::hcl_bake_file(path::join_path(dir, stem + ".yaml"@), contents),
        super::hcl_bake_file(path::join_path(dir, stem + ".json"@), contents) <==> (
        contents matches Some(c) && json::json_bake_text(c)),
        !stem.skip(1).contains('.') && stem != seq!['.'] ==> (super::hcl_bake_file(
            path::join_path(dir, stem),
            contents,
        ) <==> (contents matches Some(c) && super::has_target_block(text::lines(c)))),
{
    reveal_strlit(".hcl");
    reveal_strlit(".yml");
    reveal_strlit(".yaml");
    reveal_strlit(".json");
    reveal_strlit("hcl");
    reveal_strlit("yml");
    reveal_strlit("yaml");
    reveal_strlit("json");
    assert(stem + ".hcl"@ =~= stem + seq!['.'] + "hcl"@);
    assert(stem + ".yml"@ =~= stem + seq!['.'] + "yml"@);
    assert(stem + ".yaml"@ =~= stem + seq!['.'] + "yaml"@);
    assert(stem + ".json"@ =~= stem + seq!['.'] + "json"@);
    path::law_extension_follows_the_last_dot(dir, stem, "hcl"@);
    path::law_extension_follows_the_last_dot(dir, stem, "yml"@);
    path::law_extension_follows_the_last_dot(dir, stem, "yaml"@);
    path::law_extension_follows_the_last_dot(dir, stem, "json"@);
    assert("hcl"@[0] == 'h' && "yml"@[0] == 'y' && "yaml"@.len() == 4 && "yaml"@[0] == 'y');
    assert("hcl"@.len() == 3 && "yml"@.len() == 3);
    assert("json"@[0] == 'j' && "json"@.len() == 4);
}

/// A target block is found wherever it opens: on a line that starts with `target "`, with a brace
/// on that line or at the start of the next, behind white space. A block that is indented, as one
/// that is quoted in a compose file is, is not taken for one.
pub proof fn law_target_blocks_stand_at_the_margin(
    lines: Seq<Seq<char>>,
    i: int,
    name: Seq<char>,
    gap: Seq<char>,
    rest: Seq<char>,
)
    requires
        forall|j: int| 0 <= j < gap.len() ==> text::white(#[trigger] gap[j]),
    ensures
        0 <= i < lines.len() && lines[i] == "target \""@ + name + "\" {"@ + rest
            ==> super::has_target_block(lines),
        0 <= i < lines.len() - 1 && lines[i] == "target \""@ + name && lines[i + 1] == gap + (
        seq!['{'] + rest) ==> super::has_target_block(lines),
        (forall|j: int|
            0 <= j < lines.len() ==> !"target \""@.is_prefix_of(#[trigger] lines[j]))
            ==> !super::has_target_block(lines),
        (forall|j: int, k: int|
            0 <= j < lines.len() && 0 <= k < lines[j].len() ==> #[trigger] lines[j][k] != '{')
            ==> !super::has_target_block(lines),
{
    reveal_strlit("\" {");
    reveal_strlit("{");
    let head = "target \""@;
    if 0 <= i < lines.len() && lines[i] == head + name + "\" {"@ + rest {
        let line = lines[i];
        assert(line.take(head.len() as int) =~= head);
        assert(line[head.len() + name.len() + 2int] == '{');
        assert(line.contains('{'));
        assert(super::opens_target(lines, i));
    }
    if 0 <= i < lines.len() - 1 && lines[i] == head + name && lines[i + 1] == gap + (seq!['{']
        + rest) {
        assert(lines[i].take(head.len() as int) =~= head);
        text::lemma_trim_gap(gap, seq!['{'] + rest);
        assert(text::trim_start(seq!['{'] + rest) == seq!['{'] + rest);
        assert((seq!['{'] + rest).take(1) =~= "{"@);
        assert(super::opens_target(lines, i));
    }
    if forall|j: int, k: int|
        0 <= j < lines.len() && 0 <= k < lines[j].len() ==> #[trigger] lines[j][k] != '{' {
        assert forall|j: int| !#[trigger] super::opens_target(lines, j) by {
            if super::opens_target(lines, j) {
                if lines[j].contains('{') {
                    let k: int = choose|k: int| 0 <= k < lines[j].len() && lines[j][k] == '{';
                    assert(lines[j][k] != '{');
                } else {
                    let next = lines[j + 1];
                    text::lemma_trim_edges(next);
                    let n: int = choose|n: int|
                        0 <= n <= next.len() && text::trim_start(next) == next.skip(n);
                    assert(text::trim_start(next)[0] == "{"@[0]);
                    assert(lines[j + 1][n] == '{');
                }
            }
        }
    }
}

/// The errors name what is at fault, and what could have been meant instead: each profile or target
/// that there is, and the closest target.
pub proof fn law_error_texts_name_the_fault(
    name: Seq<char>,
    available: Seq<Seq<char>>,
    meant: Option<Seq<char>>,
    targets: Seq<Seq<char>>,
    i: int,
)
    ensures
        ({
            let profile = super::error_text(
                SelectionErrorView::UnknownProfile { profile: name, available },
            );
            let target = super::error_text(
                SelectionErrorView::UnknownTarget { target: name, available, meant },
            );
            let gated = super::error_text(
                SelectionErrorView::GatedOut { targets, profiles: available },
            );
            &&& text::occurs(profile, name)
            &&& text::occurs(target, name)
            &&& 0 <= i < available.len() ==> text::occurs(profile, available[i])
            &&& 0 <= i < available.len() ==> text::occurs(target, available[i])
            &&& 0 <= i < available.len() ==> text::occurs(gated, available[i])
            &&& 0 <= i < targets.len() ==> text::occurs(gated, targets[i])
            &&& meant matches Some(m) ==> text::occurs(target, "did you mean '"@ + m + "'?"@)
        }),
{
    let list = text::join(available, ", "@);
    let asked = text::join(targets, ", "@);
    // A profile.
    let a = "no service declares profile '"@;
    let tail = if available.len() == 0 {
        ""@
    } else {
        "\n  available profiles: "@ + list
    };
    text::lemma_occurs_between(a, name, "'"@ + tail);
    assert(a + name + ("'"@ + tail) =~= a + name + "'"@ + tail);
    // A target.
    let b = "unknown target '"@;
    let c = "'\n  available: "@;
    let hint = match meant {
        Some(m) => "\n  did you mean '"@ + m + "'?"@,
        None => ""@,
    };
    text::lemma_occurs_between(b, name, c + list + hint);
    assert(b + name + (c + list + hint) =~= b + name + c + list + hint);
    if meant is Some {
        reveal_strlit("\n  did you mean '");
        reveal_strlit("did you mean '");
        let m = meant->0;
        let piece = "did you mean '"@ + m + "'?"@;
        assert(hint =~= seq!['\n', ' ', ' '] + piece);
        text::lemma_occurs_between(b + name + c + list + seq!['\n', ' ', ' '], piece, Seq::empty());
        assert(b + name + c + list + seq!['\n', ' ', ' '] + piece + Seq::<char>::empty() =~= b + name
            + c + list + hint);
    }
    // Targets that profiles gate.
    let d = "target(s) "@;
    let e = " are not in profile(s) "@;
    if 0 <= i < available.len() {
        text::lemma_join_holds(available, ", "@, i);
        text::lemma_occurs_later(a + name + "'"@ + "\n  available profiles: "@, list, available[i]);
        assert(a + name + "'"@ + "\n  available profiles: "@ + list =~= a + name + "'"@ + tail);
        text::lemma_occurs_later(b + name + c, list, available[i]);
        text::lemma_occurs_earlier(b + name + c + list, hint, available[i]);
        text::lemma_occurs_later(d + asked + e, list, available[i]);
    }
    if 0 <= i < targets.len() {
        text::lemma_join_holds(targets, ", "@, i);
        text::lemma_occurs_later(d, asked, targets[i]);
        text::lemma_occurs_earlier(d + asked, e + list, targets[i]);
        assert(d + asked + (e + list) =~= d + asked + e + list);
    }
}

/// For an unknown target the closest known one is suggested, if one is close enough; for an unknown
/// profile those that services declare are named, in order.
pub proof fn law_errors_suggest_what_there_is(v: SelectionView, p: Seq<char>)
    requires
        v.profiles.dom().finite(),
    ensures
        match super::selection(v) {
            Err(SelectionErrorView::UnknownTarget { target, meant, .. }) => meant
                == typo::suggested(target, v.all),
            Err(SelectionErrorView::UnknownProfile { available, .. }) => order::ascending(available)
                && (available.contains(p) <==> exists|s: Seq<char>|
                v.profiles.contains_key(s) && #[trigger] v.profiles[s].contains(p)),
            _ => true,
        },
{
    let shown = super::declared(v.profiles);
    lemma_declared_finite(v.profiles);
    order::lemma_in_order_exists(shown);
    let list = order::in_order(shown);
    assert(list.contains(p) <==> list.to_set().contains(p));
}

proof fn lemma_declared_finite(profiles: Map<Seq<char>, Seq<Seq<char>>>)
    requires
        profiles.dom().finite(),
    ensures
        super::declared(profiles).finite(),
    decreases profiles.dom().len(),
{
    if profiles.dom().len() == 0 {
        assert(profiles.dom() =~= Set::<Seq<char>>::empty());
        assert(super::declared(profiles) =~= Set::<Seq<char>>::empty());
    } else {
        let k = profiles.dom().choose();
        assert(profiles.dom().contains(k)) by {
            if forall|x: Seq<char>| !profiles.dom().contains(x) {
                assert(profiles.dom() =~= Set::<Seq<char>>::empty());
            }
        }
        let less = profiles.remove(k);
        lemma_declared_finite(less);
        let own = profiles[k].to_set();
        vstd::seq_lib::seq_to_set_is_finite(profiles[k]);
        let all = super::declared(less).union(own);
        assert forall|p: Seq<char>| super::declared(profiles).contains(p) implies all.contains(p) by {
            let s = choose|s: Seq<char>|
                profiles.contains_key(s) && #[trigger] profiles[s].contains(p);
            if s != k {
                assert(less.contains_key(s) && less[s].contains(p));
            }
        }
        vstd::set_lib::lemma_set_subset_finite(all, super::declared(profiles));
    }
}

}
