//! What is taken from the bake file, and what is not.
use crate::bakeprint;
use crate::bakeprint::BakeTarget;
use crate::closure;
use crate::json;
use crate::names;
use crate::order;
use crate::text;
use vstd::prelude::*;

verus! {

/// The dependencies of an HCL bake file decide the order of builds, those of each target as they
/// are stated; those of a compose file decide nothing, and those of what is not built neither.
pub proof fn law_only_build_dependencies_order_builds(
    targets: Seq<Seq<char>>,
    deps: Map<Seq<char>, Seq<Seq<char>>>,
    t: Seq<char>,
)
    ensures
        names::list_for(super::build_deps(targets, deps, true), t) == if targets.contains(t) {
            names::list_for(deps, t)
        } else {
            Seq::empty()
        },
        names::list_for(super::build_deps(targets, deps, false), t).len() == 0,
{
    assert(targets.to_set().contains(t) <==> targets.contains(t));
}

/// Each target is built for the platforms that the bake file gives it; where it gives none, for
/// any.
pub proof fn law_platforms_come_from_the_bake_file(
    targets: Seq<Seq<char>>,
    print: Map<Seq<char>, BakeTarget>,
    t: Seq<char>,
)
    ensures
        names::list_for(super::stated_platforms(targets, print), t) == if targets.contains(t)
            && print.contains_key(t) {
            text::texts(print[t].platforms@)
        } else {
            Seq::empty()
        },
        super::stated_platforms(targets, print).contains_key(t) ==> names::list_for(
            super::stated_platforms(targets, print),
            t,
        ).len() > 0,
{
    if targets.contains(t) && print.contains_key(t) && print[t].platforms@.len() == 0 {
        assert(text::texts(print[t].platforms@) =~= Seq::<Seq<char>>::empty());
    }
}

/// The caches of a target, to read from or to write to, are those that the bake file gives it. A
/// target with either is listed, and no other.
pub proof fn law_caches_come_from_the_bake_file(
    targets: Seq<Seq<char>>,
    print: Map<Seq<char>, BakeTarget>,
    t: Seq<char>,
)
    ensures
        ({
            let stated = super::stated_caches(targets, print);
            &&& stated.contains_key(t) ==> targets.contains(t) && print.contains_key(t)
            &&& targets.contains(t) && print.contains_key(t) && print[t].cache_from@.len() > 0
                ==> stated.contains_key(t)
            &&& targets.contains(t) && print.contains_key(t) && print[t].cache_to@.len() > 0
                ==> stated.contains_key(t)
            &&& targets.contains(t) && print.contains_key(t) && print[t].cache_from@.len() == 0
                && print[t].cache_to@.len() == 0 ==> !stated.contains_key(t)
            &&& stated.contains_key(t) ==> stated[t].0 == bakeprint::entry_views(
                print[t].cache_from@,
            ) && stated[t].1 == bakeprint::entry_views(print[t].cache_to@)
        }),
{
}

/// The bake file is asked for the targets that are named; with dependencies, where they are those
/// of builds, for everything that these lead to as well, in order, and for nothing else.
pub proof fn law_dependencies_are_asked_for(
    targets: Seq<Seq<char>>,
    deps: Map<Seq<char>, Seq<Seq<char>>>,
    x: Seq<char>,
    d: Seq<char>,
)
    requires
        deps.dom().finite(),
    ensures
        super::wanted_targets(targets, deps, false, true) == targets,
        super::wanted_targets(targets, deps, false, false) == targets,
        super::wanted_targets(targets, deps, true, false) == targets,
        ({
            let all = super::wanted_targets(targets, deps, true, true);
            &&& order::ascending(all)
            &&& targets.contains(x) ==> all.contains(x)
            &&& all.contains(x) && deps.contains_key(x) && deps[x].contains(d) ==> all.contains(d)
            &&& all.contains(x) ==> closure::reachable(deps, Set::full(), targets, x)
        }),
{
    let set = closure::reach(deps, Set::full(), targets);
    let all = super::wanted_targets(targets, deps, true, true);
    closure::lemma_reach_finite(deps, Set::full(), targets);
    order::lemma_in_order_exists(set);
    assert(all.contains(x) <==> all.to_set().contains(x));
    assert(all.contains(d) <==> all.to_set().contains(d));
    if targets.contains(x) {
        closure::lemma_reach_start(deps, Set::full(), targets, x);
    }
    if all.contains(x) && deps.contains_key(x) && deps[x].contains(d) {
        closure::lemma_reach_step(deps, Set::full(), targets, x, d);
    }
}

/// The active builder is the text under `Name`, where there is one and it is not empty.
pub proof fn law_active_builder_is_named(doc: json::JsonDocView, i: int, name: Seq<char>)
    requires
        doc is Members,
        0 <= i < doc->Members_0.len(),
        doc->Members_0[i].0 == "Name"@,
        forall|j: int| 0 <= j < i ==> (#[trigger] doc->Members_0[j]).0 != "Name"@,
    ensures
        doc->Members_0[i].1 == json::JsonScalarView::Text(name) && name.len() > 0
            ==> super::builder_named(doc) == Some(name),
        doc->Members_0[i].1 == json::JsonScalarView::Text(Seq::empty()) || !(
        doc->Members_0[i].1 is Text) ==> super::builder_named(doc) is None,
{
    json::law_first_member_counts(doc->Members_0, "Name"@, i);
}

/// Of the targets, those that depend on something and those that depend on nothing make up all.
pub proof fn law_independent_targets_depend_on_nothing(
    targets: Seq<Seq<char>>,
    deps: Map<Seq<char>, Seq<Seq<char>>>,
)
    ensures
        super::independent(targets, deps) <= targets.len(),
        super::independent(targets, deps) == targets.len() <==> forall|i: int|
            0 <= i < targets.len() ==> names::list_for(deps, #[trigger] targets[i]).len() == 0,
        super::independent(targets, deps) == 0 <==> forall|i: int|
            0 <= i < targets.len() ==> names::list_for(deps, #[trigger] targets[i]).len() > 0,
    decreases targets.len(),
{
    if targets.len() > 0 {
        let short = targets.drop_last();
        law_independent_targets_depend_on_nothing(short, deps);
        assert forall|i: int| 0 <= i < short.len() implies #[trigger] short[i] == targets[i] by {}
        let last = names::list_for(deps, targets[targets.len() - 1]).len();
        if super::independent(targets, deps) == targets.len() {
            assert forall|i: int| 0 <= i < targets.len() implies names::list_for(
                deps,
                #[trigger] targets[i],
            ).len() == 0 by {
                if i < short.len() {
                    assert(names::list_for(deps, short[i]).len() == 0);
                }
            }
        }
        if forall|i: int|
            0 <= i < targets.len() ==> names::list_for(deps, #[trigger] targets[i]).len() == 0 {
            assert(last == 0);
            assert forall|i: int| 0 <= i < short.len() implies names::list_for(
                deps,
                #[trigger] short[i],
            ).len() == 0 by {
                assert(names::list_for(deps, targets[i]).len() == 0);
            }
        }
        if super::independent(targets, deps) == 0 {
            assert forall|i: int| 0 <= i < targets.len() implies names::list_for(
                deps,
                #[trigger] targets[i],
            ).len() > 0 by {
                if i < short.len() {
                    assert(names::list_for(deps, short[i]).len() > 0);
                }
            }
        }
        if forall|i: int|
            0 <= i < targets.len() ==> names::list_for(deps, #[trigger] targets[i]).len() > 0 {
            assert(last > 0);
            assert forall|i: int| 0 <= i < short.len() implies names::list_for(
                deps,
                #[trigger] short[i],
            ).len() > 0 by {
                assert(names::list_for(deps, targets[i]).len() > 0);
            }
        }
    }
}

proof fn lemma_list_lines(
    keys: Seq<Seq<char>>,
    m: Map<Seq<char>, Seq<Seq<char>>>,
    word: Seq<char>,
    t: Seq<char>,
)
    requires
        keys.contains(t),
        m[t].len() > 0,
    ensures
        super::list_lines(keys, m, word).contains(
            "  "@ + t + word + text::join(m[t], ", "@) + "]"@,
        ),
    decreases keys.len(),
{
    let short = keys.drop_last();
    let last = keys.last();
    let line = |k: Seq<char>| "  "@ + k + word + text::join(m[k], ", "@) + "]"@;
    let before = super::list_lines(short, m, word);
    names::lemma_push_contains(before, line(last), line(t));
    assert(keys =~= short.push(last));
    names::lemma_push_contains(short, last, t);
    if short.contains(t) {
        lemma_list_lines(short, m, word, t);
    }
}

proof fn lemma_cache_lines(
    keys: Seq<Seq<char>>,
    caches: Map<Seq<char>, super::CacheViews>,
    t: Seq<char>,
)
    requires
        keys.contains(t),
    ensures
        super::cache_lines(keys, caches).contains(
            "    "@ + t + " → ["@ + text::join(super::cache_texts(caches[t]), "; "@) + "]"@,
        ),
    decreases keys.len(),
{
    let short = keys.drop_last();
    let last = keys.last();
    let line = |k: Seq<char>|
        "    "@ + k + " → ["@ + text::join(super::cache_texts(caches[k]), "; "@) + "]"@;
    names::lemma_push_contains(super::cache_lines(short, caches), line(last), line(t));
    assert(keys =~= short.push(last));
    names::lemma_push_contains(short, last, t);
    if short.contains(t) {
        lemma_cache_lines(short, caches, t);
    }
}

/// Before the builds it is said how many targets there are and, of each, what it depends on, which
/// platforms it asks for and, with a registry, which caches of its own it keeps.
pub proof fn law_report_tells_of_each_target(
    targets: Seq<Seq<char>>,
    deps: Map<Seq<char>, Seq<Seq<char>>>,
    platforms: Map<Seq<char>, Seq<Seq<char>>>,
    caches: Map<Seq<char>, super::CacheViews>,
    with_registry: bool,
    t: Seq<char>,
)
    requires
        deps.dom().finite(),
        platforms.dom().finite(),
        caches.dom().finite(),
    ensures
        ({
            let lines = super::target_report(targets, deps, platforms, caches, with_registry);
            &&& text::occurs(lines[0], text::decimal(targets.len()))
            &&& targets.contains(t) && deps.contains_key(t) && deps[t].len() > 0 ==> lines.contains(
                "  "@ + t + " → depends on ["@ + text::join(deps[t], ", "@) + "]"@,
            )
            &&& platforms.contains_key(t) && platforms[t].len() > 0 ==> lines.contains(
                "  "@ + t + " → platform ["@ + text::join(platforms[t], ", "@) + "]"@,
            )
            &&& with_registry && caches.contains_key(t) ==> lines.contains(
                "    "@ + t + " → ["@ + text::join(super::cache_texts(caches[t]), "; "@) + "]"@,
            )
        }),
{
    let first = seq![super::targets_line(targets, deps)];
    let n = super::independent(targets, deps);
    let d = if n < targets.len() {
        super::list_lines(order::in_order(deps.dom()), deps, " → depends on ["@)
    } else {
        Seq::empty()
    };
    let p = super::list_lines(order::in_order(platforms.dom()), platforms, " → platform ["@);
    let head = seq!["  registry cache added alongside the bake file's own entries for:"@];
    let own = super::cache_lines(order::in_order(caches.dom()), caches);
    let c = if with_registry && caches.dom() != Set::<Seq<char>>::empty() {
        head + own
    } else {
        Seq::empty()
    };
    let lines = super::target_report(targets, deps, platforms, caches, with_registry);
    assert(lines == first + d + p + c);
    order::lemma_in_order_exists(deps.dom());
    order::lemma_in_order_exists(platforms.dom());
    order::lemma_in_order_exists(caches.dom());
    let count = text::decimal(targets.len());
    let rest = super::targets_line(targets, deps).skip("Targets: "@.len() as int + count.len());
    text::lemma_occurs_between("Targets: "@, count, rest);
    assert("Targets: "@ + count + rest =~= super::targets_line(targets, deps));
    if targets.contains(t) && deps.contains_key(t) && deps[t].len() > 0 {
        law_independent_targets_depend_on_nothing(targets, deps);
        let i: int = choose|i: int| 0 <= i < targets.len() && targets[i] == t;
        assert(names::list_for(deps, targets[i]).len() > 0);
        assert(n < targets.len());
        assert(order::in_order(deps.dom()).to_set().contains(t));
        lemma_list_lines(order::in_order(deps.dom()), deps, " → depends on ["@, t);
        let line = "  "@ + t + " → depends on ["@ + text::join(deps[t], ", "@) + "]"@;
        names::lemma_sum_contains(first, d, line);
        names::lemma_sum_contains(first + d, p, line);
        names::lemma_sum_contains(first + d + p, c, line);
    }
    if platforms.contains_key(t) && platforms[t].len() > 0 {
        assert(order::in_order(platforms.dom()).to_set().contains(t));
        lemma_list_lines(order::in_order(platforms.dom()), platforms, " → platform ["@, t);
        let line = "  "@ + t + " → platform ["@ + text::join(platforms[t], ", "@) + "]"@;
        names::lemma_sum_contains(first + d, p, line);
        names::lemma_sum_contains(first + d + p, c, line);
    }
    if with_registry && caches.contains_key(t) {
        assert(caches.dom().contains(t));
        assert(order::in_order(caches.dom()).to_set().contains(t));
        lemma_cache_lines(order::in_order(caches.dom()), caches, t);
        let line = "    "@ + t + " → ["@ + text::join(super::cache_texts(caches[t]), "; "@) + "]"@;
        names::lemma_sum_contains(head, own, line);
        names::lemma_sum_contains(first + d + p, c, line);
    }
}

/// The caches of a target are told as a build takes them: those to read from, then those to write
/// to.
pub proof fn law_cache_texts_follow_the_caches(c: super::CacheViews, i: int)
    ensures
        super::cache_texts(c).len() == c.0.len() + c.1.len(),
        0 <= i < c.0.len() ==> super::cache_texts(c)[i] == bakeprint::cache_arg(c.0[i]),
        c.0.len() <= i < c.0.len() + c.1.len() ==> super::cache_texts(c)[i] == bakeprint::cache_arg(
            c.1[i - c.0.len()],
        ),
{
}

}
