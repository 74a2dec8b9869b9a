//! What can be reached from some names by following lists of names.
use crate::names;
use crate::names::{NameMap, NameSet};
use crate::order;
use crate::text;
use vstd::prelude::*;

verus! {

/// Whether each name of `path` after the first is in the list of the one before, and in
/// `within`.
pub open spec fn leads_along(
    links: Map<Seq<char>, Seq<Seq<char>>>,
    within: Set<Seq<char>>,
    path: Seq<Seq<char>>,
) -> bool {
    forall|i: int|
        0 <= i < path.len() - 1 ==> names::list_for(links, #[trigger] path[i]).contains(path[i + 1])
            && within.contains(path[i + 1])
}

/// Whether `x` is one of the names `from`, or can be reached from one of them.
pub open spec fn reachable(
    links: Map<Seq<char>, Seq<Seq<char>>>,
    within: Set<Seq<char>>,
    from: Seq<Seq<char>>,
    x: Seq<char>,
) -> bool {
    exists|path: Seq<Seq<char>>| #[trigger]
        leads_along(links, within, path) && path.len() > 0 && from.contains(path[0]) && path.last()
            == x
}

/// The names `from` and all that can be reached from them.
pub open spec fn reach(
    links: Map<Seq<char>, Seq<Seq<char>>>,
    within: Set<Seq<char>>,
    from: Seq<Seq<char>>,
) -> Set<Seq<char>> {
    Set::new(|x: Seq<char>| reachable(links, within, from, x))
}

/// The names that the lists of `keys` hold.
spec fn mentioned(links: Map<Seq<char>, Seq<Seq<char>>>, keys: Seq<Seq<char>>) -> Set<Seq<char>>
    decreases keys.len(),
{
    if keys.len() == 0 {
        Set::empty()
    } else {
        mentioned(links, keys.drop_last()).union(names::list_for(links, keys.last()).to_set())
    }
}

proof fn lemma_mentioned(links: Map<Seq<char>, Seq<Seq<char>>>, keys: Seq<Seq<char>>)
    ensures
        mentioned(links, keys).finite(),
        forall|k: Seq<char>, x: Seq<char>|
            keys.contains(k) && #[trigger] names::list_for(links, k).contains(x) ==> mentioned(
                links,
                keys,
            ).contains(x),
    decreases keys.len(),
{
    if keys.len() > 0 {
        lemma_mentioned(links, keys.drop_last());
        vstd::seq_lib::seq_to_set_is_finite(names::list_for(links, keys.last()));
        assert forall|k: Seq<char>, x: Seq<char>|
            keys.contains(k) && #[trigger] names::list_for(links, k).contains(x) implies mentioned(
            links,
            keys,
        ).contains(x) by {
            let i: int = choose|i: int| 0 <= i < keys.len() && keys[i] == k;
            if i < keys.len() - 1 {
                assert(keys.drop_last()[i] == k);
                assert(mentioned(links, keys.drop_last()).contains(x));
            }
        }
    }
}

/// A name itself can be reached.
pub proof fn lemma_reach_start(
    links: Map<Seq<char>, Seq<Seq<char>>>,
    within: Set<Seq<char>>,
    from: Seq<Seq<char>>,
    x: Seq<char>,
)
    requires
        from.contains(x),
    ensures
        reachable(links, within, from, x),
{
    let path = seq![x];
    assert(path[0] == x && path.last() == x);
    assert(leads_along(links, within, path));
}

/// What is in the list of something that can be reached can be reached too.
pub proof fn lemma_reach_step(
    links: Map<Seq<char>, Seq<Seq<char>>>,
    within: Set<Seq<char>>,
    from: Seq<Seq<char>>,
    x: Seq<char>,
    y: Seq<char>,
)
    requires
        reachable(links, within, from, x),
        names::list_for(links, x).contains(y),
        within.contains(y),
    ensures
        reachable(links, within, from, y),
{
    let path = choose|path: Seq<Seq<char>>| #[trigger]
        leads_along(links, within, path) && path.len() > 0 && from.contains(path[0]) && path.last()
            == x;
    let longer = path.push(y);
    assert forall|i: int| 0 <= i < longer.len() - 1 implies names::list_for(
        links,
        #[trigger] longer[i],
    ).contains(longer[i + 1]) && within.contains(longer[i + 1]) by {
        assert(longer[i] == path[i]);
        if i + 1 < path.len() {
            assert(longer[i + 1] == path[i + 1]);
        }
    }
    assert(leads_along(links, within, longer));
    assert(longer[0] == path[0] && longer.last() == y);
}

/// A set that holds the first names, and with each name what its list leads to, holds all that
/// can be reached.
pub proof fn lemma_closed_set_holds(
    links: Map<Seq<char>, Seq<Seq<char>>>,
    within: Set<Seq<char>>,
    from: Seq<Seq<char>>,
    set: Set<Seq<char>>,
    x: Seq<char>,
)
    requires
        forall|y: Seq<char>| #[trigger] from.contains(y) ==> set.contains(y),
        forall|y: Seq<char>, z: Seq<char>|
            set.contains(y) && within.contains(z) && #[trigger] names::list_for(
                links,
                y,
            ).contains(z) ==> set.contains(z),
        reachable(links, within, from, x),
    ensures
        set.contains(x),
{
    let path = choose|path: Seq<Seq<char>>| #[trigger]
        leads_along(links, within, path) && path.len() > 0 && from.contains(path[0]) && path.last()
            == x;
    lemma_closed_along(links, within, set, path, path.len() - 1);
}

proof fn lemma_closed_along(
    links: Map<Seq<char>, Seq<Seq<char>>>,
    within: Set<Seq<char>>,
    set: Set<Seq<char>>,
    path: Seq<Seq<char>>,
    i: int,
)
    requires
        forall|y: Seq<char>, z: Seq<char>|
            set.contains(y) && within.contains(z) && #[trigger] names::list_for(
                links,
                y,
            ).contains(z) ==> set.contains(z),
        leads_along(links, within, path),
        0 <= i < path.len(),
        set.contains(path[0]),
    ensures
        set.contains(path[i]),
    decreases i,
{
    if i > 0 {
        lemma_closed_along(links, within, set, path, i - 1);
        assert(names::list_for(links, path[i - 1]).contains(path[i - 1 + 1]));
    }
}

/// Whether a name may be followed: any name, where no set is given.
pub open spec fn bounds(known: Option<&NameSet>) -> Set<Seq<char>> {
    match known {
        Some(set) => set@,
        None => Set::full(),
    }
}

/// The names `from` and all that can be reached from them through names of `known`.
pub fn follow(from: &[String], links: &NameMap<Vec<String>>, known: Option<&NameSet>) -> (r: NameSet)
    requires
        links.wf(),
        known is Some ==> known->0.wf(),
    ensures
        r.wf(),
        r@ == reach(names::lists_of(links@), bounds(known), text::texts(from@)),
{
    let ghost lists = names::lists_of(links@);
    let ghost within = bounds(known);
    let ghost start = text::texts(from@);
    let ghost world = start.to_set().union(mentioned(lists, links.key_list()));
    let mut found = NameSet::from_list(from);
    let mut stack: Vec<String> = text::copy_texts(from);
    proof {
        lemma_mentioned(lists, links.key_list());
        vstd::seq_lib::seq_to_set_is_finite(start);
        links.lemma_keys();
        assert forall|x: Seq<char>| found@.contains(x) implies reachable(lists, within, start, x) by {
            lemma_reach_start(lists, within, start, x);
        }
        assert forall|x: Seq<char>| #[trigger] text::texts(stack@).contains(x) == found@.contains(x) by {
            assert(start.to_set().contains(x) == start.contains(x));
        }
        assert forall|x: Seq<char>| #[trigger] start.contains(x) implies found@.contains(x) by {
            assert(start.to_set().contains(x));
        }
    }
    while stack.len() > 0
        invariant
            links.wf(),
            known is Some ==> known->0.wf(),
            within == bounds(known),
            lists == names::lists_of(links@),
            found.wf(),
            world.finite(),
            found@.subset_of(world),
            forall|k: Seq<char>, x: Seq<char>|
                links.key_list().contains(k) && #[trigger] names::list_for(lists, k).contains(x)
                    ==> world.contains(x),
            forall|k: Seq<char>| links@.contains_key(k) ==> #[trigger] links.key_list().contains(k),
            forall|x: Seq<char>| #[trigger] found@.contains(x) ==> reachable(lists, within, start, x),
            forall|x: Seq<char>| #[trigger] text::texts(stack@).contains(x) ==> found@.contains(x),
            forall|x: Seq<char>| #[trigger] start.contains(x) ==> found@.contains(x),
            forall|x: Seq<char>, y: Seq<char>|
                found@.contains(x) && within.contains(y) && #[trigger] names::list_for(
                    lists,
                    x,
                ).contains(y) ==> text::texts(stack@).contains(x) || found@.contains(y),
        decreases world.difference(found@).len(), stack@.len(),
    {
        let ghost full = stack@;
        let ghost found0 = found@;
        if let Some(top) = stack.pop() {
            let ghost p = top@;
            proof {
                assert(full == stack@.push(top));
                text::lemma_texts_push(stack@, top);
                assert forall|x: Seq<char>| #[trigger]
                    text::texts(full).contains(x) <==> text::texts(stack@).contains(x) || x == p by {
                    names::lemma_push_contains(text::texts(stack@), p, x);
                }
                assert(text::texts(full).contains(p));
                assert forall|x: Seq<char>| #[trigger]
                    text::texts(stack@).contains(x) implies found@.contains(x) by {
                    assert(text::texts(full).contains(x));
                }
            }
            let ghost n0 = stack@.len();
            let ghost mut grown: Option<Seq<char>> = None;
            if let Some(list) = links.get(top.as_str()) {
                let ghost next = text::texts(list@);
                proof {
                    assert(lists[p] == next);
                    assert(names::list_for(lists, p) == next);
                    assert(links.key_list().contains(p));
                }
                let mut i: usize = 0;
                while i < list.len()
                    invariant
                        links.wf(),
                        known is Some ==> known->0.wf(),
                        within == bounds(known),
                        i <= list@.len(),
                        next == text::texts(list@),
                        names::list_for(lists, p) == next,
                        links.key_list().contains(p),
                        found.wf(),
                        found@.contains(p),
                        found@.subset_of(world),
                        found0.subset_of(found@),
                        match grown {
                            Some(x) => world.contains(x) && found@.contains(x) && !found0.contains(x),
                            None => found@ == found0 && stack@.len() == n0,
                        },
                        forall|k: Seq<char>, x: Seq<char>|
                            links.key_list().contains(k) && #[trigger] names::list_for(
                                lists,
                                k,
                            ).contains(x) ==> world.contains(x),
                        forall|x: Seq<char>| #[trigger]
                            found@.contains(x) ==> reachable(lists, within, start, x),
                        forall|x: Seq<char>| #[trigger]
                            text::texts(stack@).contains(x) ==> found@.contains(x),
                        forall|x: Seq<char>, y: Seq<char>|
                            x != p && found@.contains(x) && within.contains(y)
                                && #[trigger] names::list_for(lists, x).contains(y) ==> text::texts(
                                stack@,
                            ).contains(x) || found@.contains(y),
                        forall|j: int|
                            0 <= j < i && within.contains(#[trigger] next[j]) ==> found@.contains(
                                next[j],
                            ),
                    decreases list@.len() - i,
                {
                    let ghost d = next[i as int];
                    let ghost stacked = stack@;
                    let ghost found1 = found@;
                    assert(d == list@[i as int]@);
                    assert(names::list_for(lists, p).contains(d));
                    let allowed = match known {
                        Some(set) => set.contains(list[i].as_str()),
                        None => true,
                    };
                    if allowed && found.insert(list[i].clone()) {
                        text::add_text(&mut stack, list[i].clone());
                        proof {
                            grown = Some(d);
                            lemma_reach_step(lists, within, start, p, d);
                        }
                    }
                    proof {
                        assert forall|x: Seq<char>| #[trigger]
                            text::texts(stack@).contains(x) <==> text::texts(stacked).contains(x) || (
                            x == d && within.contains(d) && !found1.contains(d)) by {
                            names::lemma_push_contains(text::texts(stacked), d, x);
                        }
                        assert forall|x: Seq<char>, y: Seq<char>|
                            x != p && found@.contains(x) && within.contains(y)
                                && #[trigger] names::list_for(lists, x).contains(
                                y,
                            ) implies text::texts(stack@).contains(x) || found@.contains(y) by {
                            if found1.contains(x) {
                                assert(text::texts(stacked).contains(x) || found1.contains(y));
                            }
                        }
                    }
                    i += 1;
                }
                proof {
                    assert forall|y: Seq<char>|
                        within.contains(y) && next.contains(y) implies found@.contains(y) by {
                        let j: int = choose|j: int| 0 <= j < next.len() && next[j] == y;
                        assert(found@.contains(next[j]));
                    }
                }
            }
            proof {
                match grown {
                    Some(x) => names::lemma_less_left(world, found0, found@, x),
                    None => {},
                }
            }
        }
    }
    proof {
        assert(text::texts(stack@).len() == 0);
        assert forall|x: Seq<char>| found@.contains(x) <==> reach(lists, within, start).contains(
            x,
        ) by {
            if reachable(lists, within, start, x) {
                lemma_closed_set_holds(lists, within, start, found@, x);
            }
        }
        assert(found@ =~= reach(lists, within, start));
    }
    found
}

/// From a finite number of lists only a finite number of names can be reached.
pub proof fn lemma_reach_finite(
    links: Map<Seq<char>, Seq<Seq<char>>>,
    within: Set<Seq<char>>,
    from: Seq<Seq<char>>,
)
    requires
        links.dom().finite(),
    ensures
        reach(links, within, from).finite(),
{
    let keys = order::in_order(links.dom());
    order::lemma_in_order_exists(links.dom());
    lemma_mentioned(links, keys);
    vstd::seq_lib::seq_to_set_is_finite(from);
    let world = from.to_set().union(mentioned(links, keys));
    assert forall|y: Seq<char>, z: Seq<char>|
        world.contains(y) && within.contains(z) && #[trigger] names::list_for(links, y).contains(
            z,
        ) implies world.contains(z) by {
        assert(links.contains_key(y));
        assert(keys.to_set().contains(y));
    }
    assert forall|x: Seq<char>| reach(links, within, from).contains(x) implies world.contains(x) by {
        assert forall|y: Seq<char>| #[trigger] from.contains(y) implies world.contains(y) by {
            assert(from.to_set().contains(y));
        }
        lemma_closed_set_holds(links, within, from, world, x);
    }
    vstd::set_lib::lemma_set_subset_finite(world, reach(links, within, from));
}

}
