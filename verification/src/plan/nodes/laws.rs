//! Which nodes take part, and what they build for.
use super::{PlanError, PlanErrorView};
use crate::builder::inspect;
use crate::builder::node::NodeView;
use crate::dag;
use crate::names;
use crate::order;
use crate::platform;
use crate::text;
use vstd::prelude::*;

verus! {

/// A node builds for each platform that it reports and that satisfies one asked for, and for all
/// that it reports where none was asked for; one that reports nothing builds for what was asked.
pub proof fn law_asked_platforms_are_kept(
    own: Seq<Seq<char>>,
    wanted: Seq<Seq<char>>,
    p: Seq<char>,
    w: Seq<char>,
)
    ensures
        super::effective(own, None) == own,
        super::effective(Seq::empty(), Some(wanted)) == wanted,
        own.contains(p) && wanted.contains(w) && platform::satisfies(p, w) ==> super::effective(
            own,
            Some(wanted),
        ).contains(p),
        own.len() > 0 && super::effective(own, Some(wanted)).contains(p) ==> own.contains(p)
            && exists|x: Seq<char>| wanted.contains(x) && #[trigger] platform::satisfies(p, x),
{
    names::lemma_filter_holds(own, |x: Seq<char>| super::asked_for(x, wanted), p);
    if own.contains(p) && wanted.contains(w) && platform::satisfies(p, w) {
        let i: int = choose|i: int| 0 <= i < wanted.len() && wanted[i] == w;
        assert(platform::satisfies(p, wanted[i]));
        assert(super::asked_for(p, wanted));
    }
    if own.len() > 0 && super::effective(own, Some(wanted)).contains(p) {
        let i: int = choose|i: int|
            0 <= i < wanted.len() && platform::satisfies(p, #[trigger] wanted[i]);
        assert(wanted.contains(wanted[i]) && platform::satisfies(p, wanted[i]));
    }
}

/// A node takes part where no platforms were asked for, or where it builds for one that was.
proof fn lemma_takes_part(n: NodeView, wanted: Seq<Seq<char>>)
    ensures
        super::takes_part(n, Some(wanted)) <==> (n.platforms.len() == 0 && wanted.len() > 0)
            || exists|p: Seq<char>, w: Seq<char>|
            n.platforms.contains(p) && wanted.contains(w) && #[trigger] platform::satisfies(p, w),
{
    let kept = super::effective(n.platforms, Some(wanted));
    if n.platforms.len() > 0 && kept.len() > 0 {
        assert(kept.contains(kept[0]));
        law_asked_platforms_are_kept(n.platforms, wanted, kept[0], kept[0]);
    }
    if exists|p: Seq<char>, w: Seq<char>|
        n.platforms.contains(p) && wanted.contains(w) && #[trigger] platform::satisfies(p, w) {
        let (p, w) = choose|p: Seq<char>, w: Seq<char>|
            n.platforms.contains(p) && wanted.contains(w) && #[trigger] platform::satisfies(p, w);
        law_asked_platforms_are_kept(n.platforms, wanted, p, w);
    }
}

/// Where no platforms were asked for every node takes part, in its place, and none is warned of.
pub proof fn law_all_nodes_take_part_by_default(builder: Seq<char>, nodes: Seq<NodeView>)
    ensures
        match super::node_choice(builder, nodes, None) {
            Ok(c) => nodes.len() > 0 && c.0 == nodes && c.1 == super::lone_node_note(nodes.len()),
            Err(e) => nodes.len() == 0 && e == (PlanErrorView::NoUsableNodes { builder }),
        },
{
    lemma_filter_all(nodes);
    lemma_no_warnings(nodes);
}

proof fn lemma_filter_all(nodes: Seq<NodeView>)
    ensures
        super::participants(nodes, None) == nodes,
    decreases nodes.len(),
{
    reveal(Seq::filter);
    if nodes.len() > 0 {
        lemma_filter_all(nodes.drop_last());
        assert(nodes.drop_last().push(nodes.last()) =~= nodes);
    }
}

proof fn lemma_no_warnings(nodes: Seq<NodeView>)
    ensures
        super::skip_warnings(nodes, None).len() == 0,
    decreases nodes.len(),
{
    if nodes.len() > 0 {
        lemma_no_warnings(nodes.drop_last());
    }
}

/// Where platforms were asked for the nodes with one of them take part, and those that report
/// none; each of the others is warned of by its name. That no node is left is an error.
pub proof fn law_nodes_without_the_platforms_are_left_out(
    builder: Seq<char>,
    nodes: Seq<NodeView>,
    wanted: Seq<Seq<char>>,
    n: NodeView,
)
    requires
        wanted.len() > 0,
        nodes.contains(n),
    ensures
        ({
            let fits = n.platforms.len() == 0 || exists|p: Seq<char>, w: Seq<char>|
                n.platforms.contains(p) && wanted.contains(w) && #[trigger] platform::satisfies(
                    p,
                    w,
                );
            match super::node_choice(builder, nodes, Some(wanted)) {
                Ok(c) => {
                    &&& c.0.contains(n) <==> fits
                    &&& !fits ==> c.1.contains(
                        "warning: node "@ + n.name + " does not support --platform "@ + text::join(
                            wanted,
                            ","@,
                        ) + " — skipping it"@,
                    )
                },
                Err(e) => !fits && e == (PlanErrorView::Unsupported {
                    builder,
                    wanted,
                    reported: super::node_reports(nodes),
                }),
            }
        }),
{
    let f = |x: NodeView| super::takes_part(x, Some(wanted));
    let kept = super::participants(nodes, Some(wanted));
    lemma_takes_part(n, wanted);
    assert(kept == nodes.filter(f));
    let i: int = choose|i: int| 0 <= i < nodes.len() && nodes[i] == n;
    if f(n) {
        nodes.lemma_filter_contains(f, i);
    } else if kept.contains(n) {
        let j: int = choose|j: int| 0 <= j < kept.len() && kept[j] == n;
        nodes.lemma_filter_pred(f, j);
    }
    if !f(n) {
        lemma_warned(nodes, wanted, i);
        names::lemma_sum_contains(
            super::skip_warnings(nodes, Some(wanted)),
            super::lone_node_note(kept.len()),
            "warning: node "@ + n.name + " does not support --platform "@ + text::join(
                wanted,
                ","@,
            ) + " — skipping it"@,
        );
    }
}

proof fn lemma_warned(nodes: Seq<NodeView>, wanted: Seq<Seq<char>>, i: int)
    requires
        0 <= i < nodes.len(),
        !super::takes_part(nodes[i], Some(wanted)),
    ensures
        super::skip_warnings(nodes, Some(wanted)).contains(
            "warning: node "@ + nodes[i].name + " does not support --platform "@ + text::join(
                wanted,
                ","@,
            ) + " — skipping it"@,
        ),
    decreases nodes.len(),
{
    let warning = |n: NodeView|
        "warning: node "@ + n.name + " does not support --platform "@ + text::join(wanted, ","@)
            + " — skipping it"@;
    let before = super::skip_warnings(nodes.drop_last(), Some(wanted));
    names::lemma_push_contains(before, warning(nodes.last()), warning(nodes[i]));
    if i < nodes.len() - 1 {
        assert(nodes.drop_last()[i] == nodes[i]);
        lemma_warned(nodes.drop_last(), wanted, i);
    }
}

/// Only nodes of the builder take part, and no more than it has.
pub proof fn law_participants_are_nodes(
    nodes: Seq<NodeView>,
    asked: Option<Seq<Seq<char>>>,
    n: NodeView,
)
    ensures
        super::participants(nodes, asked).contains(n) ==> nodes.contains(n),
        super::participants(nodes, asked).len() <= nodes.len(),
{
    let f = |x: NodeView| super::takes_part(x, asked);
    nodes.lemma_filter_len(f);
    if super::participants(nodes, asked).contains(n) {
        nodes.lemma_filter_contains_rev(f, n);
    }
}

/// Each node builds for its own platforms: the lists stand in the order of the nodes.
pub proof fn law_lists_follow_the_nodes(
    nodes: Seq<NodeView>,
    asked: Option<Seq<Seq<char>>>,
    i: int,
)
    requires
        0 <= i < nodes.len(),
    ensures
        super::platform_lists(nodes, asked).len() == nodes.len(),
        super::platform_lists(nodes, asked)[i] == super::effective(nodes[i].platforms, asked),
{
}

/// What is reported as not to be built is each target with no node for any platform that it asks
/// for, by name, with those platforms; and nothing else.
pub proof fn law_unmet_demands_are_named(q: dag::DagState, t: Seq<char>, i: int)
    requires
        q.valid(),
        q.nodes.len() > 0,
    ensures
        order::ascending(
            super::unmet_demands(q).map_values(|e: (Seq<char>, Seq<Seq<char>>)| e.0),
        ),
        q.all.contains(t) && (forall|k: int|
            0 <= k < q.nodes.len() ==> !platform::compatible(
                #[trigger] q.nodes[k],
                names::list_for(q.platforms, t),
            )) ==> super::unmet_demands(q).contains((t, names::list_for(q.platforms, t))),
        0 <= i < super::unmet_demands(q).len() ==> ({
            let e = super::unmet_demands(q)[i];
            &&& q.all.contains(e.0)
            &&& e.1 == names::list_for(q.platforms, e.0)
            &&& forall|k: int|
                0 <= k < q.nodes.len() ==> !platform::compatible(#[trigger] q.nodes[k], e.1)
        }),
{
    let unmet = q.all.filter(|x: Seq<char>| !q.claimable(x));
    let list = order::in_order(unmet);
    let f = |x: Seq<char>| (x, q.wants(x));
    vstd::set_lib::lemma_set_subset_finite(q.all, unmet);
    order::lemma_in_order_exists(unmet);
    assert(super::unmet_demands(q) == list.map_values(f));
    assert(super::unmet_demands(q).map_values(|e: (Seq<char>, Seq<Seq<char>>)| e.0) =~= list);
    if q.all.contains(t) && (forall|k: int|
        0 <= k < q.nodes.len() ==> !platform::compatible(
            #[trigger] q.nodes[k],
            names::list_for(q.platforms, t),
        )) {
        dag::laws::law_claimable_means_a_node_fits(q, t, 0);
        assert(unmet.contains(t));
        assert(list.to_set().contains(t));
        let j: int = choose|j: int| 0 <= j < list.len() && list[j] == t;
        assert(super::unmet_demands(q)[j] == f(t));
    }
    if 0 <= i < super::unmet_demands(q).len() {
        let e = super::unmet_demands(q)[i];
        assert(e == f(list[i]));
        assert(list.to_set().contains(list[i]));
        assert forall|k: int| 0 <= k < q.nodes.len() implies !platform::compatible(
            #[trigger] q.nodes[k],
            e.1,
        ) by {
            dag::laws::law_claimable_means_a_node_fits(q, e.0, k);
        }
    }
}

/// The platforms that are said to be available are those that some node builds for.
pub proof fn law_available_platforms_are_those_of_nodes(
    lists: Seq<Seq<Seq<char>>>,
    p: Seq<char>,
    i: int,
)
    ensures
        0 <= i < lists.len() && lists[i].contains(p) ==> super::available_platforms(lists).contains(
            p,
        ),
        (forall|k: int| 0 <= k < lists.len() ==> !(#[trigger] lists[k]).contains(p))
            ==> !super::available_platforms(lists).contains(p),
{
}

/// That builds run one after the other is said where a single node is left, and only there.
pub proof fn law_lone_node_is_mentioned(nodes: nat)
    ensures
        super::lone_node_note(nodes).len() == if nodes == 1 {
            1int
        } else {
            0
        },
{
}

/// Each node adds itself, where it takes part, and a warning, where it does not: nodes and warnings
/// stand in the order of the nodes.
pub proof fn law_each_node_adds_itself(
    nodes: Seq<NodeView>,
    n: NodeView,
    asked: Option<Seq<Seq<char>>>,
)
    ensures
        super::takes_part(n, asked) ==> super::participants(nodes.push(n), asked)
            == super::participants(nodes, asked).push(n) && super::skip_warnings(
            nodes.push(n),
            asked,
        ) == super::skip_warnings(nodes, asked),
        !super::takes_part(n, asked) ==> super::participants(nodes.push(n), asked)
            == super::participants(nodes, asked) && super::skip_warnings(
            nodes.push(n),
            asked,
        ).len() == super::skip_warnings(nodes, asked).len() + 1,
{
    reveal(Seq::filter);
    assert(nodes.push(n).drop_last() =~= nodes);
}

/// What is said where no node has the platforms tells of each node what it reports.
pub proof fn law_reports_name_the_platforms(nodes: Seq<NodeView>, i: int, j: int)
    requires
        0 <= i < nodes.len(),
    ensures
        super::node_reports(nodes).len() == nodes.len(),
        text::occurs(super::node_reports(nodes)[i], nodes[i].name),
        0 <= j < nodes[i].platforms.len() ==> text::occurs(
            super::node_reports(nodes)[i],
            nodes[i].platforms[j],
        ),
{
    let n = nodes[i];
    let list = text::join(n.platforms, ", "@);
    let e = Seq::<char>::empty();
    text::lemma_occurs_between(e, n.name, " ["@ + list + "]"@);
    assert(e + n.name + (" ["@ + list + "]"@) =~= n.name + " ["@ + list + "]"@);
    if 0 <= j < n.platforms.len() {
        text::lemma_join_holds(n.platforms, ", "@, j);
        text::lemma_occurs_later(n.name + " ["@, list, n.platforms[j]);
        text::lemma_occurs_earlier(n.name + " ["@ + list, "]"@, n.platforms[j]);
    }
}

/// The error of targets that no node can build names the builder, each such target, each platform
/// that it asks for, and each that there is.
pub proof fn law_unsatisfiable_targets_are_named(
    builder: Seq<char>,
    targets: Seq<(Seq<char>, Seq<Seq<char>>)>,
    available: Seq<Seq<char>>,
    i: int,
    j: int,
)
    ensures
        ({
            let message = super::plan_error_text(
                PlanErrorView::Unsatisfiable { builder, targets, available },
            );
            &&& text::occurs(message, builder)
            &&& 0 <= i < targets.len() ==> text::occurs(message, targets[i].0)
            &&& 0 <= i < targets.len() && 0 <= j < targets[i].1.len() ==> text::occurs(
                message,
                targets[i].1[j],
            )
            &&& 0 <= j < available.len() ==> text::occurs(message, available[j])
        }),
{
    let lines = super::demand_lines(targets);
    let a = "no node in builder '"@;
    let b = "' can build "@ + text::decimal(targets.len()) + " target(s):\n"@;
    let body = text::join(lines, "\n"@);
    let c = "\n  available platforms: "@;
    let end = text::join(available, ", "@);
    let message = super::plan_error_text(
        PlanErrorView::Unsatisfiable { builder, targets, available },
    );
    let front = a + builder + b;
    assert(front + body + c + end =~= message);
    text::lemma_occurs_between(a, builder, b + body + c + end);
    assert(a + builder + (b + body + c + end) =~= message);
    if 0 <= i < targets.len() {
        lemma_in_body(front, body, c + end, lines, i);
        assert(front + body + (c + end) =~= message);
        let line = lines[i];
        let name = targets[i].0;
        let list = text::join(targets[i].1, ", "@);
        let mid = " requires ["@;
        assert(line == "  "@ + name + mid + list + "]"@);
        text::lemma_occurs_between("  "@, name, mid + list + "]"@);
        assert("  "@ + name + (mid + list + "]"@) =~= line);
        text::lemma_occurs_through(message, line, name);
        if 0 <= j < targets[i].1.len() {
            text::lemma_join_holds(targets[i].1, ", "@, j);
            text::lemma_occurs_later("  "@ + name + mid, list, targets[i].1[j]);
            text::lemma_occurs_earlier("  "@ + name + mid + list, "]"@, targets[i].1[j]);
            text::lemma_occurs_through(message, line, targets[i].1[j]);
        }
    }
    if 0 <= j < available.len() {
        text::lemma_join_holds(available, ", "@, j);
        text::lemma_occurs_later(front + body + c, end, available[j]);
    }
}

proof fn lemma_in_body(
    front: Seq<char>,
    body: Seq<char>,
    end: Seq<char>,
    lines: Seq<Seq<char>>,
    i: int,
)
    requires
        0 <= i < lines.len(),
        body == text::join(lines, "\n"@),
    ensures
        text::occurs(front + body + end, lines[i]),
{
    text::lemma_join_holds(lines, "\n"@, i);
    text::lemma_occurs_later(front, body, lines[i]);
    text::lemma_occurs_earlier(front + body, end, lines[i]);
}

/// The other errors name the builder, or what was asked for.
pub proof fn law_plan_errors_name_the_builder(
    builder: Seq<char>,
    wanted: Seq<Seq<char>>,
    reported: Seq<Seq<char>>,
    raw: Seq<char>,
    i: int,
)
    ensures
        text::occurs(super::plan_error_text(PlanErrorView::NoNodes { builder }), builder),
        text::occurs(super::plan_error_text(PlanErrorView::NoUsableNodes { builder }), builder),
        text::occurs(super::plan_error_text(PlanErrorView::NoPlatforms { raw }), raw),
        ({
            let message = super::plan_error_text(
                PlanErrorView::Unsupported { builder, wanted, reported },
            );
            &&& text::occurs(message, builder)
            &&& 0 <= i < wanted.len() ==> text::occurs(message, wanted[i])
            &&& 0 <= i < reported.len() ==> text::occurs(message, reported[i])
        }),
{
    text::lemma_occurs_between("no TCP nodes found in builder '"@, builder, "'"@);
    text::lemma_occurs_between("no usable nodes left in builder '"@, builder, "'"@);
    text::lemma_occurs_between("--platform '"@, raw, "' names no platforms"@);
    let a = "no node in builder '"@;
    let b = "' supports --platform "@;
    let c = text::join(wanted, ","@);
    let d = "\n  nodes report: "@;
    let e = text::join(reported, "; "@);
    let message = a + builder + b + c + d + e;
    text::lemma_occurs_between(a, builder, b + c + d + e);
    assert(a + builder + (b + c + d + e) =~= message);
    if 0 <= i < wanted.len() {
        text::lemma_join_holds(wanted, ","@, i);
        text::lemma_occurs_later(a + builder + b, c, wanted[i]);
        text::lemma_occurs_earlier(a + builder + b + c, d + e, wanted[i]);
        assert(a + builder + b + c + (d + e) =~= message);
    }
    if 0 <= i < reported.len() {
        text::lemma_join_holds(reported, "; "@, i);
        text::lemma_occurs_later(a + builder + b + c + d, e, reported[i]);
    }
}

/// The first line names the builder, and each of its nodes.
pub proof fn law_builder_line_names_the_nodes(builder: Seq<char>, nodes: Seq<NodeView>, i: int)
    ensures
        text::occurs(super::builder_line(builder, nodes), builder),
        text::occurs(super::builder_line(builder, nodes), text::decimal(nodes.len()) + " nodes"@),
        0 <= i < nodes.len() ==> text::occurs(super::builder_line(builder, nodes), nodes[i].name),
{
    reveal_strlit(" nodes: ");
    reveal_strlit(" nodes");
    let a = "Builder: "@;
    let b = " ("@;
    let n = text::decimal(nodes.len());
    let c = " nodes: "@;
    let names = super::node_names_of(nodes);
    let list = text::join(names, ", "@);
    let line = super::builder_line(builder, nodes);
    text::lemma_occurs_between(a, builder, b + n + c + list + ")"@);
    assert(a + builder + (b + n + c + list + ")"@) =~= line);
    let front = a + builder + b;
    let rest = seq![':', ' '] + list + ")"@;
    text::lemma_occurs_between(front, n + " nodes"@, rest);
    assert(front + (n + " nodes"@) + rest =~= line);
    if 0 <= i < nodes.len() {
        assert(names[i] == nodes[i].name);
        text::lemma_join_holds(names, ", "@, i);
        text::lemma_occurs_later(front + n + c, list, names[i]);
        text::lemma_occurs_earlier(front + n + c + list, ")"@, names[i]);
    }
}

/// Platforms are asked for by what stands between the commas: nothing is asked for where nothing is
/// said, and to name none is an error that repeats what was said.
pub proof fn law_platforms_stand_between_commas(
    raw: Option<&str>,
    r: Result<Option<Vec<String>>, PlanError>,
    p: Seq<char>,
)
    requires
        call_ensures(super::parse_platforms, (raw,), r),
    ensures
        raw is None ==> (r matches Ok(list) && list is None),
        raw matches Some(s) ==> (s@.len() > 0 && !s@.contains(',') && !text::white(s@[0])
            && !text::white(s@.last()) ==> (r matches Ok(list) && list is Some && text::texts(
            list->0@,
        ) == seq![s@])),
        raw matches Some(s) ==> (r matches Err(e) ==> e@ == (PlanErrorView::NoPlatforms {
            raw: s@,
        })),
        r matches Ok(Some(list)) ==> list@.len() > 0 && (text::texts(list@).contains(p) ==> p.len()
            > 0 && !text::white(p[0]) && !text::white(p.last())),
{
    if raw is Some {
        let s = raw->0@;
        let parts = text::split(s, ',');
        if s.len() > 0 && !s.contains(',') && !text::white(s[0]) && !text::white(s.last()) {
            text::lemma_first_index_meaning(s, ',');
            let at = text::first_index(s, ',') as int;
            if at < s.len() {
                assert(s.contains(s[at]));
            }
            assert(parts == seq![s]);
            text::lemma_trim_fixed(s);
            assert(parts.drop_last() =~= Seq::empty());
            assert(inspect::filled(parts.drop_last()) == Seq::<Seq<char>>::empty());
            assert(inspect::comma_list(s) =~= seq![s]);
        }
        lemma_filled(parts, p);
    }
}

proof fn lemma_filled(parts: Seq<Seq<char>>, p: Seq<char>)
    ensures
        inspect::filled(parts).contains(p) ==> p.len() > 0 && !text::white(p[0]) && !text::white(
            p.last(),
        ),
    decreases parts.len(),
{
    if parts.len() > 0 && inspect::filled(parts).contains(p) {
        let before = inspect::filled(parts.drop_last());
        let part = text::trim(parts.last());
        lemma_filled(parts.drop_last(), p);
        text::lemma_trim_edges(parts.last());
        let i: int = choose|i: int|
            0 <= i < inspect::filled(parts).len() && inspect::filled(parts)[i] == p;
        if i < before.len() {
            assert(before[i] == p);
            assert(before.contains(p));
        }
    }
}

/// The builder of a node is made for chosen platforms where platforms were asked for, and there
/// for all those of the node.
pub proof fn law_builders_are_made_for_what_was_asked(
    asked: &Option<Vec<String>>,
    platforms: &[String],
    r: Option<String>,
)
    requires
        call_ensures(super::shard_platform, (asked, platforms), r),
    ensures
        r is Some <==> asked is Some,
        r is Some && platforms@.len() == 1 ==> r->0@ == platforms@[0]@,
        r is Some && platforms@.len() == 2 ==> r->0@ == platforms@[0]@ + ","@ + platforms@[1]@,
        r is Some ==> r->0@ == text::join(text::texts(platforms@), ","@),
{
    let all = text::texts(platforms@);
    if platforms@.len() == 2 {
        assert(all.drop_last() =~= seq![platforms@[0]@]);
        assert(text::join(all.drop_last(), ","@) == platforms@[0]@);
        assert(all.last() == platforms@[1]@);
    }
}

}
