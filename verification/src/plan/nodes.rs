//! Which nodes take part in a run, and for which platforms.
use crate::builder::inspect;
use crate::builder::inspect::comma_entries;
use crate::builder::node;
use crate::builder::node::{Node, NodeView};
use crate::dag;
use crate::dag::DagQueue;
use crate::names;
use crate::names::NameSet;
use crate::order;
use crate::platform;
use crate::platform::platform_matches;
use crate::text;
use crate::text::{add_text, chars_of, copy_texts, decimal_of, joined};
use vstd::prelude::*;
use vstd::string::*;

pub mod laws;

verus! {

/// Why a run cannot start.
#[derive(Debug)]
pub enum PlanError {
    /// The builder has no nodes to send builds to.
    NoNodes { builder: String },
    /// The platforms asked for are none.
    NoPlatforms { raw: String },
    /// No node has a platform that was asked for.
    Unsupported { builder: String, wanted: Vec<String>, reported: Vec<String> },
    /// No node is left.
    NoUsableNodes { builder: String },
    /// No node can build these targets.
    Unsatisfiable {
        builder: String,
        targets: Vec<(String, Vec<String>)>,
        available: Vec<String>,
    },
}

/// What an error says.
pub enum PlanErrorView {
    NoNodes { builder: Seq<char> },
    NoPlatforms { raw: Seq<char> },
    Unsupported { builder: Seq<char>, wanted: Seq<Seq<char>>, reported: Seq<Seq<char>> },
    NoUsableNodes { builder: Seq<char> },
    Unsatisfiable {
        builder: Seq<char>,
        targets: Seq<(Seq<char>, Seq<Seq<char>>)>,
        available: Seq<Seq<char>>,
    },
}

/// What a list of targets and platforms holds.
pub open spec fn demands(list: Seq<(String, Vec<String>)>) -> Seq<(Seq<char>, Seq<Seq<char>>)> {
    list.map_values(|e: (String, Vec<String>)| (e.0@, text::texts(e.1@)))
}

impl View for PlanError {
    type V = PlanErrorView;

    open spec fn view(&self) -> PlanErrorView {
        match self {
            PlanError::NoNodes { builder } => PlanErrorView::NoNodes { builder: builder@ },
            PlanError::NoPlatforms { raw } => PlanErrorView::NoPlatforms { raw: raw@ },
            PlanError::Unsupported { builder, wanted, reported } => PlanErrorView::Unsupported {
                builder: builder@,
                wanted: text::texts(wanted@),
                reported: text::texts(reported@),
            },
            PlanError::NoUsableNodes { builder } => PlanErrorView::NoUsableNodes {
                builder: builder@,
            },
            PlanError::Unsatisfiable { builder, targets, available } => {
                PlanErrorView::Unsatisfiable {
                    builder: builder@,
                    targets: demands(targets@),
                    available: text::texts(available@),
                }
            },
        }
    }
}

/// A line for each target that no node can build.
pub open spec fn demand_lines(list: Seq<(Seq<char>, Seq<Seq<char>>)>) -> Seq<Seq<char>> {
    list.map_values(
        |e: (Seq<char>, Seq<Seq<char>>)|
            "  "@ + e.0 + " requires ["@ + text::join(e.1, ", "@) + "]"@,
    )
}

/// The text of an error.
pub open spec fn plan_error_text(e: PlanErrorView) -> Seq<char> {
    match e {
        PlanErrorView::NoNodes { builder } => "no TCP nodes found in builder '"@ + builder + "'"@,
        PlanErrorView::NoPlatforms { raw } => "--platform '"@ + raw + "' names no platforms"@,
        PlanErrorView::Unsupported { builder, wanted, reported } => "no node in builder '"@ + builder
            + "' supports --platform "@ + text::join(wanted, ","@) + "\n  nodes report: "@
            + text::join(reported, "; "@),
        PlanErrorView::NoUsableNodes { builder } => "no usable nodes left in builder '"@ + builder
            + "'"@,
        PlanErrorView::Unsatisfiable { builder, targets, available } => "no node in builder '"@
            + builder + "' can build "@ + text::decimal(targets.len()) + " target(s):\n"@
            + text::join(demand_lines(targets), "\n"@) + "\n  available platforms: "@ + text::join(
            available,
            ", "@,
        ),
    }
}

fn lines_of_demands(list: &Vec<(String, Vec<String>)>) -> (r: Vec<String>)
    ensures
        text::texts(r@) == demand_lines(demands(list@)),
{
    let ghost all = demand_lines(demands(list@));
    let mut r: Vec<String> = Vec::new();
    let mut i: usize = 0;
    assert(text::texts(r@) =~= all.take(0));
    while i < list.len()
        invariant
            i <= list@.len(),
            all == demand_lines(demands(list@)),
            text::texts(r@) == all.take(i as int),
        decreases list@.len() - i,
    {
        let line = "  ".to_string().concat(list[i].0.as_str()).concat(" requires [").concat(
            joined(list[i].1.as_slice(), ", ").as_str(),
        ).concat("]");
        assert(demands(list@)[i as int] == (list@[i as int].0@, text::texts(list@[i as int].1@)));
        assert(all[i as int] == line@);
        add_text(&mut r, line);
        assert(text::texts(r@) =~= all.take(i + 1));
        i += 1;
    }
    assert(all.take(i as int) =~= all);
    r
}

impl PlanError {
    /// The text of the error.
    pub fn message(&self) -> (r: String)
        ensures
            r@ == plan_error_text(self@),
    {
        match self {
            PlanError::NoNodes { builder } => "no TCP nodes found in builder '".to_string().concat(
                builder.as_str(),
            ).concat("'"),
            PlanError::NoPlatforms { raw } => "--platform '".to_string().concat(
                raw.as_str(),
            ).concat("' names no platforms"),
            PlanError::Unsupported { builder, wanted, reported } => {
                "no node in builder '".to_string().concat(builder.as_str()).concat(
                    "' supports --platform ",
                ).concat(joined(wanted.as_slice(), ",").as_str()).concat(
                    "\n  nodes report: ",
                ).concat(joined(reported.as_slice(), "; ").as_str())
            },
            PlanError::NoUsableNodes { builder } => {
                "no usable nodes left in builder '".to_string().concat(builder.as_str()).concat("'")
            },
            PlanError::Unsatisfiable { builder, targets, available } => {
                let lines = lines_of_demands(targets);
                assert(demands(targets@).len() == targets@.len());
                "no node in builder '".to_string().concat(builder.as_str()).concat(
                    "' can build ",
                ).concat(decimal_of(targets.len() as u64).as_str()).concat(
                    " target(s):\n",
                ).concat(joined(lines.as_slice(), "\n").as_str()).concat(
                    "\n  available platforms: ",
                ).concat(joined(available.as_slice(), ", ").as_str())
            },
        }
    }
}

/// The names of some nodes.
pub open spec fn node_names_of(nodes: Seq<NodeView>) -> Seq<Seq<char>> {
    nodes.map_values(|n: NodeView| n.name)
}

/// The names of some nodes.
pub fn node_names(nodes: &[Node]) -> (r: Vec<String>)
    ensures
        text::texts(r@) == node_names_of(node::node_views(nodes@)),
{
    let ghost all = node_names_of(node::node_views(nodes@));
    let mut r: Vec<String> = Vec::new();
    let mut i: usize = 0;
    assert(text::texts(r@) =~= all.take(0));
    while i < nodes.len()
        invariant
            i <= nodes@.len(),
            all == node_names_of(node::node_views(nodes@)),
            text::texts(r@) == all.take(i as int),
        decreases nodes@.len() - i,
    {
        assert(node::node_views(nodes@)[i as int] == nodes@[i as int]@);
        assert(all[i as int] == nodes@[i as int].name@);
        add_text(&mut r, nodes[i].name.clone());
        assert(text::texts(r@) =~= all.take(i + 1));
        i += 1;
    }
    assert(all.take(i as int) =~= all);
    r
}

/// The line that names the builder and its nodes.
pub open spec fn builder_line(builder: Seq<char>, nodes: Seq<NodeView>) -> Seq<char> {
    "Builder: "@ + builder + " ("@ + text::decimal(nodes.len()) + " nodes: "@ + text::join(
        node_names_of(nodes),
        ", "@,
    ) + ")"@
}

/// The line that names the builder and its nodes; an error where it has none.
pub fn greet_builder(builder: &str, nodes: &[Node]) -> (r: Result<String, PlanError>)
    ensures
        match r {
            Ok(line) => nodes@.len() > 0 && line@ == builder_line(
                builder@,
                node::node_views(nodes@),
            ),
            Err(e) => nodes@.len() == 0 && e@ == (PlanErrorView::NoNodes { builder: builder@ }),
        },
{
    if nodes.len() == 0 {
        return Err(PlanError::NoNodes { builder: builder.to_string() });
    }
    assert(node::node_views(nodes@).len() == nodes@.len());
    Ok(
        "Builder: ".to_string().concat(builder).concat(" (").concat(
            decimal_of(nodes.len() as u64).as_str(),
        ).concat(" nodes: ").concat(joined(node_names(nodes).as_slice(), ", ").as_str()).concat(
            ")",
        ),
    )
}

/// The platforms asked for, if any were.
pub open spec fn platforms_asked(p: Option<Vec<String>>) -> Option<Seq<Seq<char>>> {
    match p {
        Some(v) => Some(text::texts(v@)),
        None => None,
    }
}

/// The platforms asked for, with commas between them. To ask for an empty list is an error.
pub fn parse_platforms(raw: Option<&str>) -> (r: Result<Option<Vec<String>>, PlanError>)
    ensures
        match raw {
            None => r matches Ok(p) && p is None,
            Some(s) => if inspect::comma_list(s@).len() == 0 {
                r matches Err(e) && e@ == (PlanErrorView::NoPlatforms { raw: s@ })
            } else {
                r matches Ok(p) && platforms_asked(p) == Some(inspect::comma_list(s@))
            },
        },
{
    match raw {
        None => Ok(None),
        Some(s) => {
            let list = comma_entries(chars_of(s).as_slice());
            assert(text::texts(list@).len() == list@.len());
            if list.len() == 0 {
                Err(PlanError::NoPlatforms { raw: s.to_string() })
            } else {
                Ok(Some(list))
            }
        },
    }
}

/// Whether a platform is one that was asked for.
pub open spec fn asked_for(p: Seq<char>, wanted: Seq<Seq<char>>) -> bool {
    exists|i: int| 0 <= i < wanted.len() && platform::satisfies(p, #[trigger] wanted[i])
}

/// The platforms that a node builds for in a run. What was asked for narrows what it has: a node
/// builds only what it can. One that reports nothing is taken at its word.
pub open spec fn effective(
    own: Seq<Seq<char>>,
    asked: Option<Seq<Seq<char>>>,
) -> Seq<Seq<char>> {
    match asked {
        None => own,
        Some(wanted) => if own.len() == 0 {
            wanted
        } else {
            own.filter(|p: Seq<char>| asked_for(p, wanted))
        },
    }
}

fn is_asked_for(p: &str, wanted: &[String]) -> (r: bool)
    ensures
        r == asked_for(p@, text::texts(wanted@)),
{
    let ghost all = text::texts(wanted@);
    let mut i: usize = 0;
    while i < wanted.len()
        invariant
            i <= wanted@.len(),
            all == text::texts(wanted@),
            forall|j: int| 0 <= j < i ==> !platform::satisfies(p@, #[trigger] all[j]),
        decreases wanted@.len() - i,
    {
        assert(all[i as int] == wanted@[i as int]@);
        if platform_matches(wanted[i].as_str(), p) {
            return true;
        }
        i += 1;
    }
    false
}

/// The platforms that a node builds for in a run.
pub fn effective_platforms(node: &Node, asked: &Option<Vec<String>>) -> (r: Vec<String>)
    ensures
        text::texts(r@) == effective(node@.platforms, platforms_asked(*asked)),
{
    let ghost own = node@.platforms;
    match asked {
        None => copy_texts(node.platforms.as_slice()),
        Some(wanted) => {
            assert(own.len() == node.platforms@.len());
            if node.platforms.len() == 0 {
                return copy_texts(wanted.as_slice());
            }
            let ghost list = text::texts(wanted@);
            let ghost keep = |p: Seq<char>| asked_for(p, list);
            let mut r: Vec<String> = Vec::new();
            let mut i: usize = 0;
            assert(text::texts(r@) =~= own.take(0).filter(keep)) by {
                reveal(Seq::filter);
            }
            while i < node.platforms.len()
                invariant
                    own == text::texts(node.platforms@),
                    list == text::texts(wanted@),
                    keep == (|p: Seq<char>| asked_for(p, list)),
                    i <= own.len(),
                    text::texts(r@) == own.take(i as int).filter(keep),
                decreases own.len() - i,
            {
                proof {
                    reveal(Seq::filter);
                    assert(own.take(i + 1).drop_last() =~= own.take(i as int));
                    assert(own.take(i + 1).last() == node.platforms@[i as int]@);
                }
                if is_asked_for(node.platforms[i].as_str(), wanted.as_slice()) {
                    add_text(&mut r, node.platforms[i].clone());
                }
                i += 1;
            }
            assert(own.take(i as int) =~= own);
            r
        },
    }
}

/// Whether a node takes part in a run.
pub open spec fn takes_part(n: NodeView, asked: Option<Seq<Seq<char>>>) -> bool {
    asked is None || effective(n.platforms, asked).len() > 0
}

/// The warnings for the nodes that take no part.
pub open spec fn skip_warnings(
    nodes: Seq<NodeView>,
    asked: Option<Seq<Seq<char>>>,
) -> Seq<Seq<char>>
    decreases nodes.len(),
{
    if nodes.len() == 0 {
        Seq::empty()
    } else {
        let before = skip_warnings(nodes.drop_last(), asked);
        let n = nodes.last();
        if takes_part(n, asked) {
            before
        } else {
            before.push(
                "warning: node "@ + n.name + " does not support --platform "@ + text::join(
                    asked->0,
                    ","@,
                ) + " — skipping it"@,
            )
        }
    }
}

/// What each node reports.
pub open spec fn node_reports(nodes: Seq<NodeView>) -> Seq<Seq<char>> {
    nodes.map_values(
        |n: NodeView| n.name + " ["@ + text::join(n.platforms, ", "@) + "]"@,
    )
}

/// The nodes that take part in a run.
pub open spec fn participants(
    nodes: Seq<NodeView>,
    asked: Option<Seq<Seq<char>>>,
) -> Seq<NodeView> {
    nodes.filter(|n: NodeView| takes_part(n, asked))
}

/// The nodes that take part in a run, and what is said of the choice.
pub struct NodeChoice {
    pub nodes: Vec<Node>,
    pub warnings: Vec<String>,
}

fn report_nodes(nodes: &[Node]) -> (r: Vec<String>)
    ensures
        text::texts(r@) == node_reports(node::node_views(nodes@)),
{
    let ghost all = node_reports(node::node_views(nodes@));
    let mut r: Vec<String> = Vec::new();
    let mut i: usize = 0;
    assert(text::texts(r@) =~= all.take(0));
    while i < nodes.len()
        invariant
            i <= nodes@.len(),
            all == node_reports(node::node_views(nodes@)),
            text::texts(r@) == all.take(i as int),
        decreases nodes@.len() - i,
    {
        let line = nodes[i].name.clone().concat(" [").concat(
            joined(nodes[i].platforms.as_slice(), ", ").as_str(),
        ).concat("]");
        assert(node::node_views(nodes@)[i as int] == nodes@[i as int]@);
        assert(all[i as int] == line@);
        add_text(&mut r, line);
        assert(text::texts(r@) =~= all.take(i + 1));
        i += 1;
    }
    assert(all.take(i as int) =~= all);
    r
}

/// What is said of a single node.
pub open spec fn lone_node_note(nodes: nat) -> Seq<Seq<char>> {
    if nodes == 1 {
        seq!["note: only one node is usable — builds will run sequentially"@]
    } else {
        Seq::empty()
    }
}

/// The nodes that take part in a run, and what is said of the choice. Where platforms were asked
/// for these are the nodes that have one of them; that there is none is an error.
pub open spec fn node_choice(
    builder: Seq<char>,
    nodes: Seq<NodeView>,
    asked: Option<Seq<Seq<char>>>,
) -> Result<(Seq<NodeView>, Seq<Seq<char>>), PlanErrorView> {
    let kept = participants(nodes, asked);
    if kept.len() > 0 {
        Ok((kept, skip_warnings(nodes, asked) + lone_node_note(kept.len())))
    } else {
        match asked {
            Some(wanted) => Err(
                PlanErrorView::Unsupported { builder, wanted, reported: node_reports(nodes) },
            ),
            None => Err(PlanErrorView::NoUsableNodes { builder }),
        }
    }
}

/// The nodes that take part in a run, and what is said of the choice. Where platforms were asked
/// for these are the nodes that have one of them; that there is none is an error.
pub fn choose_nodes(builder: &str, nodes: &[Node], asked: &Option<Vec<String>>) -> (r: Result<
    NodeChoice,
    PlanError,
>)
    ensures
        match r {
            Ok(c) => node_choice(builder@, node::node_views(nodes@), platforms_asked(*asked)) == Ok::<
                _,
                PlanErrorView,
            >((node::node_views(c.nodes@), text::texts(c.warnings@))),
            Err(e) => node_choice(builder@, node::node_views(nodes@), platforms_asked(*asked))
                == Err::<(Seq<NodeView>, Seq<Seq<char>>), _>(e@),
        },
{
    let ghost all = node::node_views(nodes@);
    let ghost want = platforms_asked(*asked);
    let ghost keep = |n: NodeView| takes_part(n, want);
    let mut kept: Vec<Node> = Vec::new();
    let mut warnings: Vec<String> = Vec::new();
    let mut i: usize = 0;
    proof {
        reveal(Seq::filter);
        assert(node::node_views(kept@) =~= all.take(0).filter(keep));
        assert(text::texts(warnings@) =~= skip_warnings(all.take(0), want));
    }
    while i < nodes.len()
        invariant
            i <= nodes@.len(),
            all == node::node_views(nodes@),
            want == platforms_asked(*asked),
            keep == (|n: NodeView| takes_part(n, want)),
            node::node_views(kept@) == all.take(i as int).filter(keep),
            text::texts(warnings@) == skip_warnings(all.take(i as int), want),
        decreases nodes@.len() - i,
    {
        proof {
            reveal(Seq::filter);
            assert(all[i as int] == nodes@[i as int]@);
            assert(all.take(i + 1).drop_last() =~= all.take(i as int));
            assert(all.take(i + 1).last() == nodes@[i as int]@);
        }
        let platforms = effective_platforms(&nodes[i], asked);
        assert(text::texts(platforms@).len() == platforms@.len());
        match asked {
            Some(wanted) if platforms.len() == 0 => {
                let line = "warning: node ".to_string().concat(nodes[i].name.as_str()).concat(
                    " does not support --platform ",
                ).concat(joined(wanted.as_slice(), ",").as_str()).concat(" — skipping it");
                add_text(&mut warnings, line);
            },
            _ => {
                let n = nodes[i].copy();
                let ghost before = kept@;
                kept.push(n);
                assert(node::node_views(kept@) =~= node::node_views(before).push(n@));
            },
        }
        i += 1;
    }
    assert(all.take(i as int) =~= all);
    assert(node::node_views(kept@).len() == kept@.len());
    if kept.len() > 0 {
        let ghost skipped = text::texts(warnings@);
        if kept.len() == 1 {
            add_text(
                &mut warnings,
                "note: only one node is usable — builds will run sequentially".to_string(),
            );
        }
        assert(text::texts(warnings@) =~= skipped + lone_node_note(kept@.len()));
        return Ok(NodeChoice { nodes: kept, warnings });
    }
    match asked {
        Some(wanted) => Err(
            PlanError::Unsupported {
                builder: builder.to_string(),
                wanted: copy_texts(wanted.as_slice()),
                reported: report_nodes(nodes),
            },
        ),
        None => Err(PlanError::NoUsableNodes { builder: builder.to_string() }),
    }
}

/// The platforms that each node builds for in a run.
pub open spec fn platform_lists(
    nodes: Seq<NodeView>,
    asked: Option<Seq<Seq<char>>>,
) -> Seq<Seq<Seq<char>>> {
    nodes.map_values(|n: NodeView| effective(n.platforms, asked))
}

/// The platforms that each node builds for in a run.
pub fn node_platform_lists(nodes: &[Node], asked: &Option<Vec<String>>) -> (r: Vec<Vec<String>>)
    ensures
        text::text_lists(r@) == platform_lists(node::node_views(nodes@), platforms_asked(*asked)),
{
    let ghost all = platform_lists(node::node_views(nodes@), platforms_asked(*asked));
    let mut r: Vec<Vec<String>> = Vec::new();
    let mut i: usize = 0;
    assert(text::text_lists(r@) =~= all.take(0));
    while i < nodes.len()
        invariant
            i <= nodes@.len(),
            all == platform_lists(node::node_views(nodes@), platforms_asked(*asked)),
            text::text_lists(r@) == all.take(i as int),
        decreases nodes@.len() - i,
    {
        let list = effective_platforms(&nodes[i], asked);
        let ghost before = r@;
        assert(node::node_views(nodes@)[i as int] == nodes@[i as int]@);
        assert(all[i as int] == text::texts(list@));
        r.push(list);
        assert(text::text_lists(r@) =~= text::text_lists(before).push(all[i as int]));
        assert(text::text_lists(r@) =~= all.take(i + 1));
        i += 1;
    }
    assert(all.take(i as int) =~= all);
    r
}

/// All platforms that nodes build for.
pub open spec fn available_platforms(lists: Seq<Seq<Seq<char>>>) -> Set<Seq<char>> {
    Set::new(|p: Seq<char>| exists|i: int| 0 <= i < lists.len() && (#[trigger] lists[i]).contains(p))
}

fn gather_platforms(lists: &Vec<Vec<String>>) -> (r: NameSet)
    ensures
        r.wf(),
        r@ == available_platforms(text::text_lists(lists@)),
{
    let ghost all = text::text_lists(lists@);
    let mut r = NameSet::new();
    let mut i: usize = 0;
    while i < lists.len()
        invariant
            r.wf(),
            i <= lists@.len(),
            all == text::text_lists(lists@),
            forall|p: Seq<char>| #[trigger]
                r@.contains(p) <==> exists|k: int| 0 <= k < i && (#[trigger] all[k]).contains(p),
        decreases lists@.len() - i,
    {
        let list = &lists[i];
        let ghost own = text::texts(list@);
        let ghost before = r@;
        assert(all[i as int] == own);
        let mut j: usize = 0;
        while j < list.len()
            invariant
                r.wf(),
                j <= list@.len(),
                own == text::texts(list@),
                forall|p: Seq<char>| #[trigger]
                    r@.contains(p) <==> before.contains(p) || own.take(j as int).contains(p),
            decreases list@.len() - j,
        {
            proof {
                names::lemma_take_contains(own, j as int);
                assert(own[j as int] == list@[j as int]@);
            }
            let _ = r.insert(list[j].clone());
            j += 1;
        }
        proof {
            assert(own.take(j as int) =~= own);
            assert forall|p: Seq<char>| #[trigger]
                r@.contains(p) <==> exists|k: int| 0 <= k < i + 1 && (#[trigger] all[k]).contains(
                    p,
                ) by {
                if before.contains(p) {
                    let k: int = choose|k: int| 0 <= k < i && (#[trigger] all[k]).contains(p);
                    assert(all[k].contains(p));
                }
                if own.contains(p) {
                    assert(all[i as int].contains(p));
                }
            }
        }
        i += 1;
    }
    assert(r@ =~= available_platforms(all));
    r
}

/// The targets that no node can build, with the platforms that they ask for.
pub open spec fn unmet_demands(q: dag::DagState) -> Seq<(Seq<char>, Seq<Seq<char>>)> {
    order::in_order(q.all.filter(|t: Seq<char>| !q.claimable(t))).map_values(
        |t: Seq<char>| (t, q.wants(t)),
    )
}

/// Checks that some node can build each target: otherwise the run would wait for ever.
pub fn check_satisfiable(builder: &str, queue: &DagQueue, lists: &Vec<Vec<String>>) -> (r: Result<
    (),
    PlanError,
>)
    requires
        queue.wf(),
    ensures
        match r {
            Ok(_) => forall|t: Seq<char>| queue@.all.contains(t) ==> #[trigger] queue@.claimable(t),
            Err(e) => (exists|t: Seq<char>|
                queue@.all.contains(t) && !#[trigger] queue@.claimable(t)) && e@ == (
            PlanErrorView::Unsatisfiable {
                builder: builder@,
                targets: unmet_demands(queue@),
                available: order::in_order(available_platforms(text::text_lists(lists@))),
            }),
        },
{
    let ghost q = queue@;
    let unmet = queue.unsatisfiable_targets();
    let ghost list = dag::target_names(unmet@);
    let ghost set = q.all.filter(|t: Seq<char>| !q.claimable(t));
    proof {
        assert forall|t: Seq<char>| list.to_set().contains(t) == set.contains(t) by {
            assert(list.contains(t) <==> q.all.contains(t) && !q.claimable(t));
        }
        assert(list.to_set() =~= set);
        order::lemma_in_order(list);
        assert(demands(unmet@) =~= unmet_demands(q));
    }
    if unmet.len() == 0 {
        assert forall|t: Seq<char>| q.all.contains(t) implies #[trigger] q.claimable(t) by {
            assert(!list.contains(t));
        }
        return Ok(());
    }
    proof {
        assert(list.contains(list[0]));
        assert(q.all.contains(list[0]) && !q.claimable(list[0]));
    }
    let available = gather_platforms(lists).into_list();
    Err(PlanError::Unsatisfiable { builder: builder.to_string(), targets: unmet, available })
}

/// The platforms that a node's builder is made for: those of the run, where any were asked for.
/// The builder would otherwise claim platforms that no target is sent to it for.
pub fn shard_platform(asked: &Option<Vec<String>>, platforms: &[String]) -> (r: Option<String>)
    ensures
        match r {
            Some(s) => asked is Some && s@ == text::join(text::texts(platforms@), ","@),
            None => asked is None,
        },
{
    match asked {
        Some(_) => Some(joined(platforms, ",")),
        None => None,
    }
}

/// The line that tells of a node's builder.
pub fn shard_line(shard: &str, endpoint: &str, platforms: &[String]) -> (r: String)
    ensures
        r@ == "Created shard: "@ + shard@ + " → "@ + endpoint@ + " ["@ + text::join(
            text::texts(platforms@),
            ", "@,
        ) + "]"@,
{
    "Created shard: ".to_string().concat(shard).concat(" → ").concat(endpoint).concat(" [").concat(
        joined(platforms, ", ").as_str(),
    ).concat("]")
}

/// Asking for platforms never gives a node one that it does not report, where it reports any.
pub proof fn law_platforms_only_narrow(
    own: Seq<Seq<char>>,
    asked: Option<Seq<Seq<char>>>,
    p: Seq<char>,
)
    requires
        own.len() > 0,
        effective(own, asked).contains(p),
    ensures
        own.contains(p),
        asked matches Some(wanted) ==> asked_for(p, wanted),
{
    match asked {
        Some(wanted) => {
            names::lemma_filter_holds(own, |x: Seq<char>| asked_for(x, wanted), p);
        },
        None => {},
    }
}

}
