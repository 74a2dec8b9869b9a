//! The nodes that `docker buildx inspect` reports.
use super::node;
use super::node::{Node, NodeView};
use crate::text;
use crate::text::{
    add_text, begins_with, chars_of, lines_of, pieces, same_text, string_of, strip_lead, trimmed,
};
use vstd::prelude::*;
use vstd::string::*;

pub mod laws;

verus! {

/// What has been read of a node.
#[verifier::ext_equal]
pub struct RecordView {
    pub name: Option<Seq<char>>,
    pub endpoint: Option<Seq<char>>,
    pub status: Option<Seq<char>>,
    pub platforms: Seq<Seq<char>>,
}

/// Nothing read yet.
pub open spec fn blank() -> RecordView {
    RecordView { name: None, endpoint: None, status: None, platforms: Seq::empty() }
}

/// The pieces without the white space around them, and without the empty ones.
pub open spec fn filled(parts: Seq<Seq<char>>) -> Seq<Seq<char>>
    decreases parts.len(),
{
    if parts.len() == 0 {
        Seq::empty()
    } else {
        let before = filled(parts.drop_last());
        let part = text::trim(parts.last());
        if part.len() == 0 {
            before
        } else {
            before.push(part)
        }
    }
}

/// The entries of a list with commas between them.
pub open spec fn comma_list(s: Seq<char>) -> Seq<Seq<char>> {
    filled(text::split(s, ','))
}

/// The node that a record describes, if builds can be sent to it: it has a name, a TCP endpoint
/// and is running.
pub open spec fn usable(r: RecordView) -> Seq<NodeView> {
    match (r.name, r.endpoint) {
        (Some(name), Some(endpoint)) => if "tcp://"@.is_prefix_of(endpoint) && r.status == Some(
            "running"@,
        ) {
            seq![NodeView { name, endpoint, platforms: r.platforms }]
        } else {
            Seq::empty()
        },
        _ => Seq::empty(),
    }
}

/// A record after a line other than one with a name.
pub open spec fn noted(r: RecordView, line: Seq<char>) -> RecordView {
    match text::after_prefix(line, "Endpoint:"@) {
        Some(rest) => RecordView { endpoint: Some(text::trim(rest)), ..r },
        None => match text::after_prefix(line, "Status:"@) {
            Some(rest) => RecordView { status: Some(text::trim(rest)), ..r },
            None => match text::after_prefix(line, "Platforms:"@) {
                Some(rest) => RecordView { platforms: comma_list(text::trim(rest)), ..r },
                None => r,
            },
        },
    }
}

/// The usable nodes that lines describe, where `r` has been read of the first one. A line with a
/// name starts a new node.
pub open spec fn nodes_from(lines: Seq<Seq<char>>, r: RecordView) -> Seq<NodeView>
    decreases lines.len(),
{
    if lines.len() == 0 {
        usable(r)
    } else {
        let line = text::trim(lines[0]);
        match text::after_prefix(line, "Name:"@) {
            Some(rest) => usable(r) + nodes_from(
                lines.skip(1),
                RecordView { name: Some(text::trim(rest)), ..blank() },
            ),
            None => nodes_from(lines.skip(1), noted(r, line)),
        }
    }
}

struct Record {
    name: Option<String>,
    endpoint: Option<String>,
    status: Option<String>,
    platforms: Vec<String>,
}

spec fn opt_text(s: Option<String>) -> Option<Seq<char>> {
    match s {
        Some(t) => Some(t@),
        None => None,
    }
}

impl View for Record {
    type V = RecordView;

    closed spec fn view(&self) -> RecordView {
        RecordView {
            name: opt_text(self.name),
            endpoint: opt_text(self.endpoint),
            status: opt_text(self.status),
            platforms: text::texts(self.platforms@),
        }
    }
}

/// The entries of a list with commas between them, without white space and empty entries.
pub fn comma_entries(s: &[char]) -> (r: Vec<String>)
    ensures
        text::texts(r@) == comma_list(s@),
{
    let parts = pieces(s, ',');
    let ghost all = text::split(s@, ',');
    let mut r: Vec<String> = Vec::new();
    let mut i: usize = 0;
    assert(text::texts(r@) =~= filled(all.take(0)));
    while i < parts.len()
        invariant
            i <= parts@.len(),
            all == text::slices(parts@),
            text::texts(r@) == filled(all.take(i as int)),
        decreases parts@.len() - i,
    {
        proof {
            assert(all[i as int] == parts@[i as int]@);
            assert(all.take(i + 1).drop_last() =~= all.take(i as int));
        }
        let part = trimmed(parts[i]);
        if part.len() > 0 {
            add_text(&mut r, string_of(part));
        }
        i += 1;
    }
    assert(all.take(i as int) =~= all);
    r
}

fn is_usable(r: &Record) -> (b: bool)
    ensures
        b == (usable(r@).len() > 0),
{
    match (&r.name, &r.endpoint, &r.status) {
        (Some(_), Some(endpoint), Some(status)) => begins_with(
            chars_of(endpoint.as_str()).as_slice(),
            "tcp://",
        ) && same_text(status.as_str(), "running"),
        _ => false,
    }
}

fn flush(r: Record, nodes: &mut Vec<Node>)
    ensures
        node::node_views(final(nodes)@) == node::node_views(old(nodes)@) + usable(r@),
{
    let ghost before = node::node_views(nodes@);
    let keep = is_usable(&r);
    let ghost rec = r@;
    if keep {
        if let Some(name) = r.name {
            if let Some(endpoint) = r.endpoint {
                let n = Node { name, endpoint, platforms: r.platforms };
                nodes.push(n);
                assert(usable(rec) =~= seq![n@]);
                assert(node::node_views(nodes@) =~= before + usable(rec));
            }
        }
    } else {
        assert(usable(rec) =~= Seq::empty());
        assert(node::node_views(nodes@) =~= before + usable(rec));
    }
}

fn note(r: Record, line: &[char]) -> (n: Record)
    ensures
        n@ == noted(r@, line@),
{
    let mut n = r;
    if let Some(rest) = strip_lead(line, "Endpoint:") {
        n.endpoint = Some(string_of(trimmed(rest)));
    } else if let Some(rest) = strip_lead(line, "Status:") {
        n.status = Some(string_of(trimmed(rest)));
    } else if let Some(rest) = strip_lead(line, "Platforms:") {
        n.platforms = comma_entries(trimmed(rest));
    }
    n
}

/// The nodes of `docker buildx inspect` that builds can be sent to: those with a TCP endpoint
/// that are running.
pub fn parse_inspect_output(output: &str) -> (r: Vec<Node>)
    ensures
        node::node_views(r@) == nodes_from(text::lines(output@), blank()),
{
    let chars = chars_of(output);
    let lines = lines_of(chars.as_slice());
    let ghost all = text::lines(output@);
    let mut nodes: Vec<Node> = Vec::new();
    let mut record = Record { name: None, endpoint: None, status: None, platforms: Vec::new() };
    let mut i: usize = 0;
    assert(record@ =~= blank());
    assert(all.skip(0) =~= all);
    assert(node::node_views(nodes@) + nodes_from(all, blank()) =~= nodes_from(all, blank()));
    while i < lines.len()
        invariant
            i <= lines@.len(),
            all == text::slices(lines@),
            all == text::lines(output@),
            nodes_from(all, blank()) == node::node_views(nodes@) + nodes_from(
                all.skip(i as int),
                record@,
            ),
        decreases lines@.len() - i,
    {
        let ghost here = all.skip(i as int);
        let ghost before = node::node_views(nodes@);
        let ghost was = record@;
        proof {
            assert(here[0] == all[i as int]);
            assert(all[i as int] == lines@[i as int]@);
            assert(here.skip(1) =~= all.skip(i + 1));
        }
        let line = trimmed(lines[i]);
        if let Some(rest) = strip_lead(line, "Name:") {
            flush(record, &mut nodes);
            record = Record {
                name: Some(string_of(trimmed(rest))),
                endpoint: None,
                status: None,
                platforms: Vec::new(),
            };
            proof {
                assert(record@ =~= (RecordView { name: Some(text::trim(rest@)), ..blank() }));
                let more = nodes_from(all.skip(i + 1), record@);
                assert(before + (usable(was) + more) =~= (before + usable(was)) + more);
            }
        } else {
            record = note(record, line);
        }
        i += 1;
    }
    assert(all.skip(i as int).len() == 0);
    flush(record, &mut nodes);
    nodes
}

/// Every node that is reported has a TCP endpoint.
pub proof fn law_nodes_are_reachable(lines: Seq<Seq<char>>, r: RecordView, i: int)
    requires
        0 <= i < nodes_from(lines, r).len(),
    ensures
        "tcp://"@.is_prefix_of(nodes_from(lines, r)[i].endpoint),
    decreases lines.len(),
{
    if lines.len() > 0 {
        let line = text::trim(lines[0]);
        match text::after_prefix(line, "Name:"@) {
            Some(rest) => {
                let next = RecordView { name: Some(text::trim(rest)), ..blank() };
                if i >= usable(r).len() {
                    law_nodes_are_reachable(lines.skip(1), next, i - usable(r).len());
                }
            },
            None => {
                law_nodes_are_reachable(lines.skip(1), noted(r, line), i);
            },
        }
    }
}

/// The arguments of `docker` that inspect a builder.
pub fn inspect_args(builder: &str) -> (r: Vec<String>)
    ensures
        text::texts(r@) == seq!["buildx"@, "inspect"@, builder@],
{
    let mut r: Vec<String> = Vec::new();
    add_text(&mut r, "buildx".to_string());
    add_text(&mut r, "inspect".to_string());
    add_text(&mut r, builder.to_string());
    assert(text::texts(r@) =~= seq!["buildx"@, "inspect"@, builder@]);
    r
}

/// The error of an inspection that failed, with what it wrote.
pub fn inspect_failure(stderr: &str) -> (r: String)
    ensures
        r@ == "docker buildx inspect failed: "@ + text::trim(stderr@),
{
    let chars = chars_of(stderr);
    "docker buildx inspect failed: ".to_string().concat(
        string_of(trimmed(chars.as_slice())).as_str(),
    )
}

}
