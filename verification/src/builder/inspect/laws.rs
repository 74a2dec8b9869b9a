//! What holds of the nodes that are found.
use super::RecordView;
use crate::builder::node::NodeView;
use crate::text;
use vstd::prelude::*;

verus! {

/// Whether a line, without the white space around it, starts with a word.
pub open spec fn says(line: Seq<char>, word: Seq<char>) -> bool {
    word.is_prefix_of(text::trim(line))
}

/// What a line says behind a word.
pub open spec fn said(line: Seq<char>, word: Seq<char>) -> Seq<char> {
    text::trim(text::trim(line).skip(word.len() as int))
}

/// A line with a name starts a new node: what was said before it has nothing to do with that
/// node, and the other way round.
pub proof fn law_nodes_are_read_apart(a: Seq<Seq<char>>, b: Seq<Seq<char>>, r: RecordView)
    requires
        b.len() > 0,
        says(b[0], "Name:"@),
    ensures
        super::nodes_from(a + b, r) == super::nodes_from(a, r) + super::nodes_from(
            b,
            super::blank(),
        ),
    decreases a.len(),
{
    if a.len() == 0 {
        assert(a + b =~= b);
        let rest = super::nodes_from(
            b.skip(1),
            RecordView { name: Some(said(b[0], "Name:"@)), ..super::blank() },
        );
        assert(super::usable(super::blank()) =~= Seq::<NodeView>::empty());
        assert(Seq::<NodeView>::empty() + rest =~= rest);
    } else {
        let line = text::trim(a[0]);
        assert((a + b)[0] == a[0]);
        assert((a + b).skip(1) =~= a.skip(1) + b);
        match text::after_prefix(line, "Name:"@) {
            Some(rest) => {
                let next = RecordView { name: Some(text::trim(rest)), ..super::blank() };
                law_nodes_are_read_apart(a.skip(1), b, next);
                assert(super::usable(r) + (super::nodes_from(a.skip(1), next) + super::nodes_from(
                    b,
                    super::blank(),
                )) =~= super::usable(r) + super::nodes_from(a.skip(1), next) + super::nodes_from(
                    b,
                    super::blank(),
                ));
            },
            None => {
                law_nodes_are_read_apart(a.skip(1), b, super::noted(r, line));
            },
        }
    }
}

/// What has been read of a node after lines without a name.
spec fn after_lines(lines: Seq<Seq<char>>, r: RecordView) -> RecordView
    decreases lines.len(),
{
    if lines.len() == 0 {
        r
    } else {
        after_lines(lines.skip(1), super::noted(r, text::trim(lines[0])))
    }
}

proof fn lemma_after_lines(lines: Seq<Seq<char>>, r: RecordView)
    requires
        forall|j: int| 0 <= j < lines.len() ==> !says(#[trigger] lines[j], "Name:"@),
    ensures
        super::nodes_from(lines, r) == super::usable(after_lines(lines, r)),
        after_lines(lines, r).name == r.name,
    decreases lines.len(),
{
    if lines.len() > 0 {
        assert(!says(lines[0], "Name:"@));
        assert forall|j: int| 0 <= j < lines.skip(1).len() implies !says(
            #[trigger] lines.skip(1)[j],
            "Name:"@,
        ) by {
            assert(lines.skip(1)[j] == lines[j + 1]);
        }
        lemma_after_lines(lines.skip(1), super::noted(r, text::trim(lines[0])));
    }
}

/// A line says one thing only.
proof fn lemma_one_word(line: Seq<char>)
    ensures
        says(line, "Endpoint:"@) ==> !says(line, "Status:"@) && !says(line, "Platforms:"@),
        says(line, "Status:"@) ==> !says(line, "Platforms:"@),
{
    reveal_strlit("Endpoint:");
    reveal_strlit("Status:");
    reveal_strlit("Platforms:");
    let t = text::trim(line);
    if says(line, "Endpoint:"@) {
        assert(t[0] == "Endpoint:"@[0]);
    }
    if says(line, "Status:"@) {
        assert(t[0] == "Status:"@[0]);
    }
    if says(line, "Platforms:"@) {
        assert(t[0] == "Platforms:"@[0]);
    }
}

/// A field stays as it is where no line is about it, and is otherwise what the last line about it
/// says.
proof fn lemma_fields(lines: Seq<Seq<char>>, r: RecordView, e: int, s: int, p: int)
    requires
        -1 <= e < lines.len(),
        -1 <= s < lines.len(),
        -1 <= p < lines.len(),
        e >= 0 ==> says(lines[e], "Endpoint:"@),
        s >= 0 ==> says(lines[s], "Status:"@),
        p >= 0 ==> says(lines[p], "Platforms:"@),
        forall|j: int| e < j < lines.len() ==> !says(#[trigger] lines[j], "Endpoint:"@),
        forall|j: int| s < j < lines.len() ==> !says(#[trigger] lines[j], "Status:"@),
        forall|j: int| p < j < lines.len() ==> !says(#[trigger] lines[j], "Platforms:"@),
    ensures
        ({
            let n = after_lines(lines, r);
            &&& n.endpoint == if e >= 0 {
                Some(said(lines[e], "Endpoint:"@))
            } else {
                r.endpoint
            }
            &&& n.status == if s >= 0 {
                Some(said(lines[s], "Status:"@))
            } else {
                r.status
            }
            &&& n.platforms == if p >= 0 {
                super::comma_list(said(lines[p], "Platforms:"@))
            } else {
                r.platforms
            }
        }),
    decreases lines.len(),
{
    if lines.len() > 0 {
        let rest = lines.skip(1);
        let next = super::noted(r, text::trim(lines[0]));
        lemma_one_word(lines[0]);
        let down = |x: int|
            if x >= 1 {
                x - 1
            } else {
                -1
            };
        assert forall|j: int| 0 <= j < rest.len() implies #[trigger] rest[j] == lines[j + 1] by {}
        assert forall|j: int| down(e) < j < rest.len() implies !says(
            #[trigger] rest[j],
            "Endpoint:"@,
        ) by {
            assert(rest[j] == lines[j + 1]);
        }
        assert forall|j: int| down(s) < j < rest.len() implies !says(
            #[trigger] rest[j],
            "Status:"@,
        ) by {
            assert(rest[j] == lines[j + 1]);
        }
        assert forall|j: int| down(p) < j < rest.len() implies !says(
            #[trigger] rest[j],
            "Platforms:"@,
        ) by {
            assert(rest[j] == lines[j + 1]);
        }
        lemma_fields(rest, next, down(e), down(s), down(p));
        if e < 0 {
            assert(!says(lines[0], "Endpoint:"@));
        }
        if s < 0 {
            assert(!says(lines[0], "Status:"@));
        }
        if p < 0 {
            assert(!says(lines[0], "Platforms:"@));
        }
    }
}

/// The lines of one node, the first of which gives its name, make a node that builds can be sent
/// to where the last endpoint that they give is one of TCP and the last status is `running`; with
/// the platforms that were given last. Otherwise they make none.
pub proof fn law_running_tcp_nodes_are_found(
    lines: Seq<Seq<char>>,
    e: int,
    s: int,
    p: int,
)
    requires
        lines.len() > 0,
        says(lines[0], "Name:"@),
        forall|j: int| 0 < j < lines.len() ==> !says(#[trigger] lines[j], "Name:"@),
        0 < e < lines.len() && says(lines[e], "Endpoint:"@),
        0 < s < lines.len() && says(lines[s], "Status:"@),
        0 < p < lines.len() && says(lines[p], "Platforms:"@),
        forall|j: int| e < j < lines.len() ==> !says(#[trigger] lines[j], "Endpoint:"@),
        forall|j: int| s < j < lines.len() ==> !says(#[trigger] lines[j], "Status:"@),
        forall|j: int| p < j < lines.len() ==> !says(#[trigger] lines[j], "Platforms:"@),
    ensures
        super::nodes_from(lines, super::blank()) == if "tcp://"@.is_prefix_of(
            said(lines[e], "Endpoint:"@),
        ) && said(lines[s], "Status:"@) == "running"@ {
            seq![
                NodeView {
                    name: said(lines[0], "Name:"@),
                    endpoint: said(lines[e], "Endpoint:"@),
                    platforms: super::comma_list(said(lines[p], "Platforms:"@)),
                },
            ]
        } else {
            Seq::empty()
        },
{
    let rest = lines.skip(1);
    let start = RecordView { name: Some(said(lines[0], "Name:"@)), ..super::blank() };
    assert forall|j: int| 0 <= j < rest.len() implies #[trigger] rest[j] == lines[j + 1] by {}
    assert forall|j: int| 0 <= j < rest.len() implies !says(#[trigger] rest[j], "Name:"@) by {
        assert(rest[j] == lines[j + 1]);
    }
    assert forall|j: int| e - 1 < j < rest.len() implies !says(#[trigger] rest[j], "Endpoint:"@) by {
        assert(rest[j] == lines[j + 1]);
    }
    assert forall|j: int| s - 1 < j < rest.len() implies !says(#[trigger] rest[j], "Status:"@) by {
        assert(rest[j] == lines[j + 1]);
    }
    assert forall|j: int| p - 1 < j < rest.len() implies !says(
        #[trigger] rest[j],
        "Platforms:"@,
    ) by {
        assert(rest[j] == lines[j + 1]);
    }
    assert(rest[e - 1] == lines[e] && rest[s - 1] == lines[s] && rest[p - 1] == lines[p]);
    lemma_after_lines(rest, start);
    lemma_fields(rest, start, e - 1, s - 1, p - 1);
    assert(super::usable(super::blank()) =~= Seq::<NodeView>::empty());
    assert(super::nodes_from(lines, super::blank()) =~= super::nodes_from(rest, start));
}

/// A node without an endpoint, or without a status, is none that builds can be sent to; one that
/// reports no platforms is found without any.
pub proof fn law_incomplete_nodes_are_passed_over(lines: Seq<Seq<char>>, e: int, s: int)
    requires
        lines.len() > 0,
        says(lines[0], "Name:"@),
        forall|j: int| 0 < j < lines.len() ==> !says(#[trigger] lines[j], "Name:"@),
        -1 <= e < lines.len() && (e >= 0 ==> e > 0 && says(lines[e], "Endpoint:"@)),
        -1 <= s < lines.len() && (s >= 0 ==> s > 0 && says(lines[s], "Status:"@)),
        forall|j: int| 0 < j < lines.len() && e < j ==> !says(#[trigger] lines[j], "Endpoint:"@),
        forall|j: int| 0 < j < lines.len() && s < j ==> !says(#[trigger] lines[j], "Status:"@),
        forall|j: int| 0 < j < lines.len() ==> !says(#[trigger] lines[j], "Platforms:"@),
    ensures
        e < 0 || s < 0 ==> super::nodes_from(lines, super::blank()).len() == 0,
        e > 0 && s > 0 && "tcp://"@.is_prefix_of(said(lines[e], "Endpoint:"@)) && said(
            lines[s],
            "Status:"@,
        ) == "running"@ ==> super::nodes_from(lines, super::blank()) == seq![
            NodeView {
                name: said(lines[0], "Name:"@),
                endpoint: said(lines[e], "Endpoint:"@),
                platforms: Seq::empty(),
            },
        ],
{
    let rest = lines.skip(1);
    let start = RecordView { name: Some(said(lines[0], "Name:"@)), ..super::blank() };
    let down = |x: int|
        if x >= 1 {
            x - 1
        } else {
            -1
        };
    assert forall|j: int| 0 <= j < rest.len() implies #[trigger] rest[j] == lines[j + 1] by {}
    assert forall|j: int| 0 <= j < rest.len() implies !says(#[trigger] rest[j], "Name:"@) by {
        assert(rest[j] == lines[j + 1]);
    }
    assert forall|j: int| down(e) < j < rest.len() implies !says(
        #[trigger] rest[j],
        "Endpoint:"@,
    ) by {
        assert(rest[j] == lines[j + 1]);
    }
    assert forall|j: int| down(s) < j < rest.len() implies !says(#[trigger] rest[j], "Status:"@) by {
        assert(rest[j] == lines[j + 1]);
    }
    assert forall|j: int| -1 < j < rest.len() implies !says(#[trigger] rest[j], "Platforms:"@) by {
        assert(rest[j] == lines[j + 1]);
    }
    lemma_after_lines(rest, start);
    lemma_fields(rest, start, down(e), down(s), -1);
    assert(super::usable(super::blank()) =~= Seq::<NodeView>::empty());
    assert(super::nodes_from(lines, super::blank()) =~= super::nodes_from(rest, start));
}

proof fn lemma_filled_sum(a: Seq<Seq<char>>, b: Seq<Seq<char>>)
    ensures
        super::filled(a + b) == super::filled(a) + super::filled(b),
    decreases b.len(),
{
    if b.len() == 0 {
        assert(a + b =~= a);
    } else {
        assert((a + b).drop_last() =~= a + b.drop_last());
        lemma_filled_sum(a, b.drop_last());
    }
}

/// A list is read entry by entry, from comma to comma: each without the white space around it, and
/// none where nothing else is there.
pub proof fn law_commas_part_entries(entry: Seq<char>, rest: Seq<char>)
    requires
        !entry.contains(','),
    ensures
        super::comma_list(entry) == if text::trim(entry).len() > 0 {
            seq![text::trim(entry)]
        } else {
            Seq::empty()
        },
        super::comma_list(entry + seq![','] + rest) == super::comma_list(entry)
            + super::comma_list(rest),
{
    let n = entry.len() as int;
    assert forall|j: int| 0 <= j < n implies entry[j] != ',' by {
        assert(entry.contains(entry[j]));
    }
    text::lemma_first_index(entry, ',', n);
    let one = seq![entry];
    assert(text::split(entry, ',') == one);
    assert(one.drop_last() =~= Seq::<Seq<char>>::empty());
    assert(super::filled(one.drop_last()) =~= Seq::<Seq<char>>::empty());
    let s = entry + seq![','] + rest;
    assert forall|j: int| 0 <= j < n implies s[j] != ',' by {
        assert(s[j] == entry[j]);
    }
    assert(s[n] == ',');
    text::lemma_first_index(s, ',', n);
    assert(s.take(n) =~= entry);
    assert(s.skip(n + 1) =~= rest);
    assert(text::split(s, ',') == one + text::split(rest, ','));
    lemma_filled_sum(one, text::split(rest, ','));
}

}
