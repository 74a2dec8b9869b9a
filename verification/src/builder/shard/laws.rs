//! Which builders are removed, and how one is made.
use super::ShardKind;
use crate::names;
use crate::text;
use vstd::prelude::*;

verus! {

/// The builders to remove are those on the lines that are ours and whose run, if they name one, no
/// longer goes on.
proof fn lemma_stale(
    lines: Seq<Seq<char>>,
    prefix: Seq<char>,
    alive: Seq<bool>,
    name: Seq<char>,
)
    ensures
        super::stale_names(lines, prefix, alive).contains(name) <==> exists|i: int|
            0 <= i < lines.len() && super::listed_name(#[trigger] lines[i]) == name
                && super::is_stale(super::shard_kind(name, prefix), alive[i]),
    decreases lines.len(),
{
    if lines.len() > 0 {
        let short = lines.drop_last();
        let last = super::listed_name(lines.last());
        lemma_stale(short, prefix, alive, name);
        names::lemma_push_contains(super::stale_names(short, prefix, alive), last, name);
        if super::stale_names(short, prefix, alive).contains(name) {
            let i: int = choose|i: int|
                0 <= i < short.len() && super::listed_name(#[trigger] short[i]) == name
                    && super::is_stale(super::shard_kind(name, prefix), alive[i]);
            assert(lines[i] == short[i]);
        }
        if exists|i: int|
            0 <= i < lines.len() && super::listed_name(#[trigger] lines[i]) == name
                && super::is_stale(super::shard_kind(name, prefix), alive[i]) {
            let i: int = choose|i: int|
                0 <= i < lines.len() && super::listed_name(#[trigger] lines[i]) == name
                    && super::is_stale(super::shard_kind(name, prefix), alive[i]);
            if i < short.len() {
                assert(short[i] == lines[i]);
            }
        }
        if super::is_stale(super::shard_kind(last, prefix), alive[lines.len() - 1]) && last == name {
            assert(super::listed_name(lines[lines.len() - 1]) == name);
        }
    }
}

/// A builder that is not named as ours are is never removed, whatever runs.
pub proof fn law_other_builders_are_kept(
    lines: Seq<Seq<char>>,
    prefix: Seq<char>,
    alive: Seq<bool>,
    name: Seq<char>,
)
    requires
        super::stale_names(lines, prefix, alive).contains(name),
    ensures
        (prefix + "-shard-"@).is_prefix_of(name),
{
    lemma_stale(lines, prefix, alive, name);
}

/// A listed builder of ours is removed where its run no longer goes on, on whichever line it
/// stands, and where it names no run; one of a run that goes on is not removed.
pub proof fn law_dead_builders_are_removed(
    lines: Seq<Seq<char>>,
    prefix: Seq<char>,
    alive: Seq<bool>,
    node: Seq<char>,
    id: u32,
    i: int,
)
    requires
        0 <= i < lines.len(),
    ensures
        super::listed_name(lines[i]) == super::name_of_shard(prefix, node, id as nat) && !alive[i]
            ==> super::stale_names(lines, prefix, alive).contains(
            super::name_of_shard(prefix, node, id as nat),
        ),
        super::listed_name(lines[i]) == prefix + "-shard-"@ + node && !text::occurs(
            node,
            super::RUN_MARKER@,
        ) ==> super::stale_names(lines, prefix, alive).contains(prefix + "-shard-"@ + node),
        (forall|j: int|
            0 <= j < lines.len() && super::listed_name(#[trigger] lines[j])
                == super::name_of_shard(prefix, node, id as nat) ==> alive[j])
            ==> !super::stale_names(lines, prefix, alive).contains(
            super::name_of_shard(prefix, node, id as nat),
        ),
{
    let owned = super::name_of_shard(prefix, node, id as nat);
    let legacy = prefix + "-shard-"@ + node;
    super::law_shard_name_reads_back(prefix, node, id);
    lemma_stale(lines, prefix, alive, owned);
    lemma_stale(lines, prefix, alive, legacy);
    if super::listed_name(lines[i]) == legacy && !text::occurs(node, super::RUN_MARKER@) {
        law_kinds_are_told_by_name(legacy, prefix, node);
    }
}

/// A builder is ours where its name starts with that of the builder and `-shard-`; one of ours
/// without the marker of a run names none.
pub proof fn law_kinds_are_told_by_name(name: Seq<char>, prefix: Seq<char>, rest: Seq<char>)
    ensures
        !(prefix + "-shard-"@).is_prefix_of(name) <==> super::shard_kind(name, prefix)
            == ShardKind::Foreign,
        !text::occurs(rest, super::RUN_MARKER@) ==> super::shard_kind(
            prefix + "-shard-"@ + rest,
            prefix,
        ) == ShardKind::Legacy,
{
    let head = prefix + "-shard-"@;
    let own = head + rest;
    assert(own.take(head.len() as int) =~= head);
    assert(own.skip(head.len() as int) =~= rest);
    if !text::occurs(rest, super::RUN_MARKER@) {
        assert forall|j: int| -1 < j <= rest.len() implies !text::occurs_at(
            rest,
            super::RUN_MARKER@,
            j,
        ) by {}
        text::lemma_last_occurrence(rest, super::RUN_MARKER@, rest.len() as int, -1);
    }
}

proof fn lemma_stars(name: Seq<char>, stars: Seq<char>)
    requires
        name.len() > 0 ==> name.last() != '*',
        forall|i: int| 0 <= i < stars.len() ==> #[trigger] stars[i] == '*',
    ensures
        super::without_stars(name + stars) == name,
    decreases stars.len(),
{
    if stars.len() > 0 {
        assert(stars[stars.len() - 1] == '*');
        assert((name + stars).last() == '*');
        assert((name + stars).drop_last() =~= name + stars.drop_last());
        lemma_stars(name, stars.drop_last());
    } else {
        assert(name + stars =~= name);
    }
}

proof fn lemma_first_word(word: Seq<char>, rest: Seq<char>)
    requires
        forall|i: int| 0 <= i < word.len() ==> !text::white(#[trigger] word[i]),
        rest.len() > 0 ==> text::white(rest[0]),
    ensures
        super::until_white(word + rest) == word,
    decreases word.len(),
{
    if word.len() > 0 {
        assert((word + rest)[0] == word[0]);
        assert((word + rest).skip(1) =~= word.skip(1) + rest);
        assert forall|i: int| 0 <= i < word.skip(1).len() implies !text::white(
            #[trigger] word.skip(1)[i],
        ) by {
            assert(word.skip(1)[i] == word[i + 1]);
        }
        lemma_first_word(word.skip(1), rest);
        assert(seq![word[0]] + word.skip(1) =~= word);
    } else {
        assert(word + rest =~= rest);
        assert(word =~= Seq::<char>::empty());
    }
}

/// The name of a listed builder is the first word of its line, without the star that marks the
/// current one and whatever stands behind it.
pub proof fn law_first_word_is_the_name(
    gap: Seq<char>,
    name: Seq<char>,
    stars: Seq<char>,
    rest: Seq<char>,
)
    requires
        forall|i: int| 0 <= i < gap.len() ==> text::white(#[trigger] gap[i]),
        name.len() > 0,
        name.last() != '*',
        forall|i: int| 0 <= i < name.len() ==> !text::white(#[trigger] name[i]),
        forall|i: int| 0 <= i < stars.len() ==> #[trigger] stars[i] == '*',
        rest.len() > 0 ==> text::white(rest[0]),
    ensures
        super::listed_name(gap + (name + stars + rest)) == name,
{
    let word = name + stars;
    text::lemma_trim_gap(gap, word + rest);
    assert((word + rest)[0] == name[0]);
    assert(text::trim_start(word + rest) == word + rest);
    assert forall|i: int| 0 <= i < word.len() implies !text::white(#[trigger] word[i]) by {
        if i >= name.len() {
            assert(stars[i - name.len()] == '*');
        }
    }
    lemma_first_word(word, rest);
    lemma_stars(name, stars);
}

/// A node's builder is made under its name, for the node's endpoint, and for the platforms that
/// are given, if any are; nothing else is asked for.
pub proof fn law_builder_is_made_for_its_node(
    name: Seq<char>,
    platform: Option<Seq<char>>,
    endpoint: Seq<char>,
)
    ensures
        ({
            let c = super::create_command(name, platform, endpoint);
            let n = c.len() as int;
            &&& c[0] == "buildx"@ && c[1] == "create"@ && c[2] == "--name"@ && c[3] == name
            &&& c[n - 3] == "--driver"@ && c[n - 2] == "remote"@ && c[n - 1] == endpoint
            &&& match platform {
                Some(p) => n == 9 && c[4] == "--platform"@ && c[5] == p,
                None => n == 7,
            }
        }),
{
}

/// In one run every node has a builder of its own name.
pub proof fn law_nodes_have_their_own_builders(
    prefix: Seq<char>,
    node_a: Seq<char>,
    node_b: Seq<char>,
    run_id: nat,
)
    requires
        node_a != node_b,
    ensures
        super::name_of_shard(prefix, node_a, run_id) != super::name_of_shard(prefix, node_b, run_id),
{
    let head = prefix + "-shard-"@;
    let tail = super::RUN_MARKER@ + text::decimal(run_id);
    let a = super::name_of_shard(prefix, node_a, run_id);
    let b = super::name_of_shard(prefix, node_b, run_id);
    assert(a =~= head + node_a + tail);
    assert(b =~= head + node_b + tail);
    if a == b {
        assert(node_a.len() == node_b.len());
        assert(a.subrange(head.len() as int, head.len() as int + node_a.len()) =~= node_a);
        assert(b.subrange(head.len() as int, head.len() as int + node_b.len()) =~= node_b);
    }
}

/// The builders to remove stand in the order of the lines, each as often as it is listed.
pub proof fn law_builders_are_removed_in_order(
    lines: Seq<Seq<char>>,
    line: Seq<char>,
    prefix: Seq<char>,
    alive: Seq<bool>,
)
    requires
        alive.len() == lines.len() + 1,
    ensures
        ({
            let before = super::stale_names(lines, prefix, alive);
            let name = super::listed_name(line);
            super::stale_names(lines.push(line), prefix, alive) == before || super::stale_names(
                lines.push(line),
                prefix,
                alive,
            ) == before.push(name)
        }),
{
    assert(lines.push(line).drop_last() =~= lines);
}

}
