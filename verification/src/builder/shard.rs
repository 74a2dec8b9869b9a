//! The builders that one run makes for its nodes, and those that others left behind.
use super::node::Node;
use crate::text;
use crate::text::{
    add_text, chars_of, decimal_of, is_white, last_piece, lines_of, read_u32, string_of, strip_lead,
    trimmed, trimmed_start,
};
use vstd::prelude::*;
use vstd::slice::*;
use vstd::string::*;

pub mod laws;

verus! {

/// What stands between the node's name and the run's number. A plain `-` would not do: the
/// builder of a node called `worker-2` would be taken for that of run 2.
pub const RUN_MARKER: &'static str = "--run";

/// The name of a node's builder in a run.
pub open spec fn name_of_shard(prefix: Seq<char>, node: Seq<char>, run_id: nat) -> Seq<char> {
    prefix + "-shard-"@ + node + RUN_MARKER@ + text::decimal(run_id)
}

/// The name of a node's builder in a run. The run's number, which is that of its process, keeps
/// runs from making, and then removing, each other's builders.
pub fn shard_name(builder_prefix: &str, node_name: &str, run_id: u32) -> (r: String)
    ensures
        r@ == name_of_shard(builder_prefix@, node_name@, run_id as nat),
{
    builder_prefix.to_string().concat("-shard-").concat(node_name).concat(RUN_MARKER).concat(
        decimal_of(run_id as u64).as_str(),
    )
}

/// What a builder is to us.
#[derive(Debug, Clone, Copy, PartialEq, Eq, Structural)]
pub enum ShardKind {
    /// None of ours.
    Foreign,
    /// One of ours that names no run.
    Legacy,
    /// One of ours, made by the run of this number.
    Owned(u32),
}

/// What a builder of this name is to us.
pub open spec fn shard_kind(name: Seq<char>, prefix: Seq<char>) -> ShardKind {
    match text::after_prefix(name, prefix + "-shard-"@) {
        None => ShardKind::Foreign,
        Some(rest) => {
            let at = text::last_occurrence(rest, RUN_MARKER@);
            if at < 0 {
                ShardKind::Legacy
            } else {
                match text::parse_u32(rest.skip(at + RUN_MARKER@.len())) {
                    Some(id) => ShardKind::Owned(id),
                    None => ShardKind::Legacy,
                }
            }
        },
    }
}

fn kind_of(name: &[char], builder_prefix: &str) -> (r: ShardKind)
    ensures
        r == shard_kind(name@, builder_prefix@),
{
    let prefix = builder_prefix.to_string().concat("-shard-");
    match strip_lead(name, prefix.as_str()) {
        None => ShardKind::Foreign,
        Some(rest) => match last_piece(rest, RUN_MARKER) {
            None => ShardKind::Legacy,
            Some(at) => {
                let end: usize = rest.len();
                let from: usize = at + RUN_MARKER.unicode_len();
                let digits = slice_subrange(rest, from, end);
                assert(digits@ =~= rest@.skip(from as int));
                match read_u32(digits) {
                    Some(id) => ShardKind::Owned(id),
                    None => ShardKind::Legacy,
                }
            },
        },
    }
}

/// What a builder of this name is to us, so that cleaning up leaves the builders of other runs
/// alone.
pub fn classify_shard(name: &str, builder_prefix: &str) -> (r: ShardKind)
    ensures
        r == shard_kind(name@, builder_prefix@),
{
    kind_of(chars_of(name).as_slice(), builder_prefix)
}

/// The characters up to the first white space.
pub open spec fn until_white(s: Seq<char>) -> Seq<char>
    decreases s.len(),
{
    if s.len() == 0 || text::white(s[0]) {
        Seq::empty()
    } else {
        seq![s[0]] + until_white(s.skip(1))
    }
}

/// A text without the stars at its end.
pub open spec fn without_stars(s: Seq<char>) -> Seq<char>
    decreases s.len(),
{
    if s.len() > 0 && s.last() == '*' {
        without_stars(s.drop_last())
    } else {
        s
    }
}

/// The name of the builder on a line of `docker buildx ls`: its first word, without the star of
/// the current builder.
pub open spec fn listed_name(line: Seq<char>) -> Seq<char> {
    without_stars(until_white(text::trim_start(line)))
}

proof fn lemma_until_white(s: Seq<char>, n: int)
    requires
        0 <= n <= s.len(),
        forall|j: int| 0 <= j < n ==> !text::white(#[trigger] s[j]),
        n < s.len() ==> text::white(s[n]),
    ensures
        until_white(s) == s.take(n),
    decreases s.len(),
{
    if n == 0 {
        assert(s.take(0) =~= Seq::empty());
    } else {
        assert(!text::white(s[0]));
        let t = s.skip(1);
        assert forall|j: int| 0 <= j < n - 1 implies !text::white(#[trigger] t[j]) by {
            assert(t[j] == s[j + 1]);
        }
        lemma_until_white(t, n - 1);
        assert(seq![s[0]] + t.take(n - 1) =~= s.take(n));
    }
}

fn name_on(line: &[char]) -> (r: &[char])
    ensures
        r@ == listed_name(line@),
{
    let s = trimmed_start(line);
    let mut n: usize = 0;
    while n < s.len() && !is_white(s[n])
        invariant
            n <= s@.len(),
            forall|j: int| 0 <= j < n ==> !text::white(#[trigger] s@[j]),
        decreases s@.len() - n,
    {
        n += 1;
    }
    proof {
        lemma_until_white(s@, n as int);
    }
    let word = slice_subrange(s, 0, n);
    assert(word@ =~= s@.take(n as int));
    let mut m: usize = word.len();
    assert(word@.take(m as int) =~= word@);
    while m > 0 && word[m - 1] == '*'
        invariant
            m <= word@.len(),
            without_stars(word@.take(m as int)) == without_stars(word@),
        decreases m,
    {
        assert(word@.take(m as int).drop_last() =~= word@.take(m - 1));
        m -= 1;
    }
    let r = slice_subrange(word, 0, m);
    assert(r@ =~= word@.take(m as int));
    r
}

/// Whether a builder can be removed, where `alive` says whether the run that made it still goes
/// on.
pub open spec fn is_stale(kind: ShardKind, alive: bool) -> bool {
    match kind {
        ShardKind::Foreign => false,
        ShardKind::Legacy => true,
        ShardKind::Owned(_) => !alive,
    }
}

/// The builders on the lines that can be removed.
pub open spec fn stale_names(
    lines: Seq<Seq<char>>,
    prefix: Seq<char>,
    alive: Seq<bool>,
) -> Seq<Seq<char>>
    decreases lines.len(),
{
    if lines.len() == 0 {
        Seq::empty()
    } else {
        let before = stale_names(lines.drop_last(), prefix, alive);
        let name = listed_name(lines.last());
        if is_stale(shard_kind(name, prefix), alive[lines.len() - 1]) {
            before.push(name)
        } else {
            before
        }
    }
}

/// Whether `alive` is what `is_alive` said of the run of each line that names one.
pub open spec fn asked<F: Fn(u32) -> bool>(
    lines: Seq<Seq<char>>,
    prefix: Seq<char>,
    is_alive: F,
    alive: Seq<bool>,
) -> bool {
    &&& alive.len() == lines.len()
    &&& forall|i: int, id: u32|
        0 <= i < lines.len() && #[trigger] shard_kind(listed_name(lines[i]), prefix)
            == ShardKind::Owned(id) ==> #[trigger] call_ensures(is_alive, (id,), alive[i])
}

/// Whether a line names a builder of ours that the run `id` made.
pub open spec fn names_run(lines: Seq<Seq<char>>, prefix: Seq<char>, id: u32) -> bool {
    exists|i: int|
        0 <= i < lines.len() && shard_kind(listed_name(#[trigger] lines[i]), prefix)
            == ShardKind::Owned(id)
}

/// The builders that `docker buildx ls` lists and that can be removed: those of ours that name
/// no run, and those of runs that no longer go on. Only the runs that they name are asked after.
pub fn stale_shards<F: Fn(u32) -> bool>(
    ls_output: &str,
    builder_prefix: &str,
    is_alive: F,
) -> (r: Vec<String>)
    requires
        forall|id: u32|
            names_run(text::lines(ls_output@), builder_prefix@, id) ==> #[trigger] call_requires(
                is_alive,
                (id,),
            ),
    ensures
        exists|alive: Seq<bool>| #[trigger]
            asked(text::lines(ls_output@), builder_prefix@, is_alive, alive) && text::texts(r@)
                == stale_names(text::lines(ls_output@), builder_prefix@, alive),
{
    let chars = chars_of(ls_output);
    let lines = lines_of(chars.as_slice());
    let ghost all = text::lines(ls_output@);
    let ghost prefix = builder_prefix@;
    let ghost mut alive: Seq<bool> = Seq::empty();
    let mut stale: Vec<String> = Vec::new();
    let mut i: usize = 0;
    assert(text::texts(stale@) =~= stale_names(all.take(0), prefix, alive));
    while i < lines.len()
        invariant
            i <= lines@.len(),
            all == text::slices(lines@),
            prefix == builder_prefix@,
            forall|id: u32|
                names_run(all, prefix, id) ==> #[trigger] call_requires(is_alive, (id,)),
            asked(all.take(i as int), prefix, is_alive, alive),
            text::texts(stale@) == stale_names(all.take(i as int), prefix, alive),
        decreases lines@.len() - i,
    {
        let name = name_on(lines[i]);
        let kind = kind_of(name, builder_prefix);
        proof {
            assert(all[i as int] == lines@[i as int]@);
            if let ShardKind::Owned(id) = kind {
                assert(names_run(all, prefix, id));
            }
        }
        let lives: bool = match kind {
            ShardKind::Owned(id) => is_alive(id),
            _ => false,
        };
        let ghost before = alive;
        proof {
            alive = alive.push(lives);
            assert(all.take(i + 1).drop_last() =~= all.take(i as int));
            lemma_stale_prefix(all.take(i as int), prefix, before, alive);
            assert forall|j: int, id: u32|
                0 <= j < i + 1 && #[trigger] shard_kind(listed_name(all.take(i + 1)[j]), prefix)
                    == ShardKind::Owned(id) implies #[trigger] call_ensures(
                is_alive,
                (id,),
                alive[j],
            ) by {
                if j < i {
                    assert(all.take(i + 1)[j] == all.take(i as int)[j]);
                    assert(alive[j] == before[j]);
                }
            }
        }
        let gone = match kind {
            ShardKind::Foreign => false,
            ShardKind::Legacy => true,
            ShardKind::Owned(_) => !lives,
        };
        if gone {
            add_text(&mut stale, string_of(name));
        }
        i += 1;
    }
    assert(all.take(i as int) =~= all);
    stale
}

/// What is known of later lines does not matter to the earlier ones.
proof fn lemma_stale_prefix(
    lines: Seq<Seq<char>>,
    prefix: Seq<char>,
    alive: Seq<bool>,
    more: Seq<bool>,
)
    requires
        alive.len() >= lines.len(),
        alive.is_prefix_of(more),
    ensures
        stale_names(lines, prefix, alive) == stale_names(lines, prefix, more),
    decreases lines.len(),
{
    if lines.len() > 0 {
        lemma_stale_prefix(lines.drop_last(), prefix, alive, more);
        assert(alive[lines.len() - 1] == more[lines.len() - 1]);
    }
}

/// The arguments of `docker` that make a node's builder.
pub open spec fn create_command(
    name: Seq<char>,
    platform: Option<Seq<char>>,
    endpoint: Seq<char>,
) -> Seq<Seq<char>> {
    seq!["buildx"@, "create"@, "--name"@, name] + match platform {
        Some(p) => seq!["--platform"@, p],
        None => Seq::empty(),
    } + seq!["--driver"@, "remote"@, endpoint]
}

/// The contents of a possible platform.
pub open spec fn platform_text(p: Option<&str>) -> Option<Seq<char>> {
    match p {
        Some(s) => Some(s@),
        None => None,
    }
}

/// The arguments of `docker` that make a node's builder, for one platform or for all of the
/// node's.
pub fn create_args(shard_name: &str, node: &Node, platform: Option<&str>) -> (r: Vec<String>)
    ensures
        text::texts(r@) == create_command(shard_name@, platform_text(platform), node.endpoint@),
{
    let mut r: Vec<String> = Vec::new();
    add_text(&mut r, "buildx".to_string());
    add_text(&mut r, "create".to_string());
    add_text(&mut r, "--name".to_string());
    add_text(&mut r, shard_name.to_string());
    if let Some(p) = platform {
        add_text(&mut r, "--platform".to_string());
        add_text(&mut r, p.to_string());
    }
    add_text(&mut r, "--driver".to_string());
    add_text(&mut r, "remote".to_string());
    add_text(&mut r, node.endpoint.clone());
    assert(text::texts(r@) =~= create_command(
        shard_name@,
        platform_text(platform),
        node.endpoint@,
    ));
    r
}

/// The arguments of `docker` that remove a builder.
pub fn remove_args(shard_name: &str) -> (r: Vec<String>)
    ensures
        text::texts(r@) == seq!["buildx"@, "rm"@, shard_name@],
{
    let mut r: Vec<String> = Vec::new();
    add_text(&mut r, "buildx".to_string());
    add_text(&mut r, "rm".to_string());
    add_text(&mut r, shard_name.to_string());
    assert(text::texts(r@) =~= seq!["buildx"@, "rm"@, shard_name@]);
    r
}

/// The error of a builder that could not be made, with what `docker` wrote.
pub fn create_failure(shard_name: &str, stderr: &str) -> (r: String)
    ensures
        r@ == "failed to create shard "@ + shard_name@ + ": "@ + text::trim(stderr@),
{
    let chars = chars_of(stderr);
    "failed to create shard ".to_string().concat(shard_name).concat(": ").concat(
        string_of(trimmed(chars.as_slice())).as_str(),
    )
}

/// The builders of this run, to be removed at its end.
pub struct ShardGuard {
    shard_names: Vec<String>,
}

impl View for ShardGuard {
    type V = Seq<Seq<char>>;

    closed spec fn view(&self) -> Seq<Seq<char>> {
        text::texts(self.shard_names@)
    }
}

impl ShardGuard {
    /// No builders yet.
    pub fn new() -> (r: ShardGuard)
        ensures
            r@ == Seq::<Seq<char>>::empty(),
    {
        let r = ShardGuard { shard_names: Vec::new() };
        assert(r@ =~= Seq::<Seq<char>>::empty());
        r
    }

    /// Adds a builder, right after it was made: one that is not noted here is left behind when
    /// a later one cannot be made.
    pub fn push(&mut self, shard_name: String)
        ensures
            final(self)@ == old(self)@.push(shard_name@),
    {
        add_text(&mut self.shard_names, shard_name);
    }

    /// The builders to remove, in the order in which they were made.
    pub fn names(&self) -> (r: &[String])
        ensures
            text::texts(r@) == self@,
    {
        self.shard_names.as_slice()
    }
}

impl Default for ShardGuard {
    fn default() -> (r: ShardGuard)
        ensures
            r@ == Seq::<Seq<char>>::empty(),
    {
        ShardGuard::new()
    }
}

/// The last run marker of a name is the one before the run's number.
proof fn lemma_marker_last(node: Seq<char>, digits: Seq<char>)
    requires
        text::all_digits(digits),
    ensures
        text::last_occurrence(node + RUN_MARKER@ + digits, RUN_MARKER@) == node.len(),
{
    reveal_strlit("--run");
    let m = RUN_MARKER@;
    let s = node + m + digits;
    let n: int = node.len() as int;
    assert(s.subrange(n, n + m.len()) =~= m);
    assert(text::occurs_at(s, m, n));
    assert forall|j: int| n < j <= s.len() implies !text::occurs_at(s, m, j) by {
        if text::occurs_at(s, m, j) {
            let piece = s.subrange(j, j + m.len());
            assert(piece[0] == s[j] && piece[1] == s[j + 1]);
            assert(m[0] == '-' && m[1] == '-');
            if j < n + m.len() {
                assert(s[j] == m[j - n]);
            } else {
                assert(s[j] == digits[j - n - m.len()]);
            }
            if j + 1 < n + m.len() {
                assert(s[j + 1] == m[j + 1 - n]);
            } else {
                assert(s[j + 1] == digits[j + 1 - n - m.len()]);
            }
        }
    }
    text::lemma_last_occurrence(s, m, s.len() as int, n);
}

/// A builder's name tells which run made it, whatever its node is called.
pub proof fn law_shard_name_reads_back(prefix: Seq<char>, node: Seq<char>, run_id: u32)
    ensures
        shard_kind(name_of_shard(prefix, node, run_id as nat), prefix) == ShardKind::Owned(run_id),
{
    let digits = text::decimal(run_id as nat);
    let name = name_of_shard(prefix, node, run_id as nat);
    let head = prefix + "-shard-"@;
    let rest = node + RUN_MARKER@ + digits;
    text::lemma_decimal_reads_back(run_id as nat);
    assert(name =~= head + rest);
    assert(name.take(head.len() as int) =~= head);
    assert(head.is_prefix_of(name));
    assert(name.skip(head.len() as int) =~= rest);
    lemma_marker_last(node, digits);
    assert(rest.skip((node.len() + RUN_MARKER@.len()) as int) =~= digits);
    text::lemma_decimal_parses(run_id);
}

/// Two runs never have a builder of the same name.
pub proof fn law_shard_names_differ(
    prefix: Seq<char>,
    node_a: Seq<char>,
    node_b: Seq<char>,
    run_a: u32,
    run_b: u32,
)
    requires
        run_a != run_b,
    ensures
        name_of_shard(prefix, node_a, run_a as nat) != name_of_shard(prefix, node_b, run_b as nat),
{
    law_shard_name_reads_back(prefix, node_a, run_a);
    law_shard_name_reads_back(prefix, node_b, run_b);
}

/// A builder of a run that still goes on is not removed.
pub proof fn law_live_shard_is_kept(prefix: Seq<char>, node: Seq<char>, run_id: u32)
    ensures
        !is_stale(shard_kind(name_of_shard(prefix, node, run_id as nat), prefix), true),
{
    law_shard_name_reads_back(prefix, node, run_id);
}

}
