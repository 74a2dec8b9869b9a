//! What holds of comments, lists and blocks.
use super::{Block, Entry, Reading};
use crate::path;
use crate::text;
use vstd::prelude::*;

verus! {

/// The place of a comment lies in the text, and no comment starts before it.
proof fn lemma_comment_from(s: Seq<char>, i: int)
    requires
        0 <= i <= s.len(),
    ensures
        i <= super::comment_from(s, i) <= s.len(),
        forall|j: int|
            i <= j < super::comment_from(s, i) ==> !#[trigger] super::starts_comment(s, j),
    decreases s.len() - i,
{
    if i < s.len() && !super::starts_comment(s, i) {
        lemma_comment_from(s, i + 1);
    }
}

proof fn lemma_no_comment(s: Seq<char>, i: int)
    requires
        0 <= i <= s.len(),
        forall|j: int| 0 <= j < s.len() ==> !#[trigger] super::starts_comment(s, j),
    ensures
        super::comment_from(s, i) == s.len(),
    decreases s.len() - i,
{
    if i < s.len() {
        lemma_no_comment(s, i + 1);
    }
}

/// Taking a comment off leaves the beginning of the text, with no comment in it: taking one off
/// again changes nothing.
pub proof fn law_uncommented_stays(s: Seq<char>)
    ensures
        super::uncommented(s).is_prefix_of(s),
        super::uncommented(super::uncommented(s)) == super::uncommented(s),
{
    lemma_comment_from(s, 0);
    let at = super::comment_from(s, 0);
    let t = super::uncommented(s);
    if at < s.len() {
        text::lemma_trim_end_prefix(s.take(at));
        assert forall|j: int| 0 <= j < t.len() implies !#[trigger] super::starts_comment(t, j) by {
            assert(t.take(j) =~= s.take(j));
            assert(t[j] == s[j]);
            if j + 1 < t.len() {
                assert(t[j + 1] == s[j + 1]);
            }
            assert(!super::starts_comment(s, j));
        }
    } else {
        assert forall|j: int| 0 <= j < t.len() implies !#[trigger] super::starts_comment(t, j) by {
            assert(!super::starts_comment(s, j));
        }
    }
    lemma_no_comment(t, 0);
}

/// A name with `"` and `\` escaped.
pub open spec fn escaped(name: Seq<char>) -> Seq<char>
    decreases name.len(),
{
    if name.len() == 0 {
        Seq::empty()
    } else if name[0] == '"' || name[0] == '\\' {
        seq!['\\', name[0]] + escaped(name.skip(1))
    } else {
        seq![name[0]] + escaped(name.skip(1))
    }
}

/// A name in quotes.
pub open spec fn quoted(name: Seq<char>) -> Seq<char> {
    seq!['"'] + escaped(name) + seq!['"']
}

/// Names in quotes with commas between them.
pub open spec fn listed(names: Seq<Seq<char>>) -> Seq<char>
    decreases names.len(),
{
    if names.len() == 0 {
        Seq::empty()
    } else if names.len() == 1 {
        quoted(names[0])
    } else {
        quoted(names[0]) + (seq![',', ' '] + listed(names.skip(1)))
    }
}

/// A name that a list can hold: it is not empty, and has no white space around it.
pub open spec fn plain(name: Seq<char>) -> bool {
    name.len() > 0 && text::trim(name) == name
}

/// An escaped name reads back as the name.
pub proof fn law_escaped_reads_back(name: Seq<char>, rest: Seq<char>)
    ensures
        super::unquote(escaped(name) + seq!['"'] + rest) == Some(name),
    decreases name.len(),
{
    let s = escaped(name) + seq!['"'] + rest;
    if name.len() == 0 {
        assert(s[0] == '"');
        assert(name =~= Seq::empty());
    } else {
        law_escaped_reads_back(name.skip(1), rest);
        let t = escaped(name.skip(1)) + seq!['"'] + rest;
        assert(name =~= seq![name[0]] + name.skip(1));
        if name[0] == '"' || name[0] == '\\' {
            assert(s[0] == '\\' && s[1] == name[0]);
            assert(s.skip(2) =~= t);
        } else {
            assert(s[0] == name[0]);
            assert(s.skip(1) =~= t);
        }
    }
}

proof fn lemma_items_escaped(name: Seq<char>, rest: Seq<char>, current: Seq<char>)
    ensures
        super::items_of(escaped(name) + rest, current, true) == super::items_of(
            rest,
            current + name,
            true,
        ),
    decreases name.len(),
{
    let s = escaped(name) + rest;
    if name.len() == 0 {
        assert(s =~= rest);
        assert(current + name =~= current);
    } else {
        let more = name.skip(1);
        lemma_items_escaped(more, rest, current.push(name[0]));
        assert(current.push(name[0]) + more =~= current + name);
        if name[0] == '"' || name[0] == '\\' {
            assert(s[0] == '\\' && s[1] == name[0]);
            assert(s.skip(2) =~= escaped(more) + rest);
        } else {
            assert(s[0] == name[0]);
            assert(s.skip(1) =~= escaped(more) + rest);
        }
    }
}

proof fn lemma_items_quoted(name: Seq<char>, rest: Seq<char>, current: Seq<char>)
    ensures
        super::items_of(quoted(name) + rest, current, false) == super::items_of(
            rest,
            current + name,
            false,
        ),
{
    let s = quoted(name) + rest;
    let closing = seq!['"'] + rest;
    assert(s[0] == '"');
    assert(s.skip(1) =~= escaped(name) + closing);
    lemma_items_escaped(name, closing, current);
    assert(closing[0] == '"');
    assert(closing.skip(1) =~= rest);
}

proof fn lemma_items_listed(names: Seq<Seq<char>>, current: Seq<char>)
    requires
        names.len() > 0,
        forall|i: int| 0 <= i < names.len() ==> plain(#[trigger] names[i]),
        current == Seq::<char>::empty() || current == seq![' '],
    ensures
        super::items_of(listed(names), current, false) == names,
    decreases names.len(),
{
    let first = names[0];
    assert(plain(first));
    assert(text::trim(current + first) == first) by {
        if current.len() == 0 {
            assert(current + first =~= first);
        } else {
            assert((current + first)[0] == ' ');
            assert((current + first).skip(1) =~= first);
        }
    }
    if names.len() == 1 {
        assert(quoted(first) + Seq::empty() =~= quoted(first));
        lemma_items_quoted(first, Seq::empty(), current);
        assert(names =~= seq![first]);
    } else {
        let more = names.skip(1);
        let rest = listed(more);
        let tail = seq![',', ' '] + rest;
        lemma_items_quoted(first, tail, current);
        assert(tail[0] == ',');
        assert(tail.skip(1)[0] == ' ');
        assert(tail.skip(1).skip(1) =~= rest);
        assert(Seq::<char>::empty().push(' ') =~= seq![' ']);
        assert forall|i: int| 0 <= i < more.len() implies plain(#[trigger] more[i]) by {
            assert(more[i] == names[i + 1]);
        }
        lemma_items_listed(more, seq![' ']);
        assert(super::items_of(tail.skip(1), Seq::empty(), false) == more);
        assert(names =~= seq![first] + more);
    }
}

/// A list of names, written out in quotes, reads back as those names, whatever characters they
/// hold.
pub proof fn law_list_reads_back(names: Seq<Seq<char>>)
    requires
        forall|i: int| 0 <= i < names.len() ==> plain(#[trigger] names[i]),
    ensures
        super::string_list(seq!['['] + listed(names) + seq![']']) == names,
{
    let s = seq!['['] + listed(names) + seq![']'];
    assert(s[0] == '[' && s.last() == ']');
    assert(text::trim_start(s) == s);
    assert(text::trim(s) == s);
    assert(s.skip(1).drop_last() =~= listed(names));
    if names.len() == 0 {
        assert(super::items_of(Seq::empty(), Seq::empty(), false) =~= names);
    } else {
        lemma_items_listed(names, Seq::empty());
    }
}

/// How many more braces the lines from `from` up to `to` open than they close.
pub open spec fn braces_open(lines: Seq<Seq<char>>, from: int, to: int) -> int
    decreases to - from,
{
    if to <= from {
        0
    } else {
        let line = text::trim(lines[to - 1]);
        braces_open(lines, from, to - 1) + text::occurrences(line, '{') - text::occurrences(
            line,
            '}',
        )
    }
}

/// Whether a line neither heads the block of a target nor states dependencies.
pub open spec fn apart(line: Seq<char>) -> bool {
    !"target "@.is_prefix_of(text::trim(line)) && !"depends_on"@.is_prefix_of(text::trim(line))
}

/// A name that a list can hold over lines without comments: with no `#`, `/` or bracket in it.
pub open spec fn simple(name: Seq<char>) -> bool {
    plain(name) && !name.contains('#') && !name.contains('/') && !name.contains('[')
        && !name.contains(']')
}

/// Whether the lines from `k` to `e` state that a target depends on some names: in a list on one
/// line, or over several with a name on each, comments aside.
pub open spec fn states(lines: Seq<Seq<char>>, k: int, e: int, names: Seq<Seq<char>>) -> bool {
    ||| e == k && text::trim(lines[k]) == "depends_on = ["@ + listed(names) + seq![']']
    ||| {
        &&& e == k + names.len() + 1
        &&& text::trim(lines[k]) == "depends_on = ["@
        &&& forall|j: int|
            k < j < e ==> super::uncommented(text::trim(#[trigger] lines[j])) == quoted(
                names[j - k - 1],
            ) + seq![',']
        &&& super::uncommented(text::trim(lines[e])) == seq![']']
    }
}

/// A line in a block that sets no dependencies only counts for its braces.
proof fn lemma_line_apart(
    lines: Seq<Seq<char>>,
    j: int,
    target: Seq<char>,
    depth: int,
    found: Map<Seq<char>, Seq<Seq<char>>>,
)
    requires
        0 <= j < lines.len(),
        apart(lines[j]),
        depth > 0,
    ensures
        super::deps_from(lines, j, Some(Block { target, depth }), found) == super::deps_from(
            lines,
            j + 1,
            super::block_at(target, depth + braces_open(lines, j, j + 1)),
            found,
        ),
{
    let line = text::trim(lines[j]);
    let after = depth + super::brace_balance(line);
    assert(braces_open(lines, j, j) == 0);
    assert(braces_open(lines, j, j + 1) == super::brace_balance(line));
    assert(super::header_name(line) is None);
    let body = super::line_body(line, after);
    assert(!"depends_on"@.is_prefix_of(body)) by {
        if after <= 0 {
            lemma_before_brace_is_prefix(lines[j]);
            if "depends_on"@.is_prefix_of(body) {
                lemma_prefix_of_prefix("depends_on"@, body, line);
            }
        }
    }
    assert(super::depends_on_value(body) is None);
}

proof fn lemma_prefix_of_prefix(a: Seq<char>, b: Seq<char>, c: Seq<char>)
    requires
        a.is_prefix_of(b),
        b.is_prefix_of(c),
    ensures
        a.is_prefix_of(c),
{
    assert(b =~= c.take(b.len() as int));
    assert(a =~= b.take(a.len() as int));
    assert(c.take(a.len() as int) =~= a);
}

/// What stands before the brace that closes a block is the beginning of its line.
proof fn lemma_before_brace_is_prefix(s: Seq<char>)
    ensures
        super::before_brace(super::uncommented(text::trim(s))).is_prefix_of(text::trim(s)),
{
    let line = text::trim(s);
    law_uncommented_stays(line);
    let u = super::uncommented(line);
    let at = super::last_bare_from(u, '}', 0, false);
    lemma_last_bare_bound(u, '}', 0, false);
    if at >= 0 {
        text::lemma_trim_edges(s);
        let piece = u.take(at);
        assert(piece.is_prefix_of(u)) by {
            assert(u.take(piece.len() as int) =~= piece);
        }
        lemma_prefix_of_prefix(piece, u, line);
        if piece.len() > 0 {
            assert(piece[0] == line[0]);
            assert(text::trim_start(piece) == piece);
        }
        text::lemma_trim_end_prefix(piece);
        lemma_prefix_of_prefix(text::trim(piece), piece, line);
    } else {
        assert(line.take(0) =~= Seq::<char>::empty());
    }
}

proof fn lemma_last_bare_bound(s: Seq<char>, c: char, i: int, in_quotes: bool)
    requires
        0 <= i,
    ensures
        super::last_bare_from(s, c, i, in_quotes) < s.len(),
        super::last_bare_from(s, c, i, in_quotes) >= 0 ==> s[super::last_bare_from(
            s,
            c,
            i,
            in_quotes,
        )] == c,
    decreases s.len() - i,
{
    if i < s.len() {
        if in_quotes && s[i] == '\\' {
            if i + 1 < s.len() {
                lemma_last_bare_bound(s, c, i + 2, in_quotes);
            }
        } else if s[i] == '"' {
            lemma_last_bare_bound(s, c, i + 1, !in_quotes);
        } else {
            lemma_last_bare_bound(s, c, i + 1, in_quotes);
        }
    }
}

/// Lines in a block that set no dependencies, and do not close it, only count for their braces.
proof fn lemma_lines_apart(
    lines: Seq<Seq<char>>,
    i: int,
    k: int,
    target: Seq<char>,
    depth: int,
    found: Map<Seq<char>, Seq<Seq<char>>>,
)
    requires
        0 <= i <= k <= lines.len(),
        depth > 0,
        forall|j: int| i <= j < k ==> apart(#[trigger] lines[j]),
        forall|m: int| i < m <= k ==> depth + #[trigger] braces_open(lines, i, m) > 0,
    ensures
        super::deps_from(lines, i, Some(Block { target, depth }), found) == super::deps_from(
            lines,
            k,
            Some(Block { target, depth: depth + braces_open(lines, i, k) }),
            found,
        ),
    decreases k - i,
{
    if i < k {
        lemma_lines_apart(lines, i, k - 1, target, depth, found);
        let before = depth + braces_open(lines, i, k - 1);
        if k - 1 > i {
            assert(before > 0);
        }
        lemma_line_apart(lines, k - 1, target, before, found);
        assert(braces_open(lines, k - 1, k - 1) == 0);
        assert(braces_open(lines, i, k) == braces_open(lines, i, k - 1) + braces_open(
            lines,
            k - 1,
            k,
        ));
        assert(depth + braces_open(lines, i, k) > 0);
    }
}

/// Only the block of a target says what it depends on: what other blocks say, and what stands
/// outside of blocks, does not matter to it.
pub proof fn law_other_lines_do_not_matter(
    lines: Seq<Seq<char>>,
    i: int,
    block: Option<Block>,
    found: Map<Seq<char>, Seq<Seq<char>>>,
    name: Seq<char>,
)
    requires
        0 <= i,
        block matches Some(b) ==> b.target != name,
        forall|j: int|
            i <= j < lines.len() ==> super::header_name(text::trim(#[trigger] lines[j])) != Some(
                name,
            ),
    ensures
        super::deps_from(lines, i, block, found).contains_key(name) == found.contains_key(name),
        found.contains_key(name) ==> super::deps_from(lines, i, block, found)[name]
            == found[name],
    decreases lines.len() - i,
{
    if i < lines.len() {
        let line = text::trim(lines[i]);
        super::lemma_list_rest(lines, i);
        super::lemma_list_rest(lines, super::opening_line(lines, i));
        match super::header_name(line) {
            Some(other) => {
                let read = super::read_body(lines, super::headed(lines, i));
                law_other_lines_do_not_matter(
                    lines,
                    read.next,
                    super::block_at(other, read.depth),
                    super::with_deps_of(found, other, read.deps),
                    name,
                );
            },
            None => match block {
                None => {
                    law_other_lines_do_not_matter(lines, i + 1, None, found, name);
                },
                Some(b) => {
                    let read = super::read_body(lines, super::continued(lines, i, b.depth));
                    law_other_lines_do_not_matter(
                        lines,
                        read.next,
                        super::block_at(b.target, read.depth),
                        super::with_deps_of(found, b.target, read.deps),
                        name,
                    );
                },
            },
        }
    }
}

/// A target without a block is given no dependencies.
pub proof fn law_no_block_no_dependencies(content: Seq<char>, name: Seq<char>)
    requires
        forall|j: int|
            0 <= j < text::lines(content).len() ==> super::header_name(
                text::trim(#[trigger] text::lines(content)[j]),
            ) != Some(name),
    ensures
        !super::hcl_dependencies(content).contains_key(name),
{
    law_other_lines_do_not_matter(text::lines(content), 0, None, Map::empty(), name);
}

/// A line heads the block of the target whose name in quotes follows the word `target`, whatever
/// stands behind the name; no other line heads one.
pub proof fn law_header_names_its_target(name: Seq<char>, rest: Seq<char>, line: Seq<char>)
    ensures
        super::header_name("target "@ + quoted(name) + rest) == Some(name),
        !"target "@.is_prefix_of(line) ==> super::header_name(line) is None,
{
    reveal_strlit("\"");
    let q = quoted(name) + rest;
    let line = "target "@ + quoted(name) + rest;
    assert(line =~= "target "@ + q);
    assert("target "@.is_prefix_of(line)) by {
        assert(line.take("target "@.len() as int) =~= "target "@);
    }
    assert(line.skip("target "@.len() as int) =~= q);
    lemma_quoted_reads_back(name, rest);
}

/// A name in quotes at the start of a text is read back, whatever follows.
proof fn lemma_quoted_reads_back(name: Seq<char>, rest: Seq<char>)
    ensures
        super::quoted_string(quoted(name) + rest) == Some(name),
{
    reveal_strlit("\"");
    let q = quoted(name) + rest;
    text::lemma_trim_end_prefix(q);
    assert(q[0] == '"');
    assert(text::trim_start(q) == q);
    let t = text::trim(q);
    lemma_trim_end_keeps(quoted(name), rest);
    let rest_kept = t.skip(quoted(name).len() as int);
    assert(t =~= quoted(name) + rest_kept);
    assert("\""@.is_prefix_of(t)) by {
        assert(t.take(1) =~= "\""@);
    }
    assert(t.skip(1) =~= escaped(name) + seq!['"'] + rest_kept);
    law_escaped_reads_back(name, rest_kept);
}

/// Trimming the end of a text does not go beyond a character that is no white space.
proof fn lemma_trim_end_keeps(a: Seq<char>, b: Seq<char>)
    requires
        a.len() > 0,
        !text::white(a.last()),
    ensures
        a.is_prefix_of(text::trim_end(a + b)),
    decreases b.len(),
{
    if b.len() > 0 && text::white(b.last()) {
        assert((a + b).drop_last() =~= a + b.drop_last());
        lemma_trim_end_keeps(a, b.drop_last());
    } else {
        assert((a + b).take(a.len() as int) =~= a);
        if b.len() == 0 {
            assert(a + b =~= a);
        }
    }
}

/// A character that none of the names holds, and that does not come with quoting them, is not in
/// their list.
proof fn lemma_listed_avoids(names: Seq<Seq<char>>, c: char)
    requires
        c != '"' && c != ',' && c != ' ' && c != '\\',
        forall|i: int| 0 <= i < names.len() ==> !(#[trigger] names[i]).contains(c),
    ensures
        !listed(names).contains(c),
    decreases names.len(),
{
    if names.len() > 0 {
        lemma_quoted_avoids(names[0], c);
        if names.len() > 1 {
            assert forall|i: int| 0 <= i < names.skip(1).len() implies !(
            #[trigger] names.skip(1)[i]).contains(c) by {
                assert(names.skip(1)[i] == names[i + 1]);
            }
            lemma_listed_avoids(names.skip(1), c);
            let a = quoted(names[0]);
            let gap = seq![',', ' '];
            let b = listed(names.skip(1));
            if listed(names).contains(c) {
                let i: int = choose|i: int| 0 <= i < listed(names).len() && listed(names)[i] == c;
                if i < a.len() {
                    assert(a[i] == c);
                } else if i >= a.len() + 2 {
                    assert(b[i - a.len() - 2] == c);
                } else {
                    assert(gap[i - a.len()] == c);
                }
            }
        }
    }
}

proof fn lemma_quoted_avoids(name: Seq<char>, c: char)
    requires
        c != '"' && c != '\\',
        !name.contains(c),
    ensures
        !quoted(name).contains(c),
        !escaped(name).contains(c),
    decreases name.len(),
{
    if name.len() > 0 {
        assert(name.contains(name[0]));
        assert(!name.skip(1).contains(c)) by {
            if name.skip(1).contains(c) {
                let i: int = choose|i: int| 0 <= i < name.skip(1).len() && name.skip(1)[i] == c;
                assert(name[i + 1] == c);
            }
        }
        lemma_quoted_avoids(name.skip(1), c);
        let more = escaped(name.skip(1));
        let head = if name[0] == '"' || name[0] == '\\' {
            seq!['\\', name[0]]
        } else {
            seq![name[0]]
        };
        assert(escaped(name) == head + more);
        if escaped(name).contains(c) {
            let i: int = choose|i: int| 0 <= i < escaped(name).len() && escaped(name)[i] == c;
            if i >= head.len() {
                assert(more[i - head.len()] == c);
            } else {
                assert(head[i] == c);
            }
        }
    }
    if quoted(name).contains(c) {
        let i: int = choose|i: int| 0 <= i < quoted(name).len() && quoted(name)[i] == c;
        if 0 < i < quoted(name).len() - 1 {
            assert(escaped(name)[i - 1] == c);
        }
    }
}

/// A text without `#` and `/` has no comment.
proof fn lemma_uncommented_plain(s: Seq<char>)
    requires
        !s.contains('#'),
        !s.contains('/'),
    ensures
        super::uncommented(s) == s,
{
    assert forall|j: int| 0 <= j < s.len() implies !#[trigger] super::starts_comment(s, j) by {
        assert(s.contains(s[j]));
    }
    lemma_no_comment(s, 0);
}

/// The value that follows `depends_on = `, without a comment, is taken as it stands.
proof fn lemma_value_of(value: Seq<char>)
    requires
        value.len() > 0,
        !text::white(value[0]),
        !text::white(value.last()),
        !value.contains('#'),
        !value.contains('/'),
    ensures
        super::depends_on_value("depends_on = "@ + value) == Some(value),
{
    reveal_strlit("depends_on = ");
    reveal_strlit("depends_on");
    reveal_strlit("=");
    let line = "depends_on = "@ + value;
    assert(line.take(10) =~= "depends_on"@);
    let rest = line.skip(10);
    assert(rest =~= seq![' ', '=', ' '] + value);
    let tail = seq!['=', ' '] + value;
    assert(rest =~= seq![' '] + tail);
    text::lemma_trim_gap(seq![' '], tail);
    assert(tail.last() == value.last());
    text::lemma_trim_fixed(tail);
    assert(tail.take(1) =~= "="@);
    assert(tail.skip(1) =~= seq![' '] + value);
    text::lemma_trim_gap(seq![' '], value);
    text::lemma_trim_fixed(value);
    lemma_uncommented_plain(value);
}

/// A list with no bracket but those around it is taken whole.
proof fn lemma_whole_list(inside: Seq<char>)
    requires
        !inside.contains(']'),
    ensures
        super::up_to_bracket(seq!['['] + inside + seq![']']) == seq!['['] + inside + seq![']'],
{
    let value = seq!['['] + inside + seq![']'];
    let at = super::last_bare_from(value, ']', 0, false);
    lemma_last_bare_bound(value, ']', 0, false);
    if at >= 0 && at < value.len() - 1 {
        if at > 0 {
            assert(value[at] == inside[at - 1]);
            assert(inside.contains(']'));
        }
    }
    if at == value.len() - 1 {
        assert(value.take(at + 1) =~= value);
    }
}

/// The names of a list with a comma behind each.
pub open spec fn commaed(names: Seq<Seq<char>>) -> Seq<char>
    decreases names.len(),
{
    if names.len() == 0 {
        Seq::empty()
    } else {
        quoted(names[0]) + seq![','] + commaed(names.skip(1))
    }
}

proof fn lemma_items_commaed(names: Seq<Seq<char>>)
    requires
        forall|i: int| 0 <= i < names.len() ==> plain(#[trigger] names[i]),
    ensures
        super::items_of(commaed(names), Seq::empty(), false) == names,
    decreases names.len(),
{
    if names.len() > 0 {
        let tail = commaed(names.skip(1));
        let rest = seq![','] + tail;
        assert(commaed(names) =~= quoted(names[0]) + rest);
        lemma_items_quoted(names[0], rest, Seq::empty());
        assert(Seq::<char>::empty() + names[0] =~= names[0]);
        assert(rest.skip(1) =~= tail);
        assert forall|i: int| 0 <= i < names.skip(1).len() implies plain(
            #[trigger] names.skip(1)[i],
        ) by {
            assert(names.skip(1)[i] == names[i + 1]);
        }
        lemma_items_commaed(names.skip(1));
        assert(plain(names[0]));
        assert(super::item_of(names[0]) == seq![names[0]]);
        assert(seq![names[0]] + names.skip(1) =~= names);
    } else {
        assert(text::trim(Seq::<char>::empty()) =~= Seq::empty());
        assert(super::item_of(Seq::empty()) =~= Seq::<Seq<char>>::empty());
        assert(names =~= Seq::<Seq<char>>::empty());
    }
}

proof fn lemma_commaed_avoids(names: Seq<Seq<char>>, c: char)
    requires
        c != '"' && c != ',' && c != '\\',
        forall|i: int| 0 <= i < names.len() ==> !(#[trigger] names[i]).contains(c),
    ensures
        !commaed(names).contains(c),
    decreases names.len(),
{
    if names.len() > 0 {
        lemma_quoted_avoids(names[0], c);
        assert forall|i: int| 0 <= i < names.skip(1).len() implies !(
        #[trigger] names.skip(1)[i]).contains(c) by {
            assert(names.skip(1)[i] == names[i + 1]);
        }
        lemma_commaed_avoids(names.skip(1), c);
        let a = quoted(names[0]);
        let b = commaed(names.skip(1));
        if commaed(names).contains(c) {
            let i: int = choose|i: int| 0 <= i < commaed(names).len() && commaed(names)[i] == c;
            if i < a.len() {
                assert(a[i] == c);
            } else if i > a.len() {
                assert(b[i - a.len() - 1] == c);
            }
        }
    }
}

/// What the lines of a list add to it: a name on each, up to the closing bracket and what stands
/// behind it.
proof fn lemma_rest_of_list(lines: Seq<Seq<char>>, i: int, names: Seq<Seq<char>>, tail: Seq<char>)
    requires
        0 <= i,
        i + names.len() + 1 < lines.len(),
        forall|n: int| 0 <= n < names.len() ==> simple(#[trigger] names[n]),
        forall|j: int|
            i < j <= i + names.len() ==> super::uncommented(text::trim(#[trigger] lines[j]))
                == quoted(names[j - i - 1]) + seq![','],
        super::uncommented(text::trim(lines[i + names.len() + 1])) == seq![']'] + tail,
    ensures
        super::list_rest(lines, i) == (commaed(names) + (seq![']'] + tail), i + names.len() + 1),
    decreases names.len(),
{
    if names.len() == 0 {
        assert((seq![']'] + tail)[0] == ']');
        assert(commaed(names) + (seq![']'] + tail) =~= seq![']'] + tail);
    } else {
        let next = super::uncommented(text::trim(lines[i + 1]));
        assert(simple(names[0]));
        assert(next == quoted(names[0]) + seq![',']);
        lemma_quoted_avoids(names[0], ']');
        if next.contains(']') {
            let n: int = choose|n: int| 0 <= n < next.len() && next[n] == ']';
            assert(quoted(names[0])[n] == ']');
        }
        let more = names.skip(1);
        assert forall|n: int| 0 <= n < more.len() implies simple(#[trigger] more[n]) by {
            assert(more[n] == names[n + 1]);
        }
        assert forall|j: int| i + 1 < j <= i + 1 + more.len() implies super::uncommented(
            text::trim(#[trigger] lines[j]),
        ) == quoted(more[j - (i + 1) - 1]) + seq![','] by {
            assert(more[j - (i + 1) - 1] == names[j - i - 1]);
        }
        lemma_rest_of_list(lines, i + 1, more, tail);
        assert(next + (commaed(more) + (seq![']'] + tail)) =~= commaed(names) + (seq![']']
            + tail));
    }
}

/// What is read where the lines from `k` to `e` state dependencies, in a block that stays open.
proof fn lemma_stated(
    lines: Seq<Seq<char>>,
    k: int,
    e: int,
    names: Seq<Seq<char>>,
    depth: int,
)
    requires
        0 <= k <= e < lines.len(),
        states(lines, k, e, names),
        forall|i: int| 0 <= i < names.len() ==> simple(#[trigger] names[i]),
        depth > 0,
    ensures
        super::header_name(text::trim(lines[k])) is None,
        super::read_body(lines, Entry { line: k, depth, body: text::trim(lines[k]) }) == (Reading {
            deps: Some(names),
            next: e + 1,
            depth,
        }),
{
    reveal_strlit("depends_on = [");
    reveal_strlit("depends_on = ");
    reveal_strlit("target ");
    let line = text::trim(lines[k]);
    assert("depends_on = ["@ =~= "depends_on = "@ + seq!['[']);
    assert(forall|i: int| 0 <= i < names.len() ==> plain(#[trigger] names[i])) by {
        assert forall|i: int| 0 <= i < names.len() implies plain(#[trigger] names[i]) by {
            assert(simple(names[i]));
        }
    }
    assert(line[0] == 'd');
    assert("target "@[0] == 't');
    assert(!"target "@.is_prefix_of(line));
    if e == k && line == "depends_on = ["@ + listed(names) + seq![']'] {
        let value = seq!['['] + listed(names) + seq![']'];
        assert(line =~= "depends_on = "@ + value);
        lemma_listed_avoids(names, '#');
        lemma_listed_avoids(names, '/');
        lemma_listed_avoids(names, ']');
        lemma_between(listed(names), '#');
        lemma_between(listed(names), '/');
        lemma_value_of(value);
        lemma_whole_list(listed(names));
        law_list_reads_back(names);
        assert(value[value.len() - 1] == ']');
        assert(value.contains(']'));
    } else {
        let value = seq!['['];
        assert(line =~= "depends_on = "@ + value);
        assert(value[0] == '[');
        assert(!value.contains('#') && !value.contains('/') && !value.contains(']'));
        lemma_value_of(value);
        assert(value.contains('['));
        assert(seq![']'] + Seq::<char>::empty() =~= seq![']']);
        lemma_rest_of_list(lines, k, names, Seq::empty());
        lemma_commaed_avoids(names, ']');
        lemma_whole_list(commaed(names));
        let whole = seq!['['] + commaed(names) + seq![']'];
        assert(value + (commaed(names) + seq![']']) =~= whole);
        text::lemma_trim_fixed(whole);
        assert(whole.skip(1) =~= commaed(names) + seq![']']);
        assert(whole.skip(1).drop_last() =~= commaed(names));
        assert(super::inside_brackets(whole) == commaed(names));
        lemma_items_commaed(names);
        assert(super::bare_from(seq![']'], ']', 0, false) == 0);
        assert(seq![']'].skip(1) =~= Seq::empty());
        assert(super::brace_balance(Seq::empty()) == 0);
    }
}

/// Brackets around a text add no other character.
proof fn lemma_between(inside: Seq<char>, c: char)
    requires
        !inside.contains(c),
        c != '[' && c != ']',
    ensures
        !(seq!['['] + inside + seq![']']).contains(c),
{
    let value = seq!['['] + inside + seq![']'];
    if value.contains(c) {
        let i: int = choose|i: int| 0 <= i < value.len() && value[i] == c;
        if 0 < i < value.len() - 1 {
            assert(inside[i - 1] == c);
        }
    }
}

/// Whether the block of `name` is opened on the line `o`, with nothing else on it: by a brace behind
/// the name on the line `h`, or by one on the next line.
pub open spec fn opens(lines: Seq<Seq<char>>, h: int, o: int, name: Seq<char>) -> bool {
    ||| o == h && text::trim(lines[h]) == "target "@ + quoted(name) + " {"@
    ||| o == h + 1 && text::trim(lines[h]) == "target "@ + quoted(name) && text::trim(lines[o])
        == "{"@
}

/// A block that has been opened is one brace deep.
proof fn lemma_headed(
    lines: Seq<Seq<char>>,
    h: int,
    o: int,
    name: Seq<char>,
    block: Option<Block>,
    found: Map<Seq<char>, Seq<Seq<char>>>,
)
    requires
        0 <= h <= o < lines.len(),
        opens(lines, h, o, name),
        !name.contains('{'),
        !name.contains('}'),
    ensures
        super::deps_from(lines, h, block, found) == super::deps_from(
            lines,
            o + 1,
            Some(Block { target: name, depth: 1 }),
            found,
        ),
        braces_open(lines, o, o + 1) == 1,
        super::header_name(text::trim(lines[h])) == Some(name),
        text::trim(lines[h])[0] == 't',
{
    reveal_strlit("target ");
    reveal_strlit(" {");
    reveal_strlit("{");
    reveal_strlit("depends_on");
    let line = text::trim(lines[h]);
    let opening = text::trim(lines[o]);
    let head = "target "@ + quoted(name);
    law_header_names_its_target(name, " {"@, line);
    law_header_names_its_target(name, Seq::empty(), line);
    assert(head + Seq::<char>::empty() =~= head);
    lemma_quoted_avoids(name, '{');
    lemma_quoted_avoids(name, '}');
    assert forall|c: char| (c == '{' || c == '}') implies !#[trigger] head.contains(c) by {
        if head.contains(c) {
            let i: int = choose|i: int| 0 <= i < head.len() && head[i] == c;
            if i >= 7 {
                assert(quoted(name)[i - 7] == c);
            }
        }
    }
    text::lemma_occurrences_none(head, '{');
    text::lemma_occurrences_none(head, '}');
    if o == h {
        assert(line[line.len() - 1] == '{');
        assert(line.contains('{'));
        text::lemma_occurrences_add(head, " {"@, '{');
        text::lemma_occurrences_add(head, " {"@, '}');
        text::lemma_occurrences_none(" {"@, '}');
        assert(" {"@.drop_last() =~= seq![' ']);
        text::lemma_occurrences_none(seq![' '], '{');
        assert(text::occurrences(" {"@, '{') == 1);
    } else {
        assert(line == head);
        assert(!line.contains('{'));
        text::lemma_occurrences_none("{"@, '}');
        assert("{"@ =~= seq!['{']);
        lemma_single('{');
        assert("{"@.is_prefix_of(opening));
    }
    assert(super::opening_line(lines, h) == o);
    assert(super::brace_balance(opening) == 1);
    assert(braces_open(lines, o, o) == 0);
    let u = super::uncommented(opening);
    law_uncommented_stays(opening);
    let at = super::bare_from(u, '{', 0, false);
    lemma_bare_bound(u, '{', 0, false);
    let rest = super::behind_brace(u);
    assert(rest =~= Seq::<char>::empty()) by {
        if at < u.len() {
            assert(u[at] == '{');
            assert(opening[at] == '{');
            if o == h && at < head.len() {
                assert(head[at] == '{');
                assert(head.contains('{'));
            }
            assert(at == opening.len() - 1);
        }
    }
    assert(text::trim(rest) =~= Seq::<char>::empty());
    assert("depends_on"@.len() == 10);
    assert(super::depends_on_value(text::trim(rest)) is None);
}

proof fn lemma_bare_bound(s: Seq<char>, c: char, i: int, in_quotes: bool)
    requires
        0 <= i,
    ensures
        super::bare_from(s, c, i, in_quotes) <= s.len(),
        super::bare_from(s, c, i, in_quotes) < s.len() ==> super::bare_from(s, c, i, in_quotes) >= i
            && s[super::bare_from(s, c, i, in_quotes)] == c,
    decreases s.len() - i,
{
    if i < s.len() {
        if in_quotes && s[i] == '\\' {
            if i + 1 < s.len() {
                lemma_bare_bound(s, c, i + 2, in_quotes);
            }
        } else if s[i] == '"' {
            lemma_bare_bound(s, c, i + 1, !in_quotes);
        } else if !(s[i] == c && !in_quotes) {
            lemma_bare_bound(s, c, i + 1, in_quotes);
        }
    }
}

/// What a block states is found, and is not lost behind it.
proof fn lemma_block(
    lines: Seq<Seq<char>>,
    h: int,
    o: int,
    k: int,
    e: int,
    c: int,
    name: Seq<char>,
    names: Seq<Seq<char>>,
    block: Option<Block>,
    found: Map<Seq<char>, Seq<Seq<char>>>,
)
    requires
        well_placed(lines, h, o, k, e, c, name, names),
    ensures
        super::deps_from(lines, h, block, found).contains_key(name),
        super::deps_from(lines, h, block, found)[name] == names,
{
    lemma_headed(lines, h, o, name, block, found);
    let depth = braces_open(lines, o, k);
    let inside = braces_open(lines, o, k + 1);
    lemma_braces_sum(lines, o, o + 1, k);
    lemma_body(lines, o, k, name, found);
    lemma_stated(lines, k, e, names, inside);
    let noted = found.insert(name, names);
    assert(inside == depth + super::brace_balance(text::trim(lines[k])));
    assert(super::deps_from(lines, k, Some(Block { target: name, depth }), found)
        == super::deps_from(lines, e + 1, Some(Block { target: name, depth: inside }), noted));
    lemma_lines_apart(lines, e + 1, c, name, inside, noted);
    let last = inside + braces_open(lines, e + 1, c);
    if c < lines.len() {
        lemma_line_apart(lines, c, name, last, noted);
        lemma_braces_sum(lines, e + 1, c, c + 1);
        law_other_lines_do_not_matter(lines, c + 1, None, noted, name);
    }
}

/// The lines of a block up to the line `k` only count for their braces, where they state no
/// dependencies and the block stays open.
proof fn lemma_body(
    lines: Seq<Seq<char>>,
    o: int,
    k: int,
    name: Seq<char>,
    found: Map<Seq<char>, Seq<Seq<char>>>,
)
    requires
        0 <= o < k <= lines.len(),
        braces_open(lines, o, o + 1) == 1,
        forall|j: int| o < j < k ==> apart(#[trigger] lines[j]),
        forall|m: int| o < m <= k ==> #[trigger] braces_open(lines, o, m) > 0,
    ensures
        super::deps_from(lines, o + 1, Some(Block { target: name, depth: 1 }), found)
            == super::deps_from(
            lines,
            k,
            Some(Block { target: name, depth: braces_open(lines, o, k) }),
            found,
        ),
{
    assert forall|m: int| o + 1 < m <= k implies 1 + #[trigger] braces_open(lines, o + 1, m) > 0 by {
        lemma_braces_sum(lines, o, o + 1, m);
        assert(braces_open(lines, o, m) > 0);
    }
    lemma_lines_apart(lines, o + 1, k, name, 1, found);
    lemma_braces_sum(lines, o, o + 1, k);
}

proof fn lemma_braces_sum(lines: Seq<Seq<char>>, a: int, b: int, c: int)
    requires
        a <= b <= c,
    ensures
        braces_open(lines, a, c) == braces_open(lines, a, b) + braces_open(lines, b, c),
    decreases c - b,
{
    if b < c {
        lemma_braces_sum(lines, a, b, c - 1);
    }
}

/// Whether the block of `name` is headed on the line `h` and opened on the line `o`, states on the
/// lines from `k` to `e` that it depends on `names` and nothing else anywhere, and is closed on the
/// line `c`, or not at all where `c` is behind the last line; and whether no later block is for the
/// same target.
pub open spec fn well_placed(
    lines: Seq<Seq<char>>,
    h: int,
    o: int,
    k: int,
    e: int,
    c: int,
    name: Seq<char>,
    names: Seq<Seq<char>>,
) -> bool {
    &&& 0 <= h <= o < k <= e < c <= lines.len()
    &&& opens(lines, h, o, name)
    &&& !name.contains('{') && !name.contains('}')
    &&& states(lines, k, e, names)
    &&& forall|i: int| 0 <= i < names.len() ==> simple(#[trigger] names[i])
    &&& forall|j: int| o < j < k || e < j <= c && j < lines.len() ==> apart(#[trigger] lines[j])
    &&& forall|m: int| o < m <= k + 1 ==> #[trigger] braces_open(lines, o, m) > 0
    &&& forall|m: int|
        e + 1 <= m <= c ==> braces_open(lines, o, k + 1) + #[trigger] braces_open(lines, e + 1, m)
            > 0
    &&& c < lines.len() ==> braces_open(lines, o, k + 1) + braces_open(lines, e + 1, c + 1) <= 0
    &&& forall|j: int|
        c < j < lines.len() ==> super::header_name(text::trim(#[trigger] lines[j])) != Some(name)
}

/// Whether a line leaves no list open: it is not about dependencies, or it has no comment and
/// each of its brackets is closed.
pub open spec fn closes_its_lists(line: Seq<char>) -> bool {
    ||| !text::occurs(line, "depends_on"@)
    ||| {
        &&& !line.contains('#') && !line.contains('/')
        &&& forall|i: int|
            0 <= i < line.len() && #[trigger] line[i] == '[' ==> exists|j: int|
                i < j < line.len() && #[trigger] line[j] == ']'
    }
}

/// Whether each opening bracket of a text has a closing one behind it.
spec fn closed(s: Seq<char>) -> bool {
    forall|i: int|
        0 <= i < s.len() && #[trigger] s[i] == '[' ==> exists|j: int|
            i < j < s.len() && #[trigger] s[j] == ']'
}

proof fn lemma_closed_skip(s: Seq<char>, n: int)
    requires
        closed(s),
        0 <= n <= s.len(),
    ensures
        closed(s.skip(n)),
{
    let t = s.skip(n);
    assert forall|i: int| 0 <= i < t.len() && #[trigger] t[i] == '[' implies exists|j: int|
        i < j < t.len() && #[trigger] t[j] == ']' by {
        assert(s[i + n] == '[');
        let j: int = choose|j: int| i + n < j < s.len() && #[trigger] s[j] == ']';
        assert(t[j - n] == ']');
    }
}

proof fn lemma_closed_trim_end(s: Seq<char>)
    requires
        closed(s),
    ensures
        closed(text::trim_end(s)),
    decreases s.len(),
{
    if s.len() > 0 && text::white(s.last()) {
        let t = s.drop_last();
        assert forall|i: int| 0 <= i < t.len() && #[trigger] t[i] == '[' implies exists|j: int|
            i < j < t.len() && #[trigger] t[j] == ']' by {
            assert(s[i] == '[');
            let j: int = choose|j: int| i < j < s.len() && #[trigger] s[j] == ']';
            assert(t[j] == ']');
        }
        lemma_closed_trim_end(t);
    }
}

proof fn lemma_closed_trim(s: Seq<char>)
    requires
        closed(s),
    ensures
        closed(text::trim(s)),
{
    text::lemma_trim_edges(s);
    let n: int = choose|n: int| 0 <= n <= s.len() && text::trim_start(s) == s.skip(n);
    lemma_closed_skip(s, n);
    lemma_closed_trim_end(s.skip(n));
}

/// A piece of a text holds no character that the text does not hold.
proof fn lemma_piece_avoids(s: Seq<char>, c: char, n: int)
    requires
        !s.contains(c),
        0 <= n <= s.len(),
    ensures
        !s.skip(n).contains(c),
        !text::trim(s).contains(c),
        !text::trim_end(s).contains(c),
{
    if s.skip(n).contains(c) {
        let i: int = choose|i: int| 0 <= i < s.skip(n).len() && s.skip(n)[i] == c;
        assert(s[i + n] == c);
    }
    text::lemma_trim_edges(s);
    let m: int = choose|m: int| 0 <= m <= s.len() && text::trim_start(s) == s.skip(m);
    let u = s.skip(m);
    text::lemma_trim_end_prefix(u);
    if text::trim(s).contains(c) {
        let i: int = choose|i: int| 0 <= i < text::trim(s).len() && text::trim(s)[i] == c;
        assert(u[i] == c);
        assert(s[i + m] == c);
    }
    text::lemma_trim_end_prefix(s);
    if text::trim_end(s).contains(c) {
        let i: int = choose|i: int| 0 <= i < text::trim_end(s).len() && text::trim_end(s)[i] == c;
        assert(s[i] == c);
    }
}

/// A body of a block without comments, whose brackets are closed, leaves no list open.
proof fn lemma_value_closed(body: Seq<char>)
    requires
        closed(body),
        !body.contains('#'),
        !body.contains('/'),
    ensures
        super::depends_on_value(body) matches Some(v) ==> !super::open_list(v),
{
    if super::depends_on_value(body) is Some {
        let n = "depends_on"@.len() as int;
        let rest = body.skip(n);
        lemma_closed_skip(body, n);
        lemma_piece_avoids(body, '#', n);
        lemma_piece_avoids(body, '/', n);
        let t = text::trim(rest);
        lemma_closed_trim(rest);
        lemma_piece_avoids(rest, '#', 0);
        lemma_piece_avoids(rest, '/', 0);
        let raw = match text::after_prefix(t, "="@) {
            Some(v) => v,
            None => rest,
        };
        if "="@.is_prefix_of(t) {
            lemma_closed_skip(t, "="@.len() as int);
            lemma_piece_avoids(t, '#', "="@.len() as int);
            lemma_piece_avoids(t, '/', "="@.len() as int);
        }
        lemma_closed_trim(raw);
        lemma_piece_avoids(raw, '#', 0);
        lemma_piece_avoids(raw, '/', 0);
        let value = text::trim(raw);
        lemma_uncommented_plain(value);
        if value.contains('[') {
            let i: int = choose|i: int| 0 <= i < value.len() && value[i] == '[';
            let j: int = choose|j: int| i < j < value.len() && #[trigger] value[j] == ']';
            assert(value.contains(']'));
        }
    }
}

/// What stands behind a part of a line stands in the line.
proof fn lemma_starts_within(line: Seq<char>, n: int, p: Seq<char>)
    requires
        0 <= n <= line.len(),
        p.is_prefix_of(text::trim(line.skip(n))),
    ensures
        text::occurs(line, p),
{
    let s = line.skip(n);
    text::lemma_trim_edges(s);
    let m: int = choose|m: int| 0 <= m <= s.len() && text::trim_start(s) == s.skip(m);
    let u = s.skip(m);
    text::lemma_trim_end_prefix(u);
    assert(text::trim(s) == text::trim_end(u));
    lemma_prefix_of_prefix(p, text::trim(s), u);
    assert(line.subrange(n + m, n + m + p.len()) =~= u.take(p.len() as int));
    assert(text::occurs_at(line, p, n + m));
}

/// Lines that leave no list open are read one by one, so that a later line is come to; only a
/// brace at its start would make it part of what is before it.
proof fn lemma_comes_to(
    lines: Seq<Seq<char>>,
    i: int,
    h: int,
    block: Option<Block>,
    found: Map<Seq<char>, Seq<Seq<char>>>,
    name: Seq<char>,
) -> (r: (Option<Block>, Map<Seq<char>, Seq<Seq<char>>>))
    requires
        0 <= i <= h < lines.len(),
        !"{"@.is_prefix_of(text::trim(lines[h])),
        forall|j: int| i <= j < h ==> closes_its_lists(text::trim(#[trigger] lines[j])),
    ensures
        super::deps_from(lines, i, block, found) == super::deps_from(lines, h, r.0, r.1),
        !found.contains_key(name) && (block matches Some(b) ==> b.target != name) && (forall|j: int|
            i <= j < h ==> super::header_name(text::trim(#[trigger] lines[j])) != Some(name))
            ==> !r.1.contains_key(name),
    decreases h - i,
{
    if i == h {
        (block, found)
    } else {
        let line = text::trim(lines[i]);
        assert(closes_its_lists(line));
        match super::header_name(line) {
            Some(other) => {
                let entry = super::headed(lines, i);
                let at = entry.line;
                let opening = text::trim(lines[at]);
                assert(at <= i + 1 && at < h);
                assert(closes_its_lists(opening));
                let read = super::read_body(lines, entry);
                assert(read.next == at + 1) by {
                    if entry.depth > 0 && "depends_on"@.is_prefix_of(entry.body) {
                        lemma_opening_body(opening);
                    }
                }
                lemma_comes_to(
                    lines,
                    at + 1,
                    h,
                    super::block_at(other, read.depth),
                    super::with_deps_of(found, other, read.deps),
                    name,
                )
            },
            None => match block {
                None => lemma_comes_to(lines, i + 1, h, None, found, name),
                Some(b) => {
                    let entry = super::continued(lines, i, b.depth);
                    let read = super::read_body(lines, entry);
                    assert(read.next == i + 1) by {
                        if entry.depth > 0 && "depends_on"@.is_prefix_of(line) {
                            assert(line.skip(0) =~= line);
                            text::lemma_trim_edges(lines[i]);
                            text::lemma_trim_fixed(line);
                            lemma_starts_within(line, 0, "depends_on"@);
                            lemma_value_closed(line);
                        }
                    }
                    lemma_comes_to(
                        lines,
                        i + 1,
                        h,
                        super::block_at(b.target, read.depth),
                        super::with_deps_of(found, b.target, read.deps),
                        name,
                    )
                },
            },
        }
    }
}

/// What a line that opens a block holds of its body leaves no list open, where the line does not.
proof fn lemma_opening_body(line: Seq<char>)
    requires
        closes_its_lists(line),
        "depends_on"@.is_prefix_of(text::trim(super::behind_brace(super::uncommented(line)))),
    ensures
        super::depends_on_value(text::trim(super::behind_brace(super::uncommented(line))))
            matches Some(v) ==> !super::open_list(v),
{
    reveal_strlit("depends_on");
    law_uncommented_stays(line);
    let u = super::uncommented(line);
    let at = super::bare_from(u, '{', 0, false);
    lemma_bare_bound(u, '{', 0, false);
    if at < u.len() {
        let rest = u.skip(at + 1);
        lemma_starts_within(u, at + 1, "depends_on"@);
        let i: int = choose|i: int| text::occurs_at(u, "depends_on"@, i);
        assert(line.subrange(i, i + "depends_on"@.len()) =~= u.subrange(
            i,
            i + "depends_on"@.len(),
        ));
        assert(text::occurs_at(line, "depends_on"@, i));
        assert(text::occurs(line, "depends_on"@));
        lemma_uncommented_plain(line);
        assert(closed(line));
        lemma_closed_skip(line, at + 1);
        lemma_closed_trim(rest);
        lemma_piece_avoids(line, '#', at + 1);
        lemma_piece_avoids(line, '/', at + 1);
        lemma_piece_avoids(rest, '#', 0);
        lemma_piece_avoids(rest, '/', 0);
        lemma_value_closed(text::trim(rest));
    } else {
        assert(text::trim(Seq::<char>::empty()) =~= Seq::<char>::empty());
        assert("depends_on"@.len() == 10);
    }
}

/// What a target depends on is what its block states, to the end of the file: a block ends where
/// as many braces have been closed as were opened, not before and not after. Whatever maps or
/// blocks are nested in it, and whatever stands before and behind it, the list in it is that of
/// its target.
pub proof fn law_block_states_its_dependencies(
    content: Seq<char>,
    h: int,
    o: int,
    k: int,
    e: int,
    c: int,
    name: Seq<char>,
    names: Seq<Seq<char>>,
)
    requires
        well_placed(text::lines(content), h, o, k, e, c, name, names),
        forall|j: int|
            0 <= j < h ==> closes_its_lists(text::trim(#[trigger] text::lines(content)[j])),
    ensures
        super::hcl_dependencies(content).contains_key(name),
        super::hcl_dependencies(content)[name] == names,
{
    reveal_strlit("{");
    reveal_strlit("target ");
    let lines = text::lines(content);
    lemma_headed(lines, h, o, name, None, Map::empty());
    assert("{"@[0] == '{');
    let r = lemma_comes_to(lines, 0, h, None, Map::empty(), name);
    lemma_block(lines, h, o, k, e, c, name, names, r.0, r.1);
}

/// A target whose block states no dependencies is given none, though lines behind the block do:
/// once as many braces have been closed as were opened the block is over.
pub proof fn law_silent_block_states_nothing(
    content: Seq<char>,
    h: int,
    o: int,
    c: int,
    name: Seq<char>,
)
    requires
        ({
            let lines = text::lines(content);
            &&& 0 <= h <= o < c < lines.len()
            &&& opens(lines, h, o, name)
            &&& !name.contains('{') && !name.contains('}')
            &&& forall|j: int| o < j <= c ==> apart(#[trigger] lines[j])
            &&& forall|m: int| o < m <= c ==> #[trigger] braces_open(lines, o, m) > 0
            &&& braces_open(lines, o, c + 1) <= 0
            &&& forall|j: int| 0 <= j < h ==> closes_its_lists(text::trim(#[trigger] lines[j]))
            &&& forall|j: int|
                0 <= j < h || c < j < lines.len() ==> super::header_name(
                    text::trim(#[trigger] lines[j]),
                ) != Some(name)
        }),
    ensures
        !super::hcl_dependencies(content).contains_key(name),
{
    reveal_strlit("{");
    let lines = text::lines(content);
    assert("{"@[0] == '{');
    lemma_headed(lines, h, o, name, None, Map::empty());
    let r = lemma_comes_to(lines, 0, h, None, Map::empty(), name);
    lemma_headed(lines, h, o, name, r.0, r.1);
    assert forall|m: int| o + 1 <= m <= c implies 1 + #[trigger] braces_open(lines, o + 1, m) > 0 by {
        lemma_braces_sum(lines, o, o + 1, m);
        assert(braces_open(lines, o, m) > 0);
    }
    lemma_lines_apart(lines, o + 1, c, name, 1, r.1);
    lemma_line_apart(lines, c, name, 1 + braces_open(lines, o + 1, c), r.1);
    lemma_braces_sum(lines, o, o + 1, c + 1);
    lemma_braces_sum(lines, o + 1, c, c + 1);
    law_other_lines_do_not_matter(lines, c + 1, None, r.1, name);
}

/// A comment is dropped with the white space before it: what stands behind the first `#` or `//`
/// outside of quotes. A text without one stays as it is, whatever is in its quotes.
pub proof fn law_comment_is_dropped(code: Seq<char>, mark: Seq<char>, comment: Seq<char>)
    requires
        forall|i: int|
            0 <= i < code.len() && (#[trigger] code[i] == '#' || code[i] == '/')
                ==> text::occurrences(code.take(i), '"') % 2 == 1,
    ensures
        super::uncommented(code) == code,
        text::occurrences(code, '"') % 2 == 0 && (mark == seq!['#'] || mark == seq!['/', '/'])
            ==> super::uncommented(code + mark + comment) == text::trim_end(code),
{
    assert forall|j: int| 0 <= j < code.len() implies !#[trigger] super::starts_comment(code, j) by {}
    lemma_no_comment(code, 0);
    if text::occurrences(code, '"') % 2 == 0 && (mark == seq!['#'] || mark == seq!['/', '/']) {
        let s = code + mark + comment;
        let n = code.len() as int;
        assert(s.take(n) =~= code);
        assert(super::starts_comment(s, n));
        assert forall|j: int| 0 <= j < n implies !#[trigger] super::starts_comment(s, j) by {
            assert(s.take(j) =~= code.take(j));
            assert(s[j] == code[j]);
        }
        lemma_comment_at(s, 0, n);
    }
}

proof fn lemma_comment_at(s: Seq<char>, i: int, at: int)
    requires
        0 <= i <= at < s.len(),
        super::starts_comment(s, at),
        forall|j: int| i <= j < at ==> !#[trigger] super::starts_comment(s, j),
    ensures
        super::comment_from(s, i) == at,
    decreases at - i,
{
    if i < at {
        lemma_comment_at(s, i + 1, at);
    }
}

/// A quoted string is read back behind white space, whatever follows it; there is none where the
/// text starts with anything else.
pub proof fn law_quoted_string_reads_back(gap: Seq<char>, name: Seq<char>, rest: Seq<char>)
    requires
        forall|i: int| 0 <= i < gap.len() ==> text::white(#[trigger] gap[i]),
    ensures
        super::quoted_string(gap + (quoted(name) + rest)) == Some(name),
        rest.len() > 0 && rest[0] != '"' && !text::white(rest[0]) ==> super::quoted_string(
            gap + rest,
        ) is None,
{
    reveal_strlit("\"");
    text::lemma_trim_gap(gap, quoted(name) + rest);
    lemma_quoted_reads_back(name, rest);
    if rest.len() > 0 && rest[0] != '"' && !text::white(rest[0]) {
        text::lemma_trim_gap(gap, rest);
        lemma_trim_end_keeps(seq![rest[0]], rest.skip(1));
        assert(seq![rest[0]] + rest.skip(1) =~= rest);
        assert(text::trim(rest)[0] == rest[0]);
    }
}

/// Neither quotes nor `c` stand between two places of a text: the search goes on behind them.
proof fn lemma_bare_skip(s: Seq<char>, c: char, i: int, n: int, in_quotes: bool)
    requires
        0 <= i <= n <= s.len(),
        forall|j: int| i <= j < n ==> #[trigger] s[j] != '"' && s[j] != '\\' && s[j] != c,
    ensures
        super::bare_from(s, c, i, in_quotes) == super::bare_from(s, c, n, in_quotes),
        super::last_bare_from(s, c, i, in_quotes) == super::last_bare_from(s, c, n, in_quotes),
    decreases n - i,
{
    if i < n {
        lemma_bare_skip(s, c, i + 1, n, in_quotes);
    }
}

proof fn lemma_escaped_same(name: Seq<char>)
    requires
        !name.contains('"'),
        !name.contains('\\'),
    ensures
        escaped(name) == name,
    decreases name.len(),
{
    if name.len() > 0 {
        assert(name.contains(name[0]));
        assert forall|c: char| !name.contains(c) implies !#[trigger] name.skip(1).contains(c) by {
            if name.skip(1).contains(c) {
                let i: int = choose|i: int| 0 <= i < name.skip(1).len() && name.skip(1)[i] == c;
                assert(name[i + 1] == c);
            }
        }
        lemma_escaped_same(name.skip(1));
        assert(seq![name[0]] + name.skip(1) =~= name);
    }
}

/// The search goes on behind a name in quotes.
proof fn lemma_bare_behind_quoted(s: Seq<char>, c: char, i: int, name: Seq<char>)
    requires
        0 <= i,
        i + name.len() + 2 <= s.len(),
        s.subrange(i, i + name.len() + 2) == quoted(name),
        !name.contains('"'),
        !name.contains('\\'),
        !name.contains(c),
    ensures
        super::bare_from(s, c, i, false) == super::bare_from(s, c, i + name.len() + 2, false),
        super::last_bare_from(s, c, i, false) == super::last_bare_from(
            s,
            c,
            i + name.len() + 2,
            false,
        ),
{
    lemma_escaped_same(name);
    let q = quoted(name);
    let piece = s.subrange(i, i + name.len() + 2);
    let n = i + 1 + name.len();
    assert(s[i] == piece[0] && piece[0] == '"');
    assert(s[n] == piece[name.len() + 1int] && piece[name.len() + 1int] == '"');
    assert forall|j: int| i + 1 <= j < n implies #[trigger] s[j] != '"' && s[j] != '\\' && s[j]
        != c by {
        assert(s[j] == piece[j - i]);
        assert(piece[j - i] == name[j - i - 1]);
        assert(name.contains(name[j - i - 1]));
    }
    lemma_bare_skip(s, c, i + 1, n, true);
}

/// The search goes on behind a list of names in quotes.
proof fn lemma_bare_behind_list(s: Seq<char>, c: char, i: int, names: Seq<Seq<char>>)
    requires
        0 <= i,
        i + listed(names).len() <= s.len(),
        s.subrange(i, i + listed(names).len()) == listed(names),
        c != ',' && c != ' ' && c != '"',
        forall|n: int|
            0 <= n < names.len() ==> !(#[trigger] names[n]).contains('"') && !names[n].contains(
                '\\',
            ) && !names[n].contains(c),
    ensures
        super::last_bare_from(s, c, i, false) == super::last_bare_from(
            s,
            c,
            i + listed(names).len(),
            false,
        ),
    decreases names.len(),
{
    if names.len() > 0 {
        let name = names[0];
        lemma_escaped_same(name);
        let all = s.subrange(i, i + listed(names).len());
        assert(quoted(name).len() == name.len() + 2);
        assert(s.subrange(i, i + name.len() + 2) =~= all.take(name.len() + 2int));
        assert(all.take(name.len() + 2int) =~= quoted(name));
        lemma_bare_behind_quoted(s, c, i, name);
        if names.len() > 1 {
            let more = names.skip(1);
            let at = i + name.len() + 2;
            let behind = seq![',', ' '] + listed(more);
            assert(listed(names) == quoted(name) + behind);
            assert(behind[0] == ',' && behind[1] == ' ');
            assert((quoted(name) + behind)[quoted(name).len() as int] == behind[0]);
            assert((quoted(name) + behind)[quoted(name).len() + 1int] == behind[1]);
            assert(all[at - i] == s[at] && all[at + 1 - i] == s[at + 1]);
            lemma_bare_skip(s, c, at, at + 2, false);
            assert(s.subrange(at + 2, at + 2 + listed(more).len()) =~= listed(more)) by {
                assert forall|j: int| 0 <= j < listed(more).len() implies s[at + 2 + j] == listed(
                    more,
                )[j] by {
                    assert(s[at + 2 + j] == all[name.len() + 4 + j]);
                }
            }
            assert forall|n: int| 0 <= n < more.len() implies !(#[trigger] more[n]).contains('"')
                && !more[n].contains('\\') && !more[n].contains(c) by {
                assert(more[n] == names[n + 1]);
            }
            lemma_bare_behind_list(s, c, at + 2, more);
        }
    }
}

/// A name that stands for itself in quotes, with no brace in it.
pub open spec fn bare_name(name: Seq<char>) -> bool {
    simple(name) && !name.contains('"') && !name.contains('\\') && !name.contains('{')
        && !name.contains('}')
}

/// A block on one line with its list states its dependencies as well, and is over at its end: what
/// follows it does not matter.
pub proof fn law_one_line_block_states_its_dependencies(
    content: Seq<char>,
    h: int,
    name: Seq<char>,
    names: Seq<Seq<char>>,
)
    requires
        ({
            let lines = text::lines(content);
            &&& 0 <= h < lines.len()
            &&& text::trim(lines[h]) == "target "@ + quoted(name) + " { depends_on = ["@ + listed(
                names,
            ) + "] }"@
            &&& bare_name(name)
            &&& forall|i: int| 0 <= i < names.len() ==> bare_name(#[trigger] names[i])
            &&& forall|j: int| 0 <= j < h ==> closes_its_lists(text::trim(#[trigger] lines[j]))
            &&& forall|j: int|
                h < j < lines.len() ==> super::header_name(text::trim(#[trigger] lines[j])) != Some(
                    name,
                )
        }),
    ensures
        super::hcl_dependencies(content).contains_key(name),
        super::hcl_dependencies(content)[name] == names,
{
    reveal_strlit("{");
    reveal_strlit("target ");
    let lines = text::lines(content);
    let line = text::trim(lines[h]);
    assert(line[0] == 't');
    assert("{"@[0] == '{');
    let r = lemma_comes_to(lines, 0, h, None, Map::empty(), name);
    let tail = " { depends_on = ["@ + listed(names) + "] }"@;
    assert(line =~= "target "@ + quoted(name) + tail);
    law_header_names_its_target(name, tail, line);
    lemma_one_line(name, names);
    assert(super::opening_line(lines, h) == h);
    assert(super::block_at(name, 0) is None);
    law_other_lines_do_not_matter(lines, h + 1, None, r.1.insert(name, names), name);
}

/// Neither a name in quotes nor a list of them holds what a comment, a brace or a bracket is made
/// of, where the names do not.
proof fn lemma_bare_names_avoid(name: Seq<char>, names: Seq<Seq<char>>, c: char)
    requires
        bare_name(name),
        forall|i: int| 0 <= i < names.len() ==> bare_name(#[trigger] names[i]),
        c == '#' || c == '/' || c == '{' || c == '}' || c == '[' || c == ']',
    ensures
        !quoted(name).contains(c),
        !listed(names).contains(c),
{
    lemma_quoted_avoids(name, c);
    assert forall|i: int| 0 <= i < names.len() implies !(#[trigger] names[i]).contains(c) by {
        assert(bare_name(names[i]));
    }
    lemma_listed_avoids(names, c);
}

/// A block on one line.
spec fn one_line(name: Seq<char>, names: Seq<Seq<char>>) -> Seq<char> {
    "target "@ + quoted(name) + " { depends_on = ["@ + listed(names) + "] }"@
}

proof fn lemma_one_line_plain(name: Seq<char>, names: Seq<Seq<char>>, c: char)
    requires
        bare_name(name),
        forall|i: int| 0 <= i < names.len() ==> bare_name(#[trigger] names[i]),
        c == '#' || c == '/',
    ensures
        !one_line(name, names).contains(c),
{
    reveal_strlit("target ");
    reveal_strlit(" { depends_on = [");
    reveal_strlit("] }");
    lemma_bare_names_avoid(name, names, c);
    let line = one_line(name, names);
    text::lemma_occurrences_none("target "@, c);
    text::lemma_occurrences_none(" { depends_on = ["@, c);
    text::lemma_occurrences_none("] }"@, c);
    text::lemma_occurrences_none(quoted(name), c);
    text::lemma_occurrences_none(listed(names), c);
    lemma_one_line_counts(name, names, c);
    text::lemma_occurrences_none(line, c);
}

proof fn lemma_one_line_counts(name: Seq<char>, names: Seq<Seq<char>>, c: char)
    ensures
        text::occurrences(one_line(name, names), c) == text::occurrences("target "@, c)
            + text::occurrences(quoted(name), c) + text::occurrences(" { depends_on = ["@, c)
            + text::occurrences(listed(names), c) + text::occurrences("] }"@, c),
{
    let head = "target "@;
    let q = quoted(name);
    let mid = " { depends_on = ["@;
    let list = listed(names);
    text::lemma_occurrences_add(head + q + mid + list, "] }"@, c);
    text::lemma_occurrences_add(head + q + mid, list, c);
    text::lemma_occurrences_add(head + q, mid, c);
    text::lemma_occurrences_add(head, q, c);
}

/// The braces of the fixed parts of a block on one line.
proof fn lemma_fixed_braces()
    ensures
        text::occurrences("target "@, '{') == 0,
        text::occurrences("target "@, '}') == 0,
        text::occurrences("] }"@, '{') == 0,
        text::occurrences("] }"@, '}') == 1,
{
    reveal_strlit("target ");
    reveal_strlit("] }");
    text::lemma_occurrences_none("target "@, '{');
    text::lemma_occurrences_none("target "@, '}');
    text::lemma_occurrences_none("] }"@, '{');
    let end = seq![']', ' '];
    assert("] }"@ =~= end + seq!['}']);
    text::lemma_occurrences_add(end, seq!['}'], '}');
    text::lemma_occurrences_none(end, '}');
    lemma_single('}');
}

proof fn lemma_fixed_opening()
    ensures
        text::occurrences(" { depends_on = ["@, '{') == 1,
        text::occurrences(" { depends_on = ["@, '}') == 0,
{
    reveal_strlit(" { depends_on = [");
    reveal_strlit(" depends_on = [");
    let mid = " { depends_on = ["@;
    let tail = " depends_on = ["@;
    let lead = seq![' '] + seq!['{'];
    text::lemma_occurrences_none(mid, '}');
    assert(mid =~= lead + tail);
    text::lemma_occurrences_add(lead, tail, '{');
    text::lemma_occurrences_add(seq![' '], seq!['{'], '{');
    text::lemma_occurrences_none(seq![' '], '{');
    text::lemma_occurrences_none(tail, '{');
    lemma_single('{');
}

proof fn lemma_one_line_balance(name: Seq<char>, names: Seq<Seq<char>>)
    requires
        bare_name(name),
        forall|i: int| 0 <= i < names.len() ==> bare_name(#[trigger] names[i]),
    ensures
        super::brace_balance(one_line(name, names)) == 0,
        one_line(name, names).contains('{'),
{
    lemma_bare_names_avoid(name, names, '{');
    lemma_bare_names_avoid(name, names, '}');
    lemma_one_line_counts(name, names, '{');
    lemma_one_line_counts(name, names, '}');
    text::lemma_occurrences_none(quoted(name), '{');
    text::lemma_occurrences_none(quoted(name), '}');
    text::lemma_occurrences_none(listed(names), '{');
    text::lemma_occurrences_none(listed(names), '}');
    lemma_fixed_braces();
    lemma_fixed_opening();
    text::lemma_occurrences_none(one_line(name, names), '{');
}

/// What stands behind the brace that opens a block on one line.
proof fn lemma_one_line_behind(name: Seq<char>, names: Seq<Seq<char>>)
    requires
        bare_name(name),
    ensures
        super::behind_brace(one_line(name, names)) == " depends_on = ["@ + listed(names) + "] }"@,
{
    reveal_strlit("target ");
    reveal_strlit(" { depends_on = [");
    reveal_strlit(" depends_on = [");
    reveal_strlit("] }");
    let line = one_line(name, names);
    let head = "target "@;
    let q = quoted(name);
    let mid = " { depends_on = ["@;
    let n = name.len() as int;
    lemma_escaped_same(name);
    assert(q.len() == n + 2);
    assert forall|j: int| 0 <= j < 7 implies #[trigger] line[j] != '"' && line[j] != '\\' && line[j]
        != '{' by {
        assert(line[j] == head[j]);
    }
    lemma_bare_skip(line, '{', 0, 7, false);
    assert(line.subrange(7, 7 + n + 2) =~= q);
    lemma_bare_behind_quoted(line, '{', 7, name);
    assert(line[9 + n] == mid[0] && mid[0] == ' ');
    assert(line[10 + n] == mid[1] && mid[1] == '{');
    lemma_bare_skip(line, '{', 9 + n, 10 + n, false);
    assert(super::bare_from(line, '{', 10 + n, false) == 10 + n);
    assert(line.skip(11 + n) =~= " depends_on = ["@ + listed(names) + "] }"@);
}

/// What stands before the brace that closes a block on one line.
proof fn lemma_one_line_before(names: Seq<Seq<char>>)
    requires
        forall|i: int| 0 <= i < names.len() ==> bare_name(#[trigger] names[i]),
    ensures
        super::before_brace(" depends_on = ["@ + listed(names) + "] }"@) == "depends_on = "@ + (
        seq!['['] + listed(names) + seq![']']),
{
    reveal_strlit(" depends_on = [");
    reveal_strlit("depends_on = ");
    reveal_strlit("] }");
    let lead = " depends_on = ["@;
    let list = listed(names);
    let end = "] }"@;
    let rest = lead + list + end;
    assert forall|j: int| 0 <= j < 15 implies #[trigger] rest[j] != '"' && rest[j] != '\\'
        && rest[j] != '}' by {
        assert(rest[j] == lead[j]);
    }
    lemma_bare_skip(rest, '}', 0, 15, false);
    assert(rest.subrange(15, 15int + list.len()) =~= list);
    assert forall|i: int| 0 <= i < names.len() implies !(#[trigger] names[i]).contains('"')
        && !names[i].contains('\\') && !names[i].contains('}') by {
        assert(bare_name(names[i]));
    }
    lemma_bare_behind_list(rest, '}', 15, names);
    let m = 15int + list.len();
    assert(rest[m] == end[0] && rest[m + 1] == end[1] && rest[m + 2] == end[2]);
    lemma_bare_skip(rest, '}', m, m + 2, false);
    assert(super::last_bare_from(rest, '}', m + 3, false) == -1);
    assert(super::last_bare_from(rest, '}', m + 2, false) == m + 2);
    let stated = "depends_on = "@ + (seq!['['] + list + seq![']']);
    assert(rest.take(m + 2) =~= seq![' '] + (stated + seq![' ']));
    text::lemma_trim_gap(seq![' '], stated + seq![' ']);
    assert(stated.last() == ']' && stated[0] == 'd');
    assert((stated + seq![' '])[0] == 'd');
    assert(text::trim_start(stated + seq![' ']) == stated + seq![' ']);
    text::lemma_trim_end_gap(stated, seq![' ']);
    text::lemma_trim_fixed(stated);
}

proof fn lemma_one_line(name: Seq<char>, names: Seq<Seq<char>>)
    requires
        bare_name(name),
        forall|i: int| 0 <= i < names.len() ==> bare_name(#[trigger] names[i]),
    ensures
        one_line(name, names).contains('{'),
        super::brace_balance(one_line(name, names)) == 0,
        super::depends_on_value(super::header_body(one_line(name, names), 0)) == Some(
            seq!['['] + listed(names) + seq![']'],
        ),
        super::string_list(super::up_to_bracket(seq!['['] + listed(names) + seq![']'])) == names,
{
    let line = one_line(name, names);
    lemma_one_line_balance(name, names);
    lemma_one_line_plain(name, names, '#');
    lemma_one_line_plain(name, names, '/');
    lemma_uncommented_plain(line);
    lemma_one_line_behind(name, names);
    lemma_one_line_before(names);
    let list = listed(names);
    lemma_bare_names_avoid(name, names, '#');
    lemma_bare_names_avoid(name, names, '/');
    lemma_bare_names_avoid(name, names, ']');
    lemma_between(list, '#');
    lemma_between(list, '/');
    lemma_value_of(seq!['['] + list + seq![']']);
    lemma_whole_list(list);
    assert forall|i: int| 0 <= i < names.len() implies plain(#[trigger] names[i]) by {
        assert(bare_name(names[i]));
    }
    law_list_reads_back(names);
}

proof fn lemma_single(c: char)
    ensures
        text::occurrences(seq![c], c) == 1,
{
    assert(seq![c].drop_last() =~= Seq::<char>::empty());
    assert(text::occurrences(seq![c].drop_last(), c) == 0);
}

/// The extension decides how a file is read where it tells HCL from YAML, whatever the file holds;
/// where it does not, a file is read as HCL where it mentions a target.
pub proof fn law_extension_decides_first(dir: Seq<char>, stem: Seq<char>, content: Seq<char>)
    requires
        !stem.contains('/'),
        stem.len() > 0,
    ensures
        super::reads_as_hcl(path::join_path(dir, stem + ".hcl"@), content),
        !super::reads_as_hcl(path::join_path(dir, stem + ".yml"@), content),
        !super::reads_as_hcl(path::join_path(dir, stem + ".yaml"@), content),
        super::reads_as_hcl(path::join_path(dir, stem + ".json"@), content) <==> text::occurs(
            content,
            "target \""@,
        ),
        !stem.skip(1).contains('.') && stem != seq!['.'] ==> (super::reads_as_hcl(
            path::join_path(dir, stem),
            content,
        ) <==> text::occurs(content, "target \""@)),
{
    reveal_strlit(".hcl");
    reveal_strlit(".yml");
    reveal_strlit(".yaml");
    reveal_strlit(".json");
    reveal_strlit("hcl");
    reveal_strlit("yml");
    reveal_strlit("yaml");
    assert(stem + ".hcl"@ =~= stem + seq!['.'] + "hcl"@);
    assert(stem + ".yml"@ =~= stem + seq!['.'] + "yml"@);
    assert(stem + ".yaml"@ =~= stem + seq!['.'] + "yaml"@);
    let json = seq!['j', 's', 'o', 'n'];
    assert(stem + ".json"@ =~= stem + seq!['.'] + json);
    path::law_extension_follows_the_last_dot(dir, stem, "hcl"@);
    path::law_extension_follows_the_last_dot(dir, stem, "yml"@);
    path::law_extension_follows_the_last_dot(dir, stem, "yaml"@);
    path::law_extension_follows_the_last_dot(dir, stem, json);
    assert("hcl"@[0] == 'h' && "yml"@[0] == 'y' && "yaml"@.len() == 4 && "yaml"@[0] == 'y');
    assert("hcl"@.len() == 3 && "yml"@.len() == 3);
    assert(json[0] == 'j');
}

/// The braces that a line which opens a block and states dependencies leaves open.
spec fn opening_statement(name: Seq<char>, names: Seq<Seq<char>>) -> Seq<char> {
    "target "@ + quoted(name) + " { depends_on = ["@ + listed(names) + seq![']']
}

proof fn lemma_opening_counts(name: Seq<char>, names: Seq<Seq<char>>, c: char)
    requires
        bare_name(name),
        forall|i: int| 0 <= i < names.len() ==> bare_name(#[trigger] names[i]),
        c == '#' || c == '/' || c == '{' || c == '}',
    ensures
        text::occurrences(opening_statement(name, names), c) == if c == '{' {
            1int
        } else {
            0
        },
{
    let head = "target "@;
    let q = quoted(name);
    let mid = " { depends_on = ["@;
    let list = listed(names);
    lemma_bare_names_avoid(name, names, c);
    text::lemma_occurrences_add(head + q + mid + list, seq![']'], c);
    text::lemma_occurrences_add(head + q + mid, list, c);
    text::lemma_occurrences_add(head + q, mid, c);
    text::lemma_occurrences_add(head, q, c);
    text::lemma_occurrences_none(q, c);
    text::lemma_occurrences_none(list, c);
    text::lemma_occurrences_none(seq![']'], c);
    lemma_fixed_opening();
    lemma_fixed_braces();
    if c == '#' || c == '/' {
        reveal_strlit("target ");
        reveal_strlit(" { depends_on = [");
        text::lemma_occurrences_none(head, c);
        text::lemma_occurrences_none(mid, c);
    }
}

proof fn lemma_opening_behind(name: Seq<char>, names: Seq<Seq<char>>)
    requires
        bare_name(name),
    ensures
        super::behind_brace(opening_statement(name, names)) == " depends_on = ["@ + listed(names)
            + seq![']'],
{
    reveal_strlit("target ");
    reveal_strlit(" { depends_on = [");
    reveal_strlit(" depends_on = [");
    let line = opening_statement(name, names);
    let head = "target "@;
    let q = quoted(name);
    let mid = " { depends_on = ["@;
    let n = name.len() as int;
    lemma_escaped_same(name);
    assert(q.len() == n + 2);
    assert forall|j: int| 0 <= j < 7 implies #[trigger] line[j] != '"' && line[j] != '\\' && line[j]
        != '{' by {
        assert(line[j] == head[j]);
    }
    lemma_bare_skip(line, '{', 0, 7, false);
    assert(line.subrange(7, 7 + n + 2) =~= q);
    lemma_bare_behind_quoted(line, '{', 7, name);
    assert(line[9 + n] == mid[0] && mid[0] == ' ');
    assert(line[10 + n] == mid[1] && mid[1] == '{');
    lemma_bare_skip(line, '{', 9 + n, 10 + n, false);
    assert(super::bare_from(line, '{', 10 + n, false) == 10 + n);
    assert(line.skip(11 + n) =~= " depends_on = ["@ + listed(names) + seq![']']);
}

/// What a line that opens a block states.
proof fn lemma_opening_statement(
    lines: Seq<Seq<char>>,
    h: int,
    name: Seq<char>,
    names: Seq<Seq<char>>,
    block: Option<Block>,
    found: Map<Seq<char>, Seq<Seq<char>>>,
)
    requires
        0 <= h < lines.len(),
        text::trim(lines[h]) == opening_statement(name, names),
        bare_name(name),
        forall|i: int| 0 <= i < names.len() ==> bare_name(#[trigger] names[i]),
    ensures
        super::deps_from(lines, h, block, found) == super::deps_from(
            lines,
            h + 1,
            Some(Block { target: name, depth: 1 }),
            found.insert(name, names),
        ),
        braces_open(lines, h, h + 1) == 1,
{
    let line = text::trim(lines[h]);
    let rest = " { depends_on = ["@ + listed(names) + seq![']'];
    assert(line =~= "target "@ + quoted(name) + rest);
    law_header_names_its_target(name, rest, line);
    lemma_opening_counts(name, names, '{');
    lemma_opening_counts(name, names, '}');
    lemma_opening_counts(name, names, '#');
    lemma_opening_counts(name, names, '/');
    text::lemma_occurrences_none(line, '{');
    text::lemma_occurrences_none(line, '#');
    text::lemma_occurrences_none(line, '/');
    assert(braces_open(lines, h, h) == 0);
    assert(super::opening_line(lines, h) == h);
    lemma_uncommented_plain(line);
    lemma_opening_behind(name, names);
    lemma_stated_value(name, names);
    let value = seq!['['] + listed(names) + seq![']'];
    assert(value[value.len() - 1] == ']');
    assert(value.contains(']'));
}

proof fn lemma_stated_value(name: Seq<char>, names: Seq<Seq<char>>)
    requires
        bare_name(name),
        forall|i: int| 0 <= i < names.len() ==> bare_name(#[trigger] names[i]),
    ensures
        ({
            let value = seq!['['] + listed(names) + seq![']'];
            &&& text::trim(" depends_on = ["@ + listed(names) + seq![']']) == "depends_on = "@
                + value
            &&& super::depends_on_value("depends_on = "@ + value) == Some(value)
            &&& super::string_list(super::up_to_bracket(value)) == names
        }),
{
    reveal_strlit(" depends_on = [");
    reveal_strlit("depends_on = ");
    let list = listed(names);
    let value = seq!['['] + list + seq![']'];
    let stated = "depends_on = "@ + value;
    assert(" depends_on = ["@ + list + seq![']'] =~= seq![' '] + stated);
    text::lemma_trim_gap(seq![' '], stated);
    assert(stated[0] == 'd' && stated.last() == ']');
    text::lemma_trim_fixed(stated);
    lemma_bare_names_avoid(name, names, '#');
    lemma_bare_names_avoid(name, names, '/');
    lemma_bare_names_avoid(name, names, ']');
    lemma_between(list, '#');
    lemma_between(list, '/');
    lemma_value_of(value);
    lemma_whole_list(list);
    assert forall|i: int| 0 <= i < names.len() implies plain(#[trigger] names[i]) by {
        assert(bare_name(names[i]));
    }
    law_list_reads_back(names);
}

/// Dependencies may stand on the line that opens the block, behind its brace.
pub proof fn law_statement_may_follow_the_opening_brace(
    content: Seq<char>,
    h: int,
    c: int,
    name: Seq<char>,
    names: Seq<Seq<char>>,
)
    requires
        ({
            let lines = text::lines(content);
            &&& 0 <= h < c < lines.len()
            &&& text::trim(lines[h]) == "target "@ + quoted(name) + " { depends_on = ["@ + listed(
                names,
            ) + seq![']']
            &&& bare_name(name)
            &&& forall|i: int| 0 <= i < names.len() ==> bare_name(#[trigger] names[i])
            &&& forall|j: int| h < j <= c ==> apart(#[trigger] lines[j])
            &&& forall|m: int| h < m <= c ==> #[trigger] braces_open(lines, h, m) > 0
            &&& braces_open(lines, h, c + 1) <= 0
            &&& forall|j: int| 0 <= j < h ==> closes_its_lists(text::trim(#[trigger] lines[j]))
            &&& forall|j: int|
                c < j < lines.len() ==> super::header_name(text::trim(#[trigger] lines[j])) != Some(
                    name,
                )
        }),
    ensures
        super::hcl_dependencies(content).contains_key(name),
        super::hcl_dependencies(content)[name] == names,
{
    reveal_strlit("{");
    reveal_strlit("target ");
    let lines = text::lines(content);
    assert("{"@[0] == '{');
    assert(text::trim(lines[h])[0] == 't');
    let r = lemma_comes_to(lines, 0, h, None, Map::empty(), name);
    lemma_opening_statement(lines, h, name, names, r.0, r.1);
    let noted = r.1.insert(name, names);
    lemma_body(lines, h, c, name, noted);
    lemma_line_apart(lines, c, name, braces_open(lines, h, c), noted);
    lemma_braces_sum(lines, h, c, c + 1);
    law_other_lines_do_not_matter(lines, c + 1, None, noted, name);
}

/// What stands before the brace on a line that states dependencies and closes the block.
proof fn lemma_closing_statement(names: Seq<Seq<char>>)
    requires
        forall|i: int| 0 <= i < names.len() ==> bare_name(#[trigger] names[i]),
    ensures
        super::before_brace("depends_on = ["@ + listed(names) + "] }"@) == "depends_on = "@ + (
        seq!['['] + listed(names) + seq![']']),
{
    reveal_strlit("depends_on = [");
    reveal_strlit("depends_on = ");
    reveal_strlit("] }");
    let lead = "depends_on = ["@;
    let list = listed(names);
    let end = "] }"@;
    let rest = lead + list + end;
    assert forall|j: int| 0 <= j < 14 implies #[trigger] rest[j] != '"' && rest[j] != '\\'
        && rest[j] != '}' by {
        assert(rest[j] == lead[j]);
    }
    lemma_bare_skip(rest, '}', 0, 14, false);
    assert(rest.subrange(14, 14int + list.len()) =~= list);
    assert forall|i: int| 0 <= i < names.len() implies !(#[trigger] names[i]).contains('"')
        && !names[i].contains('\\') && !names[i].contains('}') by {
        assert(bare_name(names[i]));
    }
    lemma_bare_behind_list(rest, '}', 14, names);
    let m = 14int + list.len();
    assert(rest[m] == end[0] && rest[m + 1] == end[1] && rest[m + 2] == end[2]);
    lemma_bare_skip(rest, '}', m, m + 2, false);
    assert(super::last_bare_from(rest, '}', m + 3, false) == -1);
    assert(super::last_bare_from(rest, '}', m + 2, false) == m + 2);
    let stated = "depends_on = "@ + (seq!['['] + list + seq![']']);
    assert(rest.take(m + 2) =~= stated + seq![' ']);
    assert(stated.last() == ']' && stated[0] == 'd');
    assert((stated + seq![' '])[0] == 'd');
    assert(text::trim_start(stated + seq![' ']) == stated + seq![' ']);
    text::lemma_trim_end_gap(stated, seq![' ']);
    text::lemma_trim_fixed(stated);
}

proof fn lemma_closing_counts(names: Seq<Seq<char>>, c: char)
    requires
        forall|i: int| 0 <= i < names.len() ==> bare_name(#[trigger] names[i]),
        c == '#' || c == '/' || c == '{' || c == '}',
    ensures
        text::occurrences("depends_on = ["@ + listed(names) + "] }"@, c) == if c == '}' {
            1int
        } else {
            0
        },
{
    reveal_strlit("depends_on = [");
    let list = listed(names);
    assert forall|i: int| 0 <= i < names.len() implies !(#[trigger] names[i]).contains(c) by {
        assert(bare_name(names[i]));
    }
    lemma_listed_avoids(names, c);
    text::lemma_occurrences_add("depends_on = ["@ + list, "] }"@, c);
    text::lemma_occurrences_add("depends_on = ["@, list, c);
    text::lemma_occurrences_none("depends_on = ["@, c);
    text::lemma_occurrences_none(list, c);
    lemma_fixed_braces();
    if c == '#' || c == '/' {
        reveal_strlit("] }");
        text::lemma_occurrences_none("] }"@, c);
    }
}

/// Dependencies may stand on the line that closes the block, before its brace.
pub proof fn law_statement_may_precede_the_closing_brace(
    content: Seq<char>,
    h: int,
    o: int,
    k: int,
    name: Seq<char>,
    names: Seq<Seq<char>>,
)
    requires
        ({
            let lines = text::lines(content);
            &&& 0 <= h <= o < k < lines.len()
            &&& opens(lines, h, o, name)
            &&& bare_name(name)
            &&& forall|i: int| 0 <= i < names.len() ==> bare_name(#[trigger] names[i])
            &&& text::trim(lines[k]) == "depends_on = ["@ + listed(names) + "] }"@
            &&& forall|j: int| o < j < k ==> apart(#[trigger] lines[j])
            &&& forall|m: int| o < m <= k ==> #[trigger] braces_open(lines, o, m) > 0
            &&& braces_open(lines, o, k) == 1
            &&& forall|j: int| 0 <= j < h ==> closes_its_lists(text::trim(#[trigger] lines[j]))
            &&& forall|j: int|
                k < j < lines.len() ==> super::header_name(text::trim(#[trigger] lines[j])) != Some(
                    name,
                )
        }),
    ensures
        super::hcl_dependencies(content).contains_key(name),
        super::hcl_dependencies(content)[name] == names,
{
    reveal_strlit("{");
    let lines = text::lines(content);
    assert("{"@[0] == '{');
    lemma_headed(lines, h, o, name, None, Map::empty());
    let r = lemma_comes_to(lines, 0, h, None, Map::empty(), name);
    lemma_headed(lines, h, o, name, r.0, r.1);
    lemma_body(lines, o, k, name, r.1);
    let noted = r.1.insert(name, names);
    lemma_closed_with_statement(lines, k, name, names, r.1);
    law_other_lines_do_not_matter(lines, k + 1, None, noted, name);
}

proof fn lemma_closed_with_statement(
    lines: Seq<Seq<char>>,
    k: int,
    name: Seq<char>,
    names: Seq<Seq<char>>,
    found: Map<Seq<char>, Seq<Seq<char>>>,
)
    requires
        0 <= k < lines.len(),
        bare_name(name),
        forall|i: int| 0 <= i < names.len() ==> bare_name(#[trigger] names[i]),
        text::trim(lines[k]) == "depends_on = ["@ + listed(names) + "] }"@,
    ensures
        super::deps_from(lines, k, Some(Block { target: name, depth: 1 }), found)
            == super::deps_from(lines, k + 1, None, found.insert(name, names)),
{
    reveal_strlit("depends_on = [");
    reveal_strlit("target ");
    let line = text::trim(lines[k]);
    assert(line[0] == 'd');
    assert("target "@[0] == 't');
    assert(super::header_name(line) is None);
    lemma_closing_counts(names, '{');
    lemma_closing_counts(names, '}');
    lemma_closing_counts(names, '#');
    lemma_closing_counts(names, '/');
    text::lemma_occurrences_none(line, '#');
    text::lemma_occurrences_none(line, '/');
    lemma_uncommented_plain(line);
    lemma_closing_statement(names);
    lemma_stated_value(name, names);
    assert(super::brace_balance(line) == -1);
}

/// A comment behind the list changes nothing of it.
pub proof fn law_comments_do_not_change_the_value(
    value: Seq<char>,
    gap: Seq<char>,
    comment: Seq<char>,
)
    requires
        value.len() > 0,
        !text::white(value[0]) && !text::white(value.last()),
        !value.contains('#') && !value.contains('/'),
        text::occurrences(value, '"') % 2 == 0,
        forall|i: int| 0 <= i < gap.len() ==> text::white(#[trigger] gap[i]),
        comment.len() > 0 ==> !text::white(comment.last()),
    ensures
        super::depends_on_value("depends_on = "@ + value + gap + seq!['#'] + comment) == Some(value),
        super::depends_on_value("depends_on = "@ + value) == Some(value),
{
    reveal_strlit("depends_on = ");
    reveal_strlit("depends_on");
    reveal_strlit("=");
    lemma_value_of(value);
    let whole = value + gap + seq!['#'] + comment;
    let line = "depends_on = "@ + value + gap + seq!['#'] + comment;
    assert(line =~= "depends_on = "@ + whole);
    assert(line.take(10) =~= "depends_on"@);
    let rest = line.skip(10);
    let tail = seq!['=', ' '] + whole;
    assert(rest =~= seq![' '] + tail);
    text::lemma_trim_gap(seq![' '], tail);
    assert(whole.last() == if comment.len() > 0 {
        comment.last()
    } else {
        '#'
    });
    assert(tail.last() == whole.last());
    text::lemma_trim_fixed(tail);
    assert(tail.take(1) =~= "="@);
    assert(tail.skip(1) =~= seq![' '] + whole);
    text::lemma_trim_gap(seq![' '], whole);
    text::lemma_trim_fixed(whole);
    let code = value + gap;
    assert forall|i: int| 0 <= i < code.len() && (#[trigger] code[i] == '#' || code[i]
        == '/') implies text::occurrences(code.take(i), '"') % 2 == 1 by {
        if i < value.len() {
            assert(value.contains(value[i]));
        } else {
            assert(text::white(gap[i - value.len()]));
        }
    }
    text::lemma_occurrences_add(value, gap, '"');
    text::lemma_occurrences_none(gap, '"');
    assert(!gap.contains('"')) by {
        if gap.contains('"') {
            let i: int = choose|i: int| 0 <= i < gap.len() && gap[i] == '"';
            assert(text::white(gap[i]));
        }
    }
    law_comment_is_dropped(code, seq!['#'], comment);
    text::lemma_trim_end_gap(value, gap);
    text::lemma_trim_fixed(value);
}

/// A list without its brackets is read as well; and what is no list of its own is read as it
/// stands, where more than closing braces follows its last bracket.
pub proof fn law_brackets_may_be_missing(names: Seq<Seq<char>>, value: Seq<char>, rest: Seq<char>)
    requires
        names.len() > 0,
        forall|i: int| 0 <= i < names.len() ==> plain(#[trigger] names[i]),
    ensures
        super::string_list(listed(names)) == names,
        rest.len() > 0 && !rest.contains(']') && rest.last() != '}' && !text::white(rest.last())
            ==> super::up_to_bracket(value + rest) == value + rest,
{
    let list = listed(names);
    lemma_listed_edges(names);
    text::lemma_trim_fixed(list);
    assert(super::inside_brackets(list) == list);
    lemma_items_listed(names, Seq::empty());
    if rest.len() > 0 && !rest.contains(']') && rest.last() != '}' && !text::white(rest.last()) {
        let whole = value + rest;
        let at = super::last_bare_from(whole, ']', 0, false);
        lemma_last_bare_bound(whole, ']', 0, false);
        if at >= 0 {
            if at >= value.len() {
                assert(rest[at - value.len()] == ']');
            }
            let behind = whole.skip(at + 1);
            assert(behind[behind.len() - 1] == rest.last());
            assert(!super::only_closes(behind));
        }
    }
}

proof fn lemma_listed_edges(names: Seq<Seq<char>>)
    requires
        names.len() > 0,
    ensures
        listed(names).len() > 0,
        listed(names)[0] == '"',
        listed(names).last() == '"',
    decreases names.len(),
{
    if names.len() > 1 {
        lemma_listed_edges(names.skip(1));
    }
}

/// The search goes on behind names in quotes with a comma behind each.
proof fn lemma_bare_behind_commaed(s: Seq<char>, i: int, names: Seq<Seq<char>>)
    requires
        0 <= i,
        i + commaed(names).len() <= s.len(),
        s.subrange(i, i + commaed(names).len()) == commaed(names),
        forall|n: int| 0 <= n < names.len() ==> bare_name(#[trigger] names[n]),
    ensures
        super::last_bare_from(s, ']', i, false) == super::last_bare_from(
            s,
            ']',
            i + commaed(names).len(),
            false,
        ),
    decreases names.len(),
{
    if names.len() > 0 {
        let name = names[0];
        let more = names.skip(1);
        assert(bare_name(name));
        lemma_escaped_same(name);
        let all = s.subrange(i, i + commaed(names).len());
        let n = name.len() + 2int;
        assert(quoted(name).len() == n);
        assert(commaed(names) == quoted(name) + seq![','] + commaed(more));
        assert(s.subrange(i, i + n) =~= all.take(n));
        assert(all.take(n) =~= quoted(name));
        lemma_bare_behind_quoted(s, ']', i, name);
        assert(all[n] == ',');
        assert(s[i + n] == ',');
        lemma_bare_skip(s, ']', i + n, i + n + 1, false);
        assert(s.subrange(i + n + 1, i + n + 1 + commaed(more).len()) =~= all.skip(n + 1));
        assert(all.skip(n + 1) =~= commaed(more));
        assert forall|m: int| 0 <= m < more.len() implies bare_name(#[trigger] more[m]) by {
            assert(more[m] == names[m + 1]);
        }
        lemma_bare_behind_commaed(s, i + n + 1, more);
    }
}

/// Of a list with a name before each comma, the braces behind it are left out.
proof fn lemma_commaed_up_to_bracket(names: Seq<Seq<char>>, tail: Seq<char>)
    requires
        forall|n: int| 0 <= n < names.len() ==> bare_name(#[trigger] names[n]),
        super::only_closes(tail),
    ensures
        super::up_to_bracket(seq!['['] + (commaed(names) + (seq![']'] + tail))) == seq!['[']
            + commaed(names) + seq![']'],
{
    let value = seq!['['] + (commaed(names) + (seq![']'] + tail));
    let at = 1 + commaed(names).len() as int;
    assert(value[0] == '[' && value[at] == ']');
    lemma_bare_skip(value, ']', 0, 1, false);
    assert(value.subrange(1, at) =~= commaed(names));
    lemma_bare_behind_commaed(value, 1, names);
    assert forall|j: int| at + 1 <= j < value.len() implies #[trigger] value[j] != '"' && value[j]
        != '\\' && value[j] != ']' by {
        assert(value[j] == tail[j - at - 1]);
        assert(text::white(tail[j - at - 1]) || tail[j - at - 1] == '}');
    }
    lemma_bare_skip(value, ']', at + 1, value.len() as int, false);
    assert(super::last_bare_from(value, ']', at, false) == at);
    assert(value.skip(at + 1) =~= tail);
    assert(value.take(at + 1) =~= seq!['['] + commaed(names) + seq![']']);
}

/// A list over several lines is read the same where its block is closed behind its bracket.
proof fn lemma_stated_and_closed(
    lines: Seq<Seq<char>>,
    k: int,
    e: int,
    names: Seq<Seq<char>>,
    tail: Seq<char>,
    depth: int,
)
    requires
        0 <= k < e < lines.len(),
        e == k + names.len() + 1,
        text::trim(lines[k]) == "depends_on = ["@,
        forall|j: int|
            k < j < e ==> super::uncommented(text::trim(#[trigger] lines[j])) == quoted(
                names[j - k - 1],
            ) + seq![','],
        super::uncommented(text::trim(lines[e])) == seq![']'] + tail,
        super::only_closes(tail),
        forall|i: int| 0 <= i < names.len() ==> bare_name(#[trigger] names[i]),
        depth > 0,
    ensures
        super::header_name(text::trim(lines[k])) is None,
        super::brace_balance(text::trim(lines[k])) == 0,
        super::read_body(lines, Entry { line: k, depth, body: text::trim(lines[k]) }) == (Reading {
            deps: Some(names),
            next: e + 1,
            depth: depth - text::occurrences(tail, '}'),
        }),
{
    reveal_strlit("depends_on = [");
    reveal_strlit("depends_on = ");
    reveal_strlit("target ");
    let line = text::trim(lines[k]);
    let value = seq!['['];
    assert("depends_on = ["@ =~= "depends_on = "@ + value);
    assert(line[0] == 'd' && "target "@[0] == 't');
    text::lemma_occurrences_none(line, '{');
    text::lemma_occurrences_none(line, '}');
    assert(value[0] == '[');
    assert(!value.contains('#') && !value.contains('/') && !value.contains(']'));
    lemma_value_of(value);
    assert(value.contains('['));
    assert forall|i: int| 0 <= i < names.len() implies simple(#[trigger] names[i]) && plain(
        names[i],
    ) by {
        assert(bare_name(names[i]));
    }
    lemma_rest_of_list(lines, k, names, tail);
    lemma_commaed_up_to_bracket(names, tail);
    let whole = seq!['['] + commaed(names) + seq![']'];
    text::lemma_trim_fixed(whole);
    assert(whole.skip(1).drop_last() =~= commaed(names));
    assert(super::inside_brackets(whole) == commaed(names));
    lemma_items_commaed(names);
    let last = seq![']'] + tail;
    assert(last[0] == ']');
    assert(super::bare_from(last, ']', 0, false) == 0);
    assert(last.skip(1) =~= tail);
    if tail.contains('{') {
        let i: int = choose|i: int| 0 <= i < tail.len() && tail[i] == '{';
        assert(text::white(tail[i]) || tail[i] == '}');
    }
    text::lemma_occurrences_none(tail, '{');
}

/// A block may be closed behind the bracket of a list that stands on several lines: it states the
/// names of the list, and is over there.
pub proof fn law_list_may_precede_the_closing_brace(
    content: Seq<char>,
    h: int,
    o: int,
    k: int,
    e: int,
    name: Seq<char>,
    names: Seq<Seq<char>>,
    tail: Seq<char>,
)
    requires
        ({
            let lines = text::lines(content);
            &&& 0 <= h <= o < k < e < lines.len()
            &&& opens(lines, h, o, name)
            &&& bare_name(name)
            &&& forall|i: int| 0 <= i < names.len() ==> bare_name(#[trigger] names[i])
            &&& e == k + names.len() + 1
            &&& text::trim(lines[k]) == "depends_on = ["@
            &&& forall|j: int|
                k < j < e ==> super::uncommented(text::trim(#[trigger] lines[j])) == quoted(
                    names[j - k - 1],
                ) + seq![',']
            &&& super::uncommented(text::trim(lines[e])) == seq![']'] + tail
            &&& forall|i: int| 0 <= i < tail.len() ==> text::white(#[trigger] tail[i]) || tail[i]
                == '}'
            &&& forall|j: int| o < j < k ==> apart(#[trigger] lines[j])
            &&& forall|m: int| o < m <= k ==> #[trigger] braces_open(lines, o, m) > 0
            &&& text::occurrences(tail, '}') >= braces_open(lines, o, k)
            &&& forall|j: int| 0 <= j < h ==> closes_its_lists(text::trim(#[trigger] lines[j]))
            &&& forall|j: int|
                e < j < lines.len() ==> super::header_name(text::trim(#[trigger] lines[j])) != Some(
                    name,
                )
        }),
    ensures
        super::hcl_dependencies(content).contains_key(name),
        super::hcl_dependencies(content)[name] == names,
{
    reveal_strlit("{");
    let lines = text::lines(content);
    assert("{"@[0] == '{');
    lemma_headed(lines, h, o, name, None, Map::empty());
    let r = lemma_comes_to(lines, 0, h, None, Map::empty(), name);
    lemma_headed(lines, h, o, name, r.0, r.1);
    lemma_body(lines, o, k, name, r.1);
    let depth = braces_open(lines, o, k);
    let noted = r.1.insert(name, names);
    lemma_stated_and_closed(lines, k, e, names, tail, depth);
    assert(super::deps_from(lines, k, Some(Block { target: name, depth }), r.1)
        == super::deps_from(lines, e + 1, None, noted));
    law_other_lines_do_not_matter(lines, e + 1, None, noted, name);
}

}
