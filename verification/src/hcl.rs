//! The dependencies that an HCL bake file states.
use crate::names;
use crate::names::NameMap;
use crate::path;
use crate::path::extension_of;
use crate::text;
use crate::text::{
    add_text, begins_with, chars_of, count_char, has_piece, holds_char, is_white, lines_of,
    same_text, string_of, strip_lead, trimmed, trimmed_end,
};
use vstd::prelude::*;
use vstd::slice::*;
use vstd::string::*;

pub mod laws;

verus! {

/// Whether a comment starts at the place `i`: a `#` or `//` outside of quotes.
pub open spec fn starts_comment(s: Seq<char>, i: int) -> bool {
    &&& 0 <= i < s.len()
    &&& text::occurrences(s.take(i), '"') % 2 == 0
    &&& s[i] == '#' || (s[i] == '/' && i + 1 < s.len() && s[i + 1] == '/')
}

/// The first place from `i` on where a comment starts; the length where there is none.
pub open spec fn comment_from(s: Seq<char>, i: int) -> int
    decreases s.len() - i,
{
    if i >= s.len() {
        s.len() as int
    } else if starts_comment(s, i) {
        i
    } else {
        comment_from(s, i + 1)
    }
}

/// A text without the comment at its end and the white space before it. A text without a
/// comment stays as it is.
pub open spec fn uncommented(s: Seq<char>) -> Seq<char> {
    let at = comment_from(s, 0);
    if at < s.len() {
        text::trim_end(s.take(at))
    } else {
        s
    }
}

/// A text without the comment at its end and the white space before it.
fn without_comment(s: &[char]) -> (r: &[char])
    ensures
        r@ == uncommented(s@),
        r@.is_prefix_of(s@),
{
    let mut in_quotes: bool = false;
    let mut i: usize = 0;
    assert(s@.take(0).len() == 0);
    while i < s.len()
        invariant
            i <= s@.len(),
            in_quotes == (text::occurrences(s@.take(i as int), '"') % 2 == 1),
            comment_from(s@, 0) == comment_from(s@, i as int),
        decreases s@.len() - i,
    {
        if !in_quotes && (s[i] == '#' || (s[i] == '/' && i + 1 < s.len() && s[i + 1] == '/')) {
            assert(starts_comment(s@, i as int));
            let kept = slice_subrange(s, 0, i);
            assert(kept@ =~= s@.take(i as int));
            proof {
                text::lemma_trim_end_prefix(kept@);
            }
            return trimmed_end(kept);
        }
        proof {
            text::lemma_occurrences_take(s@, '"', i as int);
        }
        if s[i] == '"' {
            in_quotes = !in_quotes;
        }
        i += 1;
    }
    s
}

/// A text without the comment (`//` or `#`) at its end, where that is outside of quotes, and
/// without the white space before the comment.
pub fn strip_hcl_inline_comment(s: &str) -> (r: &str)
    ensures
        r@ == uncommented(s@),
{
    let chars = chars_of(s);
    let kept = without_comment(chars.as_slice());
    assert(s@.subrange(0, kept@.len() as int) =~= kept@);
    s.substring_char(0, kept.len())
}

/// What stands before the closing quote, an escaped character standing for itself.
pub open spec fn unquote(s: Seq<char>) -> Option<Seq<char>>
    decreases s.len(),
{
    if s.len() == 0 {
        None
    } else if s[0] == '"' {
        Some(Seq::empty())
    } else if s[0] == '\\' {
        if s.len() == 1 {
            None
        } else {
            match unquote(s.skip(2)) {
                Some(rest) => Some(seq![s[1]] + rest),
                None => None,
            }
        }
    } else {
        match unquote(s.skip(1)) {
            Some(rest) => Some(seq![s[0]] + rest),
            None => None,
        }
    }
}

/// The quoted string that a text starts with, behind white space.
pub open spec fn quoted_string(s: Seq<char>) -> Option<Seq<char>> {
    match text::after_prefix(text::trim(s), "\""@) {
        Some(rest) => unquote(rest),
        None => None,
    }
}

fn leading_quoted(s: &[char]) -> (r: Option<String>)
    ensures
        match r {
            Some(q) => quoted_string(s@) == Some(q@),
            None => quoted_string(s@) is None,
        },
{
    let rest: &[char] = match strip_lead(trimmed(s), "\"") {
        Some(rest) => rest,
        None => {
            return None;
        },
    };
    let mut result: String = String::new();
    let mut i: usize = 0;
    assert(rest@.skip(0) =~= rest@);
    while i < rest.len()
        invariant
            i <= rest@.len(),
            quoted_string(s@) == unquote(rest@),
            unquote(rest@) == match unquote(rest@.skip(i as int)) {
                Some(more) => Some(result@ + more),
                None => None::<Seq<char>>,
            },
        decreases rest@.len() - i,
    {
        let ghost here = rest@.skip(i as int);
        let ghost done = result@;
        assert(here[0] == rest@[i as int]);
        if rest[i] == '"' {
            assert(result@ + Seq::empty() =~= result@);
            return Some(result);
        }
        if rest[i] == '\\' {
            if i + 1 < rest.len() {
                result.push(rest[i + 1]);
                proof {
                    assert(here[1] == rest@[i + 1]);
                    assert(here.skip(2) =~= rest@.skip(i + 2));
                    lemma_unquote_step(done, rest@[i + 1], rest@.skip(i + 2));
                }
                i += 2;
            } else {
                return None;
            }
        } else {
            result.push(rest[i]);
            proof {
                assert(here.skip(1) =~= rest@.skip(i + 1));
                lemma_unquote_step(done, rest@[i as int], rest@.skip(i + 1));
            }
            i += 1;
        }
    }
    None
}

proof fn lemma_unquote_step(done: Seq<char>, c: char, rest: Seq<char>)
    ensures
        unquote(rest) matches Some(more) ==> done + (seq![c] + more) == done.push(c) + more,
{
    match unquote(rest) {
        Some(more) => {
            assert(done + (seq![c] + more) =~= done.push(c) + more);
        },
        None => {},
    }
}

/// The quoted string that a text starts with, behind white space; an escaped character stands
/// for itself. None where there is no quoted string, or its closing quote is missing.
pub fn extract_quoted_string(s: &str) -> (r: Option<String>)
    ensures
        match r {
            Some(q) => quoted_string(s@) == Some(q@),
            None => quoted_string(s@) is None,
        },
{
    leading_quoted(chars_of(s).as_slice())
}

/// The item that ends here, without the white space around it; none where nothing is left.
pub open spec fn item_of(current: Seq<char>) -> Seq<Seq<char>> {
    if text::trim(current).len() == 0 {
        Seq::empty()
    } else {
        seq![text::trim(current)]
    }
}

/// The items of the inside of a list, where `current` has been read of the first one: between
/// commas outside of quotes, without the quotes, an escaped character in quotes standing for
/// itself.
pub open spec fn items_of(s: Seq<char>, current: Seq<char>, in_quotes: bool) -> Seq<Seq<char>>
    decreases s.len(),
{
    if s.len() == 0 {
        item_of(current)
    } else if in_quotes && s[0] == '\\' {
        if s.len() == 1 {
            item_of(current)
        } else {
            items_of(s.skip(2), current.push(s[1]), in_quotes)
        }
    } else if s[0] == '"' {
        items_of(s.skip(1), current, !in_quotes)
    } else if s[0] == ',' && !in_quotes {
        item_of(current) + items_of(s.skip(1), Seq::empty(), false)
    } else {
        items_of(s.skip(1), current.push(s[0]), in_quotes)
    }
}

/// What stands inside the brackets of a list; a missing bracket does not matter.
pub open spec fn inside_brackets(s: Seq<char>) -> Seq<char> {
    let t = text::trim(s);
    let u = if t.len() > 0 && t[0] == '[' {
        t.skip(1)
    } else {
        t
    };
    if u.len() > 0 && u.last() == ']' {
        u.drop_last()
    } else {
        u
    }
}

/// The items of a list of strings.
pub open spec fn string_list(s: Seq<char>) -> Seq<Seq<char>> {
    items_of(inside_brackets(s), Seq::empty(), false)
}

fn push_item(items: &mut Vec<String>, current: &[char])
    ensures
        text::texts(final(items)@) == text::texts(old(items)@) + item_of(current@),
{
    let ghost before = text::texts(items@);
    let t = trimmed(current);
    if t.len() > 0 {
        add_text(items, string_of(t));
        assert(text::texts(items@) =~= before + item_of(current@));
    } else {
        assert(text::texts(items@) =~= before + item_of(current@));
    }
}

fn list_items(s: &[char]) -> (r: Vec<String>)
    ensures
        text::texts(r@) == string_list(s@),
{
    let t = trimmed(s);
    let u: &[char] = if t.len() > 0 && t[0] == '[' {
        slice_subrange(t, 1, t.len())
    } else {
        t
    };
    let body: &[char] = if u.len() > 0 && u[u.len() - 1] == ']' {
        slice_subrange(u, 0, u.len() - 1)
    } else {
        u
    };
    proof {
        if t@.len() > 0 && t@[0] == '[' {
            assert(u@ =~= t@.skip(1));
        }
        if u@.len() > 0 && u@.last() == ']' {
            assert(body@ =~= u@.drop_last());
        }
        assert(body@ == inside_brackets(s@));
    }
    let mut items: Vec<String> = Vec::new();
    let mut current: Vec<char> = Vec::new();
    let mut in_quotes: bool = false;
    let mut i: usize = 0;
    assert(body@.skip(0) =~= body@);
    assert(text::texts(items@) + string_list(s@) =~= string_list(s@));
    while i < body.len()
        invariant
            i <= body@.len(),
            string_list(s@) == text::texts(items@) + items_of(
                body@.skip(i as int),
                current@,
                in_quotes,
            ),
        decreases body@.len() - i,
    {
        let ghost here = body@.skip(i as int);
        let ghost before = text::texts(items@);
        assert(here[0] == body@[i as int]);
        assert(here.skip(1) =~= body@.skip(i + 1));
        let c: char = body[i];
        if in_quotes && c == '\\' {
            if i + 1 < body.len() {
                assert(here[1] == body@[i + 1]);
                assert(here.skip(2) =~= body@.skip(i + 2));
                current.push(body[i + 1]);
                i += 2;
            } else {
                assert(body@.skip(i + 1).len() == 0);
                i += 1;
            }
        } else if c == '"' {
            in_quotes = !in_quotes;
            i += 1;
        } else if c == ',' && !in_quotes {
            let ghost ended = current@;
            push_item(&mut items, current.as_slice());
            current = Vec::new();
            proof {
                let rest = items_of(here.skip(1), Seq::empty(), false);
                assert(before + (item_of(ended) + rest) =~= (before + item_of(ended)) + rest);
                assert(current@ =~= Seq::<char>::empty());
            }
            i += 1;
        } else {
            current.push(c);
            i += 1;
        }
    }
    assert(body@.skip(i as int).len() == 0);
    push_item(&mut items, current.as_slice());
    items
}

/// The items of a list of strings such as `["a", "b"]`. A comma inside of quotes does not end
/// an item.
pub fn parse_hcl_string_list(s: &str) -> (r: Vec<String>)
    ensures
        text::texts(r@) == string_list(s@),
{
    list_items(chars_of(s).as_slice())
}

/// The name of the target whose block a line opens.
pub open spec fn header_name(line: Seq<char>) -> Option<Seq<char>> {
    match text::after_prefix(line, "target "@) {
        Some(rest) => quoted_string(rest),
        None => None,
    }
}

/// How many more braces a line opens than it closes.
pub open spec fn brace_balance(line: Seq<char>) -> int {
    text::occurrences(line, '{') - text::occurrences(line, '}')
}

/// What a line gives as the value of `depends_on`, if it sets it.
pub open spec fn depends_on_value(line: Seq<char>) -> Option<Seq<char>> {
    match text::after_prefix(line, "depends_on"@) {
        Some(rest) => {
            let value = match text::after_prefix(text::trim(rest), "="@) {
                Some(v) => v,
                None => rest,
            };
            Some(uncommented(text::trim(value)))
        },
        None => None,
    }
}

/// Whether a value goes on over the next lines: whether its bracket is still open.
pub open spec fn open_list(value: Seq<char>) -> bool {
    value.contains('[') && !value.contains(']')
}

/// What the lines after the line `i` add to a list that is open, and the last of them: up to
/// the line with the closing bracket, or to the end.
pub open spec fn list_rest(lines: Seq<Seq<char>>, i: int) -> (Seq<char>, int)
    decreases lines.len() - i,
{
    if i + 1 >= lines.len() {
        (Seq::empty(), i)
    } else {
        let next = uncommented(text::trim(lines[i + 1]));
        if next.contains(']') {
            (next, i + 1)
        } else {
            let rest = list_rest(lines, i + 1);
            (next + rest.0, rest.1)
        }
    }
}

/// The first place from `i` on where `c` stands outside of quotes; the length where there is
/// none. A character behind a `\\` in quotes is passed over.
pub open spec fn bare_from(s: Seq<char>, c: char, i: int, in_quotes: bool) -> int
    decreases s.len() - i,
{
    if i >= s.len() {
        s.len() as int
    } else if in_quotes && s[i] == '\\' {
        if i + 1 < s.len() {
            bare_from(s, c, i + 2, in_quotes)
        } else {
            s.len() as int
        }
    } else if s[i] == '"' {
        bare_from(s, c, i + 1, !in_quotes)
    } else if s[i] == c && !in_quotes {
        i
    } else {
        bare_from(s, c, i + 1, in_quotes)
    }
}

/// The last place from `i` on where `c` stands outside of quotes; negative where there is none.
pub open spec fn last_bare_from(s: Seq<char>, c: char, i: int, in_quotes: bool) -> int
    decreases s.len() - i,
{
    if i >= s.len() {
        -1
    } else if in_quotes && s[i] == '\\' {
        if i + 1 < s.len() {
            last_bare_from(s, c, i + 2, in_quotes)
        } else {
            -1
        }
    } else if s[i] == '"' {
        last_bare_from(s, c, i + 1, !in_quotes)
    } else {
        let later = last_bare_from(s, c, i + 1, in_quotes);
        if later < 0 && s[i] == c && !in_quotes {
            i
        } else {
            later
        }
    }
}

/// Whether a text is made of closing braces and white space.
pub open spec fn only_closes(s: Seq<char>) -> bool {
    forall|i: int| 0 <= i < s.len() ==> text::white(#[trigger] s[i]) || s[i] == '}'
}

/// A value up to its last bracket, where nothing but closing braces follows; the whole value
/// otherwise.
pub open spec fn up_to_bracket(value: Seq<char>) -> Seq<char> {
    let at = last_bare_from(value, ']', 0, false);
    if at >= 0 && only_closes(value.skip(at + 1)) {
        value.take(at + 1)
    } else {
        value
    }
}

/// What stands behind the bracket that closes a list.
pub open spec fn behind_bracket(s: Seq<char>) -> Seq<char> {
    let at = bare_from(s, ']', 0, false);
    if at < s.len() {
        s.skip(at + 1)
    } else {
        Seq::empty()
    }
}

/// What stands behind the brace that opens a block.
pub open spec fn behind_brace(s: Seq<char>) -> Seq<char> {
    let at = bare_from(s, '{', 0, false);
    if at < s.len() {
        s.skip(at + 1)
    } else {
        Seq::empty()
    }
}

/// What stands before the brace that closes a block.
pub open spec fn before_brace(s: Seq<char>) -> Seq<char> {
    let at = last_bare_from(s, '}', 0, false);
    if at >= 0 {
        text::trim(s.take(at))
    } else {
        Seq::empty()
    }
}

/// The line whose brace opens the block that the line `i` heads: that line or, where it has no
/// brace and the next one starts with it, the next.
pub open spec fn opening_line(lines: Seq<Seq<char>>, i: int) -> int {
    if !text::trim(lines[i]).contains('{') && i + 1 < lines.len() && "{"@.is_prefix_of(
        text::trim(lines[i + 1]),
    ) {
        i + 1
    } else {
        i
    }
}

/// What the line that opens a block holds of the body of the block, which is `depth` deep after
/// the line.
pub open spec fn header_body(line: Seq<char>, depth: int) -> Seq<char> {
    let rest = behind_brace(uncommented(line));
    if depth > 0 {
        text::trim(rest)
    } else {
        before_brace(rest)
    }
}

/// What a line in a block holds of the body of the block, which is `depth` deep after the line.
pub open spec fn line_body(line: Seq<char>, depth: int) -> Seq<char> {
    if depth > 0 {
        line
    } else {
        before_brace(uncommented(line))
    }
}

/// Where the body of a block goes on: on a line, `depth` deep after it, with what that line holds
/// of the body.
#[verifier::ext_equal]
pub struct Entry {
    pub line: int,
    pub depth: int,
    pub body: Seq<char>,
}

/// Where the body of the block that the line `i` heads starts.
pub open spec fn headed(lines: Seq<Seq<char>>, i: int) -> Entry {
    let at = opening_line(lines, i);
    let line = text::trim(lines[at]);
    let depth = if at == i {
        brace_balance(line)
    } else {
        brace_balance(text::trim(lines[i])) + brace_balance(line)
    };
    Entry { line: at, depth, body: header_body(line, depth) }
}

/// Where the body of a block that is `depth` deep before the line `i` goes on.
pub open spec fn continued(lines: Seq<Seq<char>>, i: int, depth: int) -> Entry {
    let line = text::trim(lines[i]);
    let after = depth + brace_balance(line);
    Entry { line: i, depth: after, body: line_body(line, after) }
}

/// What has been read of a block: the dependencies, where some are stated, the line to go on
/// with, and how deep the block is there.
#[verifier::ext_equal]
pub struct Reading {
    pub deps: Option<Seq<Seq<char>>>,
    pub next: int,
    pub depth: int,
}

/// What is read of a block on a line: a `depends_on`, with the lines that its list goes on over.
pub open spec fn read_body(lines: Seq<Seq<char>>, entry: Entry) -> Reading {
    let i = entry.line;
    let depth = entry.depth;
    match depends_on_value(entry.body) {
        None => Reading { deps: None, next: i + 1, depth },
        Some(value) => if depth > 0 && open_list(value) {
            let rest = list_rest(lines, i);
            let tail = if rest.1 > i {
                behind_bracket(uncommented(text::trim(lines[rest.1])))
            } else {
                Seq::empty()
            };
            Reading {
                deps: Some(string_list(up_to_bracket(value + rest.0))),
                next: rest.1 + 1,
                depth: depth + brace_balance(tail),
            }
        } else {
            Reading { deps: Some(string_list(up_to_bracket(value))), next: i + 1, depth }
        },
    }
}

/// The block that is open: its target, and how many braces deep it is.
pub struct Block {
    pub target: Seq<char>,
    pub depth: int,
}

/// A block, as long as it has not been closed.
pub open spec fn block_at(target: Seq<char>, depth: int) -> Option<Block> {
    if depth > 0 {
        Some(Block { target, depth })
    } else {
        None
    }
}

/// What has been found, with the dependencies of `target` where some have been read.
pub open spec fn with_deps_of(
    found: Map<Seq<char>, Seq<Seq<char>>>,
    target: Seq<char>,
    deps: Option<Seq<Seq<char>>>,
) -> Map<Seq<char>, Seq<Seq<char>>> {
    match deps {
        Some(list) => found.insert(target, list),
        None => found,
    }
}

/// The dependencies that the lines from `i` on state, added to those found before them.
pub open spec fn deps_from(
    lines: Seq<Seq<char>>,
    i: int,
    block: Option<Block>,
    found: Map<Seq<char>, Seq<Seq<char>>>,
) -> Map<Seq<char>, Seq<Seq<char>>>
    decreases lines.len() - i,
{
    if i >= lines.len() {
        found
    } else {
        let line = text::trim(lines[i]);
        proof {
            lemma_list_rest(lines, i);
            lemma_list_rest(lines, opening_line(lines, i));
        }
        match header_name(line) {
            Some(name) => {
                let read = read_body(lines, headed(lines, i));
                deps_from(
                    lines,
                    read.next,
                    block_at(name, read.depth),
                    with_deps_of(found, name, read.deps),
                )
            },
            None => match block {
                None => deps_from(lines, i + 1, None, found),
                Some(b) => {
                    let read = read_body(lines, continued(lines, i, b.depth));
                    deps_from(
                        lines,
                        read.next,
                        block_at(b.target, read.depth),
                        with_deps_of(found, b.target, read.deps),
                    )
                },
            },
        }
    }
}

/// The dependencies that a bake file states: for each target block with a `depends_on`, its
/// last one.
pub open spec fn hcl_dependencies(content: Seq<char>) -> Map<Seq<char>, Seq<Seq<char>>> {
    deps_from(text::lines(content), 0, None, Map::empty())
}

/// A list ends on a line of the file, not before it starts.
pub proof fn lemma_list_rest(lines: Seq<Seq<char>>, i: int)
    requires
        i < lines.len(),
    ensures
        i <= list_rest(lines, i).1 < lines.len(),
    decreases lines.len() - i,
{
    if i + 1 < lines.len() {
        lemma_list_rest(lines, i + 1);
    }
}

/// Reads the lines after the line `from` that belong to a list that is open.
fn read_list_rest(lines: &Vec<&[char]>, from: usize, value: &[char]) -> (r: (Vec<char>, usize))
    requires
        from < lines@.len(),
    ensures
        r.0@ == value@ + list_rest(text::slices(lines@), from as int).0,
        r.1 == list_rest(text::slices(lines@), from as int).1,
        from <= r.1 < lines@.len(),
{
    let ghost all = text::slices(lines@);
    let mut out: Vec<char> = chars_copy(value);
    let mut i: usize = from;
    while i < lines.len() - 1
        invariant
            from <= i < lines@.len(),
            all == text::slices(lines@),
            value@ + list_rest(all, from as int).0 == out@ + list_rest(all, i as int).0,
            list_rest(all, from as int).1 == list_rest(all, i as int).1,
        decreases lines@.len() - i,
    {
        assert(all[i + 1] == lines@[i + 1]@);
        let next = without_comment(trimmed(lines[i + 1]));
        let ghost before = out@;
        add_chars(&mut out, next);
        let ghost rest = list_rest(all, i + 1);
        i += 1;
        if holds_char(next, ']') {
            return (out, i);
        }
        assert(before + (next@ + rest.0) =~= out@ + rest.0);
    }
    assert(out@ + Seq::empty() =~= out@);
    (out, i)
}

fn chars_copy(s: &[char]) -> (r: Vec<char>)
    ensures
        r@ == s@,
{
    let mut r: Vec<char> = Vec::new();
    add_chars(&mut r, s);
    assert(r@ =~= s@);
    r
}

fn add_chars(out: &mut Vec<char>, s: &[char])
    ensures
        final(out)@ == old(out)@ + s@,
{
    let ghost before = out@;
    let mut i: usize = 0;
    assert(before + s@.take(0) =~= before);
    while i < s.len()
        invariant
            i <= s@.len(),
            out@ == before + s@.take(i as int),
        decreases s@.len() - i,
    {
        out.push(s[i]);
        assert(out@ =~= before + s@.take(i + 1));
        i += 1;
    }
    assert(s@.take(i as int) =~= s@);
}

/// The value of `depends_on` that a line sets.
fn depends_on_on(line: &[char]) -> (r: Option<Vec<char>>)
    ensures
        match r {
            Some(v) => depends_on_value(line@) == Some(v@),
            None => depends_on_value(line@) is None,
        },
{
    match strip_lead(line, "depends_on") {
        Some(rest) => {
            let value: &[char] = match strip_lead(trimmed(rest), "=") {
                Some(v) => v,
                None => rest,
            };
            Some(chars_copy(without_comment(trimmed(value))))
        },
        None => None,
    }
}

/// The first place where `c` stands outside of quotes.
fn find_bare(s: &[char], c: char) -> (r: usize)
    ensures
        r == bare_from(s@, c, 0, false),
        r <= s@.len(),
{
    let mut in_quotes: bool = false;
    let mut i: usize = 0;
    while i < s.len()
        invariant
            i <= s@.len(),
            bare_from(s@, c, 0, false) == bare_from(s@, c, i as int, in_quotes),
        decreases s@.len() - i,
    {
        if in_quotes && s[i] == '\\' {
            if i + 1 < s.len() {
                i += 2;
            } else {
                i += 1;
            }
        } else if s[i] == '"' {
            in_quotes = !in_quotes;
            i += 1;
        } else if s[i] == c && !in_quotes {
            return i;
        } else {
            i += 1;
        }
    }
    i
}

/// The last place where `c` stands outside of quotes.
fn find_last_bare(s: &[char], c: char) -> (r: Option<usize>)
    ensures
        match r {
            Some(at) => at == last_bare_from(s@, c, 0, false) && at < s@.len(),
            None => last_bare_from(s@, c, 0, false) < 0,
        },
{
    let mut found: Option<usize> = None;
    let mut in_quotes: bool = false;
    let mut i: usize = 0;
    while i < s.len()
        invariant
            i <= s@.len(),
            found matches Some(at) ==> at < s@.len(),
            ({
                let later = last_bare_from(s@, c, i as int, in_quotes);
                last_bare_from(s@, c, 0, false) == if later >= 0 {
                    later
                } else {
                    match found {
                        Some(at) => at as int,
                        None => later,
                    }
                }
            }),
        decreases s@.len() - i,
    {
        if in_quotes && s[i] == '\\' {
            if i + 1 < s.len() {
                i += 2;
            } else {
                i += 1;
            }
        } else if s[i] == '"' {
            in_quotes = !in_quotes;
            i += 1;
        } else {
            if s[i] == c && !in_quotes {
                found = Some(i);
            }
            i += 1;
        }
    }
    found
}

/// What stands behind the first `c` outside of quotes; nothing where there is none.
fn behind_bare(s: &[char], c: char) -> (r: &[char])
    ensures
        ({
            let at = bare_from(s@, c, 0, false);
            r@ == if at < s@.len() {
                s@.skip(at + 1)
            } else {
                Seq::empty()
            }
        }),
        r@.len() <= s@.len(),
{
    let at: usize = find_bare(s, c);
    if at < s.len() {
        let rest = slice_subrange(s, at + 1, s.len());
        assert(rest@ =~= s@.skip(at + 1));
        rest
    } else {
        let none = slice_subrange(s, 0, 0);
        assert(none@ =~= Seq::empty());
        none
    }
}

fn up_to_close(s: &[char]) -> (r: &[char])
    ensures
        r@ == before_brace(s@),
{
    match find_last_bare(s, '}') {
        Some(at) => {
            let kept = slice_subrange(s, 0, at);
            assert(kept@ =~= s@.take(at as int));
            trimmed(kept)
        },
        None => {
            let none = slice_subrange(s, 0, 0);
            assert(none@ =~= Seq::empty());
            none
        },
    }
}

fn listed_in(value: &[char]) -> (r: Vec<String>)
    ensures
        text::texts(r@) == string_list(up_to_bracket(value@)),
{
    let size: usize = value.len();
    if let Some(at) = find_last_bare(value, ']') {
        let rest = slice_subrange(value, at + 1, size);
        assert(rest@ =~= value@.skip(at + 1));
        if closes_only(rest) {
            let kept = slice_subrange(value, 0, at + 1);
            assert(kept@ =~= value@.take(at + 1));
            return list_items(kept);
        }
    }
    list_items(value)
}

fn closes_only(s: &[char]) -> (r: bool)
    ensures
        r == only_closes(s@),
{
    let mut i: usize = 0;
    while i < s.len()
        invariant
            i <= s@.len(),
            forall|j: int| 0 <= j < i ==> text::white(#[trigger] s@[j]) || s@[j] == '}',
        decreases s@.len() - i,
    {
        if !is_white(s[i]) && s[i] != '}' {
            return false;
        }
        i += 1;
    }
    true
}

/// How many more braces a line opens than it closes.
fn balance_on(line: &[char]) -> (r: i128)
    ensures
        r == brace_balance(line@),
        -(line@.len() as int) <= r <= line@.len(),
{
    let opened: usize = count_char(line, '{');
    let closed: usize = count_char(line, '}');
    opened as i128 - closed as i128
}

/// How many more braces a line opens than it closes, behind the bracket that closes a list.
fn balance_behind(line: &[char]) -> (r: i128)
    ensures
        r == brace_balance(behind_bracket(uncommented(text::trim(line@)))),
        -(line@.len() as int) <= r <= line@.len(),
{
    proof {
        text::lemma_trim_shorter(line@);
    }
    balance_on(behind_bare(without_comment(trimmed(line)), ']'))
}

/// Reads what a line holds of the body of a block: a `depends_on`, with the lines that its list
/// goes on over.
fn read_block(lines: &Vec<&[char]>, i: usize, depth: i128, body: &[char]) -> (r: (
    Option<Vec<String>>,
    usize,
    i128,
))
    requires
        i < lines@.len(),
        text::total_len(text::slices(lines@)) <= usize::MAX,
        -usize::MAX <= depth <= text::total_len(text::slices(lines@).take(i + 1)),
    ensures
        ({
            let read = read_body(
                text::slices(lines@),
                Entry { line: i as int, depth: depth as int, body: body@ },
            );
            &&& match r.0 {
                Some(list) => read.deps == Some(text::texts(list@)),
                None => read.deps is None,
            }
            &&& r.1 == read.next
            &&& r.2 == read.depth
        }),
        i < r.1 <= lines@.len(),
        r.2 <= text::total_len(text::slices(lines@).take(r.1 as int)),
{
    let ghost all = text::slices(lines@);
    let count: usize = lines.len();
    assert(i + 1 <= count);
    let value = match depends_on_on(body) {
        Some(value) => value,
        None => {
            return (None, i + 1, depth);
        },
    };
    let is_open = holds_char(value.as_slice(), '[') && !holds_char(value.as_slice(), ']');
    if depth <= 0 || !is_open {
        return (Some(listed_in(value.as_slice())), i + 1, depth);
    }
    let (whole, last) = read_list_rest(lines, i, value.as_slice());
    let list = listed_in(whole.as_slice());
    if last == i {
        assert(brace_balance(Seq::<char>::empty()) == 0);
        return (Some(list), i + 1, depth);
    }
    assert(all[last as int] == lines@[last as int]@);
    proof {
        lemma_depth_bound(all, i as int, last as int);
    }
    (Some(list), last + 1, depth + balance_behind(lines[last]))
}

/// The characters up to a line and those of a later one are among those up to the later one.
proof fn lemma_depth_bound(all: Seq<Seq<char>>, i: int, last: int)
    requires
        0 <= i < last < all.len(),
    ensures
        text::total_len(all.take(i + 1)) + all[last].len() <= text::total_len(all.take(last + 1)),
        text::total_len(all.take(last + 1)) <= text::total_len(all),
{
    text::lemma_total_grows(all, i + 1, last);
    text::lemma_total_take(all, last);
    text::lemma_total_grows(all, last + 1, all.len() as int);
    assert(all.take(all.len() as int) =~= all);
}

/// The characters of a line are among those up to it, and those among all.
proof fn lemma_line_bound(all: Seq<Seq<char>>, i: int)
    requires
        0 <= i < all.len(),
    ensures
        text::total_len(all.take(i)) + text::trim(all[i]).len() <= text::total_len(all.take(i + 1)),
        text::total_len(all.take(i + 1)) <= text::total_len(all),
{
    text::lemma_trim_shorter(all[i]);
    text::lemma_total_take(all, i);
    text::lemma_total_grows(all, i + 1, all.len() as int);
    assert(all.take(all.len() as int) =~= all);
}

/// Finds where the body of the block starts that the line `i` heads.
fn open_block<'a>(lines: &Vec<&'a [char]>, i: usize) -> (r: (usize, i128, &'a [char]))
    requires
        i < lines@.len(),
        text::total_len(text::slices(lines@)) <= usize::MAX,
    ensures
        (Entry { line: r.0 as int, depth: r.1 as int, body: r.2@ }) == headed(
            text::slices(lines@),
            i as int,
        ),
        i <= r.0 < lines@.len(),
        -usize::MAX <= r.1 <= text::total_len(text::slices(lines@).take(r.0 + 1)),
{
    let ghost all = text::slices(lines@);
    let count: usize = lines.len();
    assert(all[i as int] == lines@[i as int]@);
    proof {
        lemma_line_bound(all, i as int);
    }
    let line = trimmed(lines[i]);
    let mut depth: i128 = balance_on(line);
    let mut at: usize = i;
    let mut opening: &[char] = line;
    if !holds_char(line, '{') && i < count - 1 {
        assert(all[i + 1] == lines@[i + 1]@);
        proof {
            lemma_line_bound(all, i + 1);
        }
        let next = trimmed(lines[i + 1]);
        if begins_with(next, "{") {
            at = i + 1;
            opening = next;
            depth = depth + balance_on(next);
        }
    }
    let rest = behind_bare(without_comment(opening), '{');
    let body: &[char] = if depth > 0 {
        trimmed(rest)
    } else {
        up_to_close(rest)
    };
    (at, depth, body)
}

/// Finds what a line holds of the body of a block that is `depth` deep before it.
fn go_on<'a>(lines: &Vec<&'a [char]>, i: usize, depth: i128) -> (r: (i128, &'a [char]))
    requires
        i < lines@.len(),
        text::total_len(text::slices(lines@)) <= usize::MAX,
        0 <= depth <= text::total_len(text::slices(lines@).take(i as int)),
    ensures
        (Entry { line: i as int, depth: r.0 as int, body: r.1@ }) == continued(
            text::slices(lines@),
            i as int,
            depth as int,
        ),
        -usize::MAX <= r.0 <= text::total_len(text::slices(lines@).take(i + 1)),
{
    let ghost all = text::slices(lines@);
    assert(all[i as int] == lines@[i as int]@);
    proof {
        lemma_line_bound(all, i as int);
    }
    let line = trimmed(lines[i]);
    let after: i128 = depth + balance_on(line);
    let body: &[char] = if after > 0 {
        line
    } else {
        up_to_close(without_comment(line))
    };
    (after, body)
}

/// The target whose block a line heads.
fn headed_target(line: &[char]) -> (r: Option<String>)
    ensures
        match r {
            Some(name) => header_name(line@) == Some(name@),
            None => header_name(line@) is None,
        },
{
    match strip_lead(line, "target ") {
        Some(rest) => leading_quoted(rest),
        None => None,
    }
}

/// Takes up what has been read of the block of a target.
fn note_deps(deps: &mut NameMap<Vec<String>>, target: &String, list: Option<Vec<String>>)
    requires
        old(deps).wf(),
    ensures
        final(deps).wf(),
        names::lists_of(final(deps)@) == with_deps_of(
            names::lists_of(old(deps)@),
            target@,
            match list {
                Some(l) => Some(text::texts(l@)),
                None => None,
            },
        ),
{
    let ghost before = names::lists_of(deps@);
    if let Some(l) = list {
        let ghost stated = text::texts(l@);
        deps.insert(target.clone(), l);
        assert(names::lists_of(deps@) =~= before.insert(target@, stated));
    }
}

/// Reads on from the line `i`, where the block of `target` is `depth` deep, if one is open. Gives
/// the line to go on with.
fn read_on(
    lines: &Vec<&[char]>,
    i: usize,
    target: &mut String,
    depth: &mut i128,
    deps: &mut NameMap<Vec<String>>,
) -> (r: usize)
    requires
        i < lines@.len(),
        text::total_len(text::slices(lines@)) <= usize::MAX,
        0 <= *old(depth) <= text::total_len(text::slices(lines@).take(i as int)),
        old(deps).wf(),
    ensures
        i < r <= lines@.len(),
        0 <= *final(depth) <= text::total_len(text::slices(lines@).take(r as int)),
        final(deps).wf(),
        deps_from(
            text::slices(lines@),
            i as int,
            block_at(old(target)@, *old(depth) as int),
            names::lists_of(old(deps)@),
        ) == deps_from(
            text::slices(lines@),
            r as int,
            block_at(final(target)@, *final(depth) as int),
            names::lists_of(final(deps)@),
        ),
{
    let ghost all = text::slices(lines@);
    let count: usize = lines.len();
    assert(all[i as int] == lines@[i as int]@);
    let header = headed_target(trimmed(lines[i]));
    if header.is_none() && *depth == 0 {
        proof {
            text::lemma_total_grows(all, i as int, i + 1);
        }
        return i + 1;
    }
    let (at, inside, body) = match header {
        Some(name) => {
            *target = name;
            open_block(lines, i)
        },
        None => {
            let (inside, body) = go_on(lines, i, *depth);
            (i, inside, body)
        },
    };
    let (list, next, left) = read_block(lines, at, inside, body);
    note_deps(deps, target, list);
    *depth = if left > 0 {
        left
    } else {
        0
    };
    assert(block_at(target@, *depth as int) == block_at(target@, left as int));
    next
}

/// The dependencies that an HCL bake file states: for each target block with a `depends_on`,
/// such as `depends_on = ["a", "b"]`, on one line or over several, the targets that it lists.
/// The block may stand on one line with its `depends_on`, and its brace on the line after its
/// name.
pub fn parse_hcl_depends_on(content: &str) -> (r: NameMap<Vec<String>>)
    ensures
        r.wf(),
        names::lists_of(r@) == hcl_dependencies(content@),
{
    let chars = chars_of(content);
    let size: usize = chars.len();
    let lines = lines_of(chars.as_slice());
    let ghost all = text::lines(content@);
    let mut deps: NameMap<Vec<String>> = NameMap::new();
    // The target whose block is open, and how many braces deep it is.
    let mut target: String = String::new();
    let mut depth: i128 = 0;
    let mut i: usize = 0;
    proof {
        assert(names::lists_of(deps@) =~= Map::empty());
        text::lemma_lines_total(content@);
        assert(text::total_len(all) <= size);
    }
    while i < lines.len()
        invariant
            i <= lines@.len(),
            all == text::slices(lines@),
            deps.wf(),
            text::total_len(all) <= size,
            0 <= depth <= text::total_len(all.take(i as int)),
            hcl_dependencies(content@) == deps_from(
                all,
                i as int,
                block_at(target@, depth as int),
                names::lists_of(deps@),
            ),
        decreases lines@.len() - i,
    {
        i = read_on(&lines, i, &mut target, &mut depth, &mut deps);
    }
    deps
}

/// Whether a file's dependencies are read as HCL: by its extension, where that tells HCL from
/// YAML, and otherwise because it mentions a target block.
pub open spec fn reads_as_hcl(file: Seq<char>, content: Seq<char>) -> bool {
    let ext = path::extension(file);
    if ext == Some("hcl"@) {
        true
    } else if ext == Some("yml"@) || ext == Some("yaml"@) {
        false
    } else {
        text::occurs(content, "target \""@)
    }
}

/// The dependencies that a file states, where it is read as HCL; none where it is to be read as
/// a compose file.
pub fn hcl_depends_on(file: &str, content: &str) -> (r: Option<NameMap<Vec<String>>>)
    ensures
        match r {
            Some(deps) => reads_as_hcl(file@, content@) && deps.wf() && names::lists_of(deps@)
                == hcl_dependencies(content@),
            None => !reads_as_hcl(file@, content@),
        },
{
    proof {
        reveal_strlit("hcl");
        reveal_strlit("yml");
        reveal_strlit("yaml");
    }
    if let Some(ext) = extension_of(file) {
        if same_text(ext.as_str(), "hcl") {
            return Some(parse_hcl_depends_on(content));
        }
        if same_text(ext.as_str(), "yml") || same_text(ext.as_str(), "yaml") {
            return None;
        }
    }
    if has_piece(chars_of(content).as_slice(), "target \"") {
        Some(parse_hcl_depends_on(content))
    } else {
        None
    }
}

}
