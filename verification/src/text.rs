//! Character-level text handling: the vocabulary in which every other module
//! states what it reads and writes.
use vstd::prelude::*;
use vstd::slice::*;
use vstd::string::*;

verus! {

/// `String::push` appends one character and leaves the rest of the string as
/// it was.
pub assume_specification[ std::string::String::push ](s: &mut std::string::String, c: char)
    ensures
        final(s)@ == old(s)@.push(c),
;

/// The characters of each string of a list.
pub open spec fn texts(v: Seq<String>) -> Seq<Seq<char>> {
    v.map_values(|s: String| s@)
}

/// The contents of a list of borrowed strings.
pub open spec fn strs(v: Seq<&str>) -> Seq<Seq<char>> {
    v.map_values(|s: &str| s@)
}

/// The contents of a list of lists of strings.
pub open spec fn text_lists(v: Seq<Vec<String>>) -> Seq<Seq<Seq<char>>> {
    v.map_values(|l: Vec<String>| texts(l@))
}

/// The characters of each slice of a list.
pub open spec fn slices(v: Seq<&[char]>) -> Seq<Seq<char>> {
    v.map_values(|s: &[char]| s@)
}

pub broadcast proof fn lemma_texts_push(v: Seq<String>, s: String)
    ensures
        #[trigger] texts(v.push(s)) == texts(v).push(s@),
{
    assert(texts(v.push(s)) =~= texts(v).push(s@));
}

pub broadcast proof fn lemma_slices_push<'a>(v: Seq<&'a [char]>, s: &'a [char])
    ensures
        #[trigger] slices(v.push(s)) == slices(v).push(s@),
{
    assert(slices(v.push(s)) =~= slices(v).push(s@));
}

// ---------------------------------------------------------------------------
// Conversions and equality
// ---------------------------------------------------------------------------

/// The characters of `s`, in order.
pub fn chars_of(s: &str) -> (r: Vec<char>)
    ensures
        r@ == s@,
{
    let mut out: Vec<char> = Vec::new();
    for c in it: s.chars()
        invariant
            out@ == it.seq().take(it.index()),
    {
        out.push(c);
    }
    out
}

/// The string made of the characters of `s`.
pub fn string_of(s: &[char]) -> (r: String)
    ensures
        r@ == s@,
{
    let mut out: String = String::new();
    let mut i: usize = 0;
    while i < s.len()
        invariant
            i <= s@.len(),
            out@ == s@.take(i as int),
        decreases s@.len() - i,
    {
        out.push(s[i]);
        i += 1;
    }
    out
}

/// Whether two slices hold the same characters.
pub fn same_chars(a: &[char], b: &[char]) -> (r: bool)
    ensures
        r == (a@ == b@),
{
    if a.len() != b.len() {
        return false;
    }
    let mut i: usize = 0;
    while i < a.len()
        invariant
            i <= a@.len(),
            a@.len() == b@.len(),
            forall|j: int| 0 <= j < i ==> a@[j] == b@[j],
        decreases a@.len() - i,
    {
        if a[i] != b[i] {
            return false;
        }
        i += 1;
    }
    assert(a@ =~= b@);
    true
}

/// Whether two strings hold the same characters.
pub fn same_text(a: &str, b: &str) -> (r: bool)
    ensures
        r == (a@ == b@),
{
    let x: Vec<char> = chars_of(a);
    let y: Vec<char> = chars_of(b);
    same_chars(x.as_slice(), y.as_slice())
}

/// Whether a slice spells `t`.
pub fn spells(s: &[char], t: &str) -> (r: bool)
    ensures
        r == (s@ == t@),
{
    let y: Vec<char> = chars_of(t);
    same_chars(s, y.as_slice())
}

/// Whether `name` is one of `list`.
pub fn lists(list: &[String], name: &str) -> (r: bool)
    ensures
        r == texts(list@).contains(name@),
{
    let mut i: usize = 0;
    while i < list.len()
        invariant
            i <= list@.len(),
            forall|j: int| 0 <= j < i ==> texts(list@)[j] != name@,
        decreases list@.len() - i,
    {
        if same_text(list[i].as_str(), name) {
            assert(texts(list@)[i as int] == name@);
            return true;
        }
        i += 1;
    }
    false
}

/// Appends one string to a list.
pub fn add_text(list: &mut Vec<String>, s: String)
    ensures
        texts(final(list)@) == texts(old(list)@).push(s@),
        final(list)@ == old(list)@.push(s),
{
    proof {
        lemma_texts_push(list@, s);
    }
    list.push(s);
}

/// Appends the strings of one list to another.
pub fn add_texts(list: &mut Vec<String>, more: &[String])
    ensures
        texts(final(list)@) == texts(old(list)@) + texts(more@),
{
    let ghost before = texts(list@);
    let ghost all = texts(more@);
    let mut i: usize = 0;
    assert(before + all.take(0) =~= before);
    while i < more.len()
        invariant
            i <= more@.len(),
            all == texts(more@),
            texts(list@) == before + all.take(i as int),
        decreases more@.len() - i,
    {
        assert(all[i as int] == more@[i as int]@);
        add_text(list, more[i].clone());
        assert(texts(list@) =~= before + all.take(i + 1));
        i += 1;
    }
    assert(all.take(i as int) =~= all);
}

/// A copy of a list of strings.
pub fn copy_texts(list: &[String]) -> (r: Vec<String>)
    ensures
        texts(r@) == texts(list@),
{
    let mut out: Vec<String> = Vec::new();
    let mut i: usize = 0;
    while i < list.len()
        invariant
            i <= list@.len(),
            texts(out@) == texts(list@).take(i as int),
        decreases list@.len() - i,
    {
        let s: String = list[i].clone();
        assert(s@ == texts(list@)[i as int]);
        add_text(&mut out, s);
        assert(texts(out@) =~= texts(list@).take(i + 1));
        i += 1;
    }
    assert(texts(list@).take(i as int) =~= texts(list@));
    out
}

// ---------------------------------------------------------------------------
// White space
// ---------------------------------------------------------------------------

/// The characters with the Unicode property `White_Space`.
pub open spec fn white(c: char) -> bool {
    let n: int = c as int;
    ||| 0x9 <= n <= 0xd
    ||| n == 0x20
    ||| n == 0x85
    ||| n == 0xa0
    ||| n == 0x1680
    ||| 0x2000 <= n <= 0x200a
    ||| n == 0x2028
    ||| n == 0x2029
    ||| n == 0x202f
    ||| n == 0x205f
    ||| n == 0x3000
}

/// Whether `c` has the Unicode property `White_Space`.
pub fn is_white(c: char) -> (r: bool)
    ensures
        r == white(c),
{
    let n: u32 = c as u32;
    (0x9 <= n && n <= 0xd) || n == 0x20 || n == 0x85 || n == 0xa0 || n == 0x1680 || (0x2000 <= n
        && n <= 0x200a) || n == 0x2028 || n == 0x2029 || n == 0x202f || n == 0x205f || n == 0x3000
}

/// `s` without its leading white space.
pub open spec fn trim_start(s: Seq<char>) -> Seq<char>
    decreases s.len(),
{
    if s.len() > 0 && white(s[0]) {
        trim_start(s.skip(1))
    } else {
        s
    }
}

/// `s` without its trailing white space.
pub open spec fn trim_end(s: Seq<char>) -> Seq<char>
    decreases s.len(),
{
    if s.len() > 0 && white(s.last()) {
        trim_end(s.drop_last())
    } else {
        s
    }
}

/// `s` without white space at either end.
pub open spec fn trim(s: Seq<char>) -> Seq<char> {
    trim_end(trim_start(s))
}

/// `s` without its leading white space.
pub fn trimmed_start(s: &[char]) -> (r: &[char])
    ensures
        r@ == trim_start(s@),
{
    let mut i: usize = 0;
    assert(s@.skip(0) =~= s@);
    while i < s.len() && is_white(s[i])
        invariant
            i <= s@.len(),
            trim_start(s@) == trim_start(s@.skip(i as int)),
        decreases s@.len() - i,
    {
        assert(s@.skip(i as int).skip(1) =~= s@.skip(i + 1));
        i += 1;
    }
    assert(s@.skip(i as int) =~= s@.subrange(i as int, s@.len() as int));
    slice_subrange(s, i, s.len())
}

/// `s` without its trailing white space.
pub fn trimmed_end(s: &[char]) -> (r: &[char])
    ensures
        r@ == trim_end(s@),
{
    let mut n: usize = s.len();
    assert(s@.take(n as int) =~= s@);
    while n > 0 && is_white(s[n - 1])
        invariant
            n <= s@.len(),
            trim_end(s@) == trim_end(s@.take(n as int)),
        decreases n,
    {
        assert(s@.take(n as int).drop_last() =~= s@.take(n - 1));
        n -= 1;
    }
    assert(s@.take(n as int) =~= s@.subrange(0, n as int));
    slice_subrange(s, 0, n)
}

/// `s` without white space at either end.
pub fn trimmed(s: &[char]) -> (r: &[char])
    ensures
        r@ == trim(s@),
{
    trimmed_end(trimmed_start(s))
}

/// A text without white space at its ends is trimmed already.
pub proof fn lemma_trim_fixed(s: Seq<char>)
    requires
        s.len() > 0 ==> !white(s[0]) && !white(s.last()),
    ensures
        trim(s) == s,
        trim_end(s) == s,
        trim_start(s) == s,
{
}

/// White space before a text is trimmed with its own.
pub proof fn lemma_trim_gap(gap: Seq<char>, s: Seq<char>)
    requires
        forall|i: int| 0 <= i < gap.len() ==> white(#[trigger] gap[i]),
    ensures
        trim_start(gap + s) == trim_start(s),
        trim(gap + s) == trim(s),
    decreases gap.len(),
{
    if gap.len() > 0 {
        assert((gap + s)[0] == gap[0]);
        assert((gap + s).skip(1) =~= gap.skip(1) + s);
        lemma_trim_gap(gap.skip(1), s);
    } else {
        assert(gap + s =~= s);
    }
}

/// White space behind a text is trimmed with its own.
pub proof fn lemma_trim_end_gap(s: Seq<char>, gap: Seq<char>)
    requires
        forall|i: int| 0 <= i < gap.len() ==> white(#[trigger] gap[i]),
    ensures
        trim_end(s + gap) == trim_end(s),
    decreases gap.len(),
{
    if gap.len() > 0 {
        assert((s + gap).last() == gap.last());
        assert(white(gap[gap.len() - 1]));
        assert((s + gap).drop_last() =~= s + gap.drop_last());
        lemma_trim_end_gap(s, gap.drop_last());
    } else {
        assert(s + gap =~= s);
    }
}

/// What is left after trimming has no white space at its ends, and is a piece of the text.
pub proof fn lemma_trim_edges(s: Seq<char>)
    ensures
        trim(s).len() > 0 ==> !white(trim(s)[0]) && !white(trim(s).last()),
        trim_start(s).len() > 0 ==> !white(trim_start(s)[0]),
        exists|i: int| 0 <= i <= s.len() && trim_start(s) == s.skip(i),
    decreases s.len(),
{
    if s.len() > 0 && white(s[0]) {
        lemma_trim_edges(s.skip(1));
        let i: int = choose|i: int| 0 <= i <= s.skip(1).len() && trim_start(s.skip(1)) == s.skip(
            1,
        ).skip(i);
        assert(s.skip(1).skip(i) =~= s.skip(i + 1));
    } else {
        assert(s.skip(0) =~= s);
        lemma_trim_end_prefix(s);
    }
}

/// Trimming keeps nothing but a piece of the text.
pub proof fn lemma_trim_end_prefix(s: Seq<char>)
    ensures
        trim_end(s).is_prefix_of(s),
        trim_end(s).len() > 0 ==> !white(trim_end(s).last()),
    decreases s.len(),
{
    if s.len() > 0 && white(s.last()) {
        lemma_trim_end_prefix(s.drop_last());
        assert(trim_end(s).is_prefix_of(s));
    }
}

// ---------------------------------------------------------------------------
// Searching and splitting
// ---------------------------------------------------------------------------

/// The place of the first `c` in `s`, or the length of `s` where there is none.
pub open spec fn first_index(s: Seq<char>, c: char) -> nat
    decreases s.len(),
{
    if s.len() == 0 || s[0] == c {
        0
    } else {
        1 + first_index(s.skip(1), c)
    }
}

/// The place of the last `c` in `s`, or -1 where there is none.
pub open spec fn last_index(s: Seq<char>, c: char) -> int
    decreases s.len(),
{
    if s.len() == 0 {
        -1
    } else if s.last() == c {
        s.len() - 1
    } else {
        last_index(s.drop_last(), c)
    }
}

pub proof fn lemma_first_index(s: Seq<char>, c: char, i: int)
    requires
        0 <= i <= s.len(),
        forall|j: int| 0 <= j < i ==> s[j] != c,
        i < s.len() ==> s[i] == c,
    ensures
        first_index(s, c) == i,
    decreases i,
{
    if i > 0 {
        assert(s[0] != c);
        lemma_first_index(s.skip(1), c, i - 1);
    }
}

pub proof fn lemma_first_index_meaning(s: Seq<char>, c: char)
    ensures
        first_index(s, c) <= s.len(),
        forall|j: int| 0 <= j < first_index(s, c) ==> s[j] != c,
        first_index(s, c) < s.len() ==> s[first_index(s, c) as int] == c,
    decreases s.len(),
{
    if s.len() > 0 && s[0] != c {
        let t = s.skip(1);
        lemma_first_index_meaning(t, c);
        assert forall|j: int| 0 <= j < first_index(s, c) implies s[j] != c by {
            if j > 0 {
                assert(s[j] == t[j - 1]);
            }
        }
    }
}

pub proof fn lemma_last_index_meaning(s: Seq<char>, c: char)
    ensures
        -1 <= last_index(s, c) < s.len(),
        forall|j: int| last_index(s, c) < j < s.len() ==> s[j] != c,
        last_index(s, c) >= 0 ==> s[last_index(s, c)] == c,
    decreases s.len(),
{
    if s.len() > 0 && s.last() != c {
        let t = s.drop_last();
        lemma_last_index_meaning(t, c);
        assert forall|j: int| last_index(s, c) < j < s.len() implies s[j] != c by {
            if j < t.len() {
                assert(s[j] == t[j]);
            }
        }
    }
}

/// The place of the first `c`, or the length of `s` where there is none.
pub fn find_char(s: &[char], c: char) -> (r: usize)
    ensures
        r == first_index(s@, c),
        r <= s@.len(),
        r < s@.len() ==> s@[r as int] == c,
{
    let mut i: usize = 0;
    while i < s.len() && s[i] != c
        invariant
            i <= s@.len(),
            forall|j: int| 0 <= j < i ==> s@[j] != c,
        decreases s@.len() - i,
    {
        i += 1;
    }
    proof {
        lemma_first_index(s@, c, i as int);
    }
    i
}

/// Whether `s` holds the character `c`.
pub fn holds_char(s: &[char], c: char) -> (r: bool)
    ensures
        r == s@.contains(c),
{
    let i: usize = find_char(s, c);
    proof {
        lemma_first_index_meaning(s@, c);
    }
    i < s.len()
}

/// What stands before and after the first `c`, where there is one.
pub open spec fn split_once(s: Seq<char>, c: char) -> Option<(Seq<char>, Seq<char>)> {
    let i: int = first_index(s, c) as int;
    if i < s.len() {
        Some((s.take(i), s.skip(i + 1)))
    } else {
        None
    }
}

/// What stands before and after the last `c`, where there is one.
pub open spec fn rsplit_once(s: Seq<char>, c: char) -> Option<(Seq<char>, Seq<char>)> {
    let i: int = last_index(s, c);
    if i >= 0 {
        Some((s.take(i), s.skip(i + 1)))
    } else {
        None
    }
}

/// What stands before and after the first `c`, where there is one.
pub fn cut_at<'a>(s: &'a [char], c: char) -> (r: Option<(&'a [char], &'a [char])>)
    ensures
        match r {
            Some((a, b)) => split_once(s@, c) == Some((a@, b@)),
            None => split_once(s@, c) is None,
        },
{
    let i: usize = find_char(s, c);
    if i < s.len() {
        let a: &'a [char] = slice_subrange(s, 0, i);
        let b: &'a [char] = slice_subrange(s, i + 1, s.len());
        assert(a@ =~= s@.take(i as int));
        assert(b@ =~= s@.skip(i + 1));
        Some((a, b))
    } else {
        None
    }
}

/// What stands before and after the last `c`, where there is one.
pub fn cut_at_last<'a>(s: &'a [char], c: char) -> (r: Option<(&'a [char], &'a [char])>)
    ensures
        match r {
            Some((a, b)) => rsplit_once(s@, c) == Some((a@, b@)),
            None => rsplit_once(s@, c) is None,
        },
{
    let mut n: usize = s.len();
    assert(s@.take(n as int) =~= s@);
    while n > 0 && s[n - 1] != c
        invariant
            n <= s@.len(),
            last_index(s@, c) == last_index(s@.take(n as int), c),
        decreases n,
    {
        assert(s@.take(n as int).drop_last() =~= s@.take(n - 1));
        n -= 1;
    }
    if n > 0 {
        let a: &'a [char] = slice_subrange(s, 0, n - 1);
        let b: &'a [char] = slice_subrange(s, n, s.len());
        assert(a@ =~= s@.take(n - 1));
        assert(b@ =~= s@.skip(n as int));
        Some((a, b))
    } else {
        None
    }
}

/// The pieces of `s` between the occurrences of `c`.
pub open spec fn split(s: Seq<char>, c: char) -> Seq<Seq<char>>
    decreases s.len(),
{
    let i: int = first_index(s, c) as int;
    if i < s.len() {
        seq![s.take(i)] + split(s.skip(i + 1), c)
    } else {
        seq![s]
    }
}

/// The pieces of `s` between the occurrences of `c`.
pub fn pieces<'a>(s: &'a [char], c: char) -> (r: Vec<&'a [char]>)
    ensures
        slices(r@) == split(s@, c),
{
    broadcast use lemma_slices_push;

    let mut out: Vec<&'a [char]> = Vec::new();
    let mut rest: &'a [char] = s;
    assert(slices(out@) =~= Seq::<Seq<char>>::empty());
    assert(slices(out@) + split(rest@, c) =~= split(s@, c));
    loop
        invariant_except_break
            slices(out@) + split(rest@, c) == split(s@, c),
        ensures
            slices(out@) == split(s@, c),
        decreases rest@.len(),
    {
        let i: usize = find_char(rest, c);
        if i < rest.len() {
            let head: &'a [char] = slice_subrange(rest, 0, i);
            let tail: &'a [char] = slice_subrange(rest, i + 1, rest.len());
            assert(head@ =~= rest@.take(i as int));
            assert(tail@ =~= rest@.skip(i + 1));
            out.push(head);
            assert(slices(out@) + split(tail@, c) =~= split(s@, c));
            rest = tail;
        } else {
            out.push(rest);
            assert(slices(out@) =~= split(s@, c));
            break;
        }
    }
    out
}

/// A line without the carriage return of a `\r\n` line ending.
pub open spec fn without_cr(s: Seq<char>) -> Seq<char> {
    if s.len() > 0 && s.last() == '\r' {
        s.drop_last()
    } else {
        s
    }
}

/// The lines of `s`: each ends with `\n` or `\r\n`, which are left out; the
/// last may lack its ending.
pub open spec fn lines(s: Seq<char>) -> Seq<Seq<char>>
    decreases s.len(),
{
    let i: int = first_index(s, '\n') as int;
    if s.len() == 0 {
        seq![]
    } else if i < s.len() {
        seq![without_cr(s.take(i))] + lines(s.skip(i + 1))
    } else {
        seq![s]
    }
}

/// The lines of `s`, without their endings.
pub fn lines_of<'a>(s: &'a [char]) -> (r: Vec<&'a [char]>)
    ensures
        slices(r@) == lines(s@),
{
    broadcast use lemma_slices_push;

    let mut out: Vec<&'a [char]> = Vec::new();
    let mut rest: &'a [char] = s;
    assert(slices(out@) =~= Seq::<Seq<char>>::empty());
    assert(slices(out@) + lines(rest@) =~= lines(s@));
    while rest.len() > 0
        invariant
            slices(out@) + lines(rest@) == lines(s@),
        decreases rest@.len(),
    {
        let i: usize = find_char(rest, '\n');
        if i < rest.len() {
            let n: usize = if i > 0 && rest[i - 1] == '\r' {
                i - 1
            } else {
                i
            };
            let head: &'a [char] = slice_subrange(rest, 0, n);
            let tail: &'a [char] = slice_subrange(rest, i + 1, rest.len());
            assert(head@ =~= without_cr(rest@.take(i as int)));
            assert(tail@ =~= rest@.skip(i + 1));
            out.push(head);
            assert(slices(out@) + lines(tail@) =~= lines(s@));
            rest = tail;
        } else {
            let tail: &'a [char] = slice_subrange(rest, rest.len(), rest.len());
            out.push(rest);
            assert(slices(out@) + lines(tail@) =~= lines(s@));
            rest = tail;
        }
    }
    assert(slices(out@) =~= lines(s@));
    out
}

/// Whether `s` begins with `p`.
pub fn begins_with(s: &[char], p: &str) -> (r: bool)
    ensures
        r == p@.is_prefix_of(s@),
{
    let q: Vec<char> = chars_of(p);
    if q.len() > s.len() {
        return false;
    }
    let mut i: usize = 0;
    while i < q.len()
        invariant
            i <= q@.len(),
            q@ == p@,
            q@.len() <= s@.len(),
            forall|j: int| 0 <= j < i ==> q@[j] == s@[j],
        decreases q@.len() - i,
    {
        if q[i] != s[i] {
            assert(s@.subrange(0, p@.len() as int)[i as int] == s@[i as int]);
            return false;
        }
        i += 1;
    }
    assert(s@.subrange(0, p@.len() as int) =~= p@);
    true
}

/// What follows `p` in `s`, where `s` begins with `p`.
pub open spec fn after_prefix(s: Seq<char>, p: Seq<char>) -> Option<Seq<char>> {
    if p.is_prefix_of(s) {
        Some(s.skip(p.len() as int))
    } else {
        None
    }
}

/// What follows `p` in `s`, where `s` begins with `p`.
pub fn strip_lead<'a>(s: &'a [char], p: &str) -> (r: Option<&'a [char]>)
    ensures
        match r {
            Some(t) => after_prefix(s@, p@) == Some(t@),
            None => after_prefix(s@, p@) is None,
        },
{
    if begins_with(s, p) {
        let q: Vec<char> = chars_of(p);
        let t: &'a [char] = slice_subrange(s, q.len(), s.len());
        assert(t@ =~= s@.skip(p@.len() as int));
        Some(t)
    } else {
        None
    }
}

/// How often `c` occurs in `s`.
pub open spec fn occurrences(s: Seq<char>, c: char) -> nat
    decreases s.len(),
{
    if s.len() == 0 {
        0
    } else {
        occurrences(s.drop_last(), c) + if s.last() == c {
            1nat
        } else {
            0nat
        }
    }
}

/// What one more character adds to a count.
pub proof fn lemma_occurrences_take(s: Seq<char>, c: char, i: int)
    requires
        0 <= i < s.len(),
    ensures
        occurrences(s.take(i + 1), c) == occurrences(s.take(i), c) + if s[i] == c {
            1nat
        } else {
            0nat
        },
{
    assert(s.take(i + 1).drop_last() =~= s.take(i));
}

/// What two texts together hold of a character.
pub proof fn lemma_occurrences_add(a: Seq<char>, b: Seq<char>, c: char)
    ensures
        occurrences(a + b, c) == occurrences(a, c) + occurrences(b, c),
    decreases b.len(),
{
    if b.len() == 0 {
        assert(a + b =~= a);
    } else {
        assert((a + b).drop_last() =~= a + b.drop_last());
        lemma_occurrences_add(a, b.drop_last(), c);
    }
}

/// A character that a text does not hold does not occur in it.
pub proof fn lemma_occurrences_none(s: Seq<char>, c: char)
    ensures
        occurrences(s, c) == 0 <==> !s.contains(c),
    decreases s.len(),
{
    if s.len() > 0 {
        lemma_occurrences_none(s.drop_last(), c);
        if s.drop_last().contains(c) {
            let i: int = choose|i: int| 0 <= i < s.drop_last().len() && s.drop_last()[i] == c;
            assert(s[i] == c);
        }
        if s.contains(c) && s.last() != c {
            let i: int = choose|i: int| 0 <= i < s.len() && s[i] == c;
            assert(s.drop_last()[i] == c);
        }
        assert(s.last() == c ==> s.contains(c));
    }
}

/// How often `c` occurs in `s`.
pub fn count_char(s: &[char], c: char) -> (r: usize)
    ensures
        r == occurrences(s@, c),
        r <= s@.len(),
{
    let mut i: usize = 0;
    let mut n: usize = 0;
    while i < s.len()
        invariant
            i <= s@.len(),
            n <= i,
            n == occurrences(s@.take(i as int), c),
        decreases s@.len() - i,
    {
        assert(s@.take(i + 1).drop_last() =~= s@.take(i as int));
        if s[i] == c {
            n += 1;
        }
        i += 1;
    }
    assert(s@.take(i as int) =~= s@);
    n
}

/// Whether `p` stands in `s` at the place `i`.
pub open spec fn occurs_at(s: Seq<char>, p: Seq<char>, i: int) -> bool {
    0 <= i && i + p.len() <= s.len() && s.subrange(i, i + p.len()) == p
}

/// Whether `p` stands anywhere in `s`.
pub open spec fn occurs(s: Seq<char>, p: Seq<char>) -> bool {
    exists|i: int| occurs_at(s, p, i)
}

/// A text between two others stands in them.
pub proof fn lemma_occurs_between(a: Seq<char>, p: Seq<char>, b: Seq<char>)
    ensures
        occurs(a + p + b, p),
{
    assert((a + p + b).subrange(a.len() as int, a.len() as int + p.len()) =~= p);
    assert(occurs_at(a + p + b, p, a.len() as int));
}

/// What stands in a text stands in it with another one before it.
pub proof fn lemma_occurs_later(a: Seq<char>, b: Seq<char>, p: Seq<char>)
    requires
        occurs(b, p),
    ensures
        occurs(a + b, p),
{
    let i: int = choose|i: int| occurs_at(b, p, i);
    assert((a + b).subrange(a.len() + i, a.len() + i + p.len()) =~= b.subrange(i, i + p.len()));
    assert(occurs_at(a + b, p, a.len() + i));
}

/// What stands in a text stands in it with another one behind it.
pub proof fn lemma_occurs_earlier(a: Seq<char>, b: Seq<char>, p: Seq<char>)
    requires
        occurs(a, p),
    ensures
        occurs(a + b, p),
{
    let i: int = choose|i: int| occurs_at(a, p, i);
    assert((a + b).subrange(i, i + p.len()) =~= a.subrange(i, i + p.len()));
    assert(occurs_at(a + b, p, i));
}

/// What stands in a part of a text stands in the text.
pub proof fn lemma_occurs_through(s: Seq<char>, part: Seq<char>, p: Seq<char>)
    requires
        occurs(s, part),
        occurs(part, p),
    ensures
        occurs(s, p),
{
    let i: int = choose|i: int| occurs_at(s, part, i);
    let j: int = choose|j: int| occurs_at(part, p, j);
    assert(s.subrange(i + j, i + j + p.len()) =~= part.subrange(j, j + p.len()));
    assert(occurs_at(s, p, i + j));
}

/// The last place where `p` stands in `s`, or -1 where there is none.
pub open spec fn last_occurrence(s: Seq<char>, p: Seq<char>) -> int {
    last_occurrence_from(s, p, s.len() as int)
}

/// The last place, no later than `i`, where `p` stands in `s`, or -1.
pub open spec fn last_occurrence_from(s: Seq<char>, p: Seq<char>, i: int) -> int
    decreases i + 1,
{
    if i < 0 {
        -1
    } else if occurs_at(s, p, i) {
        i
    } else {
        last_occurrence_from(s, p, i - 1)
    }
}

pub proof fn lemma_last_occurrence(s: Seq<char>, p: Seq<char>, i: int, at: int)
    requires
        -1 <= at <= i,
        at >= 0 ==> occurs_at(s, p, at),
        forall|j: int| at < j <= i ==> !occurs_at(s, p, j),
    ensures
        last_occurrence_from(s, p, i) == at,
    decreases i + 1,
{
    if i >= 0 && i != at {
        assert(!occurs_at(s, p, i));
        lemma_last_occurrence(s, p, i - 1, at);
    }
}

/// Whether `p` stands in `s` at the place `i`.
fn stands_at(s: &[char], p: &[char], i: usize) -> (r: bool)
    requires
        i <= s@.len(),
    ensures
        r == occurs_at(s@, p@, i as int),
{
    if p.len() > s.len() - i {
        return false;
    }
    let t: &[char] = slice_subrange(s, i, i + p.len());
    same_chars(t, p)
}

/// Whether `p` stands anywhere in `s`.
pub fn has_piece(s: &[char], p: &str) -> (r: bool)
    ensures
        r == occurs(s@, p@),
{
    let q: Vec<char> = chars_of(p);
    let mut i: usize = 0;
    while i < s.len()
        invariant
            i <= s@.len(),
            q@ == p@,
            forall|j: int| 0 <= j < i ==> !occurs_at(s@, p@, j),
        decreases s@.len() - i,
    {
        if stands_at(s, q.as_slice(), i) {
            return true;
        }
        i += 1;
    }
    stands_at(s, q.as_slice(), i)
}

/// The last place where `p` stands in `s`.
pub fn last_piece(s: &[char], p: &str) -> (r: Option<usize>)
    ensures
        match r {
            Some(i) => last_occurrence(s@, p@) == i && occurs_at(s@, p@, i as int),
            None => last_occurrence(s@, p@) == -1,
        },
{
    let q: Vec<char> = chars_of(p);
    let mut i: usize = s.len();
    loop
        invariant
            i <= s@.len(),
            q@ == p@,
            last_occurrence(s@, p@) == last_occurrence_from(s@, p@, i as int),
        decreases i,
    {
        if stands_at(s, q.as_slice(), i) {
            return Some(i);
        }
        if i == 0 {
            assert(last_occurrence_from(s@, p@, -1) == -1);
            return None;
        }
        i -= 1;
    }
}

// ---------------------------------------------------------------------------
// Joining
// ---------------------------------------------------------------------------

/// The pieces of `parts` with `sep` between them.
pub open spec fn join(parts: Seq<Seq<char>>, sep: Seq<char>) -> Seq<char>
    decreases parts.len(),
{
    if parts.len() == 0 {
        seq![]
    } else if parts.len() == 1 {
        parts[0]
    } else {
        join(parts.drop_last(), sep) + sep + parts.last()
    }
}

/// Each piece stands in what the pieces are joined to.
pub proof fn lemma_join_holds(parts: Seq<Seq<char>>, sep: Seq<char>, i: int)
    requires
        0 <= i < parts.len(),
    ensures
        occurs(join(parts, sep), parts[i]),
    decreases parts.len(),
{
    if parts.len() == 1 {
        let e = Seq::<char>::empty();
        lemma_occurs_between(e, parts[0], e);
        assert(e + parts[0] + e =~= parts[0]);
    } else if i == parts.len() - 1 {
        let head = join(parts.drop_last(), sep) + sep;
        let e = Seq::<char>::empty();
        lemma_occurs_between(head, parts.last(), e);
        assert(head + parts.last() + e =~= join(parts, sep));
    } else {
        lemma_join_holds(parts.drop_last(), sep, i);
        let head = join(parts.drop_last(), sep);
        lemma_occurs_earlier(head, sep + parts.last(), parts[i]);
        assert(head + (sep + parts.last()) =~= join(parts, sep));
    }
}

/// The strings of `parts` with `sep` between them.
pub fn joined(parts: &[String], sep: &str) -> (r: String)
    ensures
        r@ == join(texts(parts@), sep@),
{
    let mut out: String = String::new();
    let mut i: usize = 0;
    assert(texts(parts@).take(0) =~= Seq::<Seq<char>>::empty());
    while i < parts.len()
        invariant
            i <= parts@.len(),
            out@ == join(texts(parts@).take(i as int), sep@),
        decreases parts@.len() - i,
    {
        let ghost now = texts(parts@).take(i + 1);
        assert(now.drop_last() =~= texts(parts@).take(i as int));
        if i > 0 {
            out.append(sep);
        }
        out.append(parts[i].as_str());
        assert(out@ =~= join(now, sep@));
        i += 1;
    }
    assert(texts(parts@).take(i as int) =~= texts(parts@));
    out
}

// ---------------------------------------------------------------------------
// Numbers
// ---------------------------------------------------------------------------

/// The decimal digit for `d`.
pub open spec fn digit(d: nat) -> char {
    if d == 0 {
        '0'
    } else if d == 1 {
        '1'
    } else if d == 2 {
        '2'
    } else if d == 3 {
        '3'
    } else if d == 4 {
        '4'
    } else if d == 5 {
        '5'
    } else if d == 6 {
        '6'
    } else if d == 7 {
        '7'
    } else if d == 8 {
        '8'
    } else {
        '9'
    }
}

/// `n` in decimal, without leading zeros.
pub open spec fn decimal(n: nat) -> Seq<char>
    decreases n,
{
    if n < 10 {
        seq![digit(n)]
    } else {
        decimal(n / 10).push(digit(n % 10))
    }
}

/// Whether `c` is an ASCII digit.
pub open spec fn is_digit(c: char) -> bool {
    '0' as int <= c as int <= '9' as int
}

/// The number that a run of digits stands for.
pub open spec fn digits_value(s: Seq<char>) -> nat
    decreases s.len(),
{
    if s.len() == 0 {
        0
    } else {
        (10 * digits_value(s.drop_last()) + (s.last() as int - '0' as int)) as nat
    }
}

/// Whether `s` is a run of one or more digits.
pub open spec fn all_digits(s: Seq<char>) -> bool {
    s.len() > 0 && forall|i: int| 0 <= i < s.len() ==> is_digit(#[trigger] s[i])
}

/// The digits of a number, without a leading plus sign.
pub open spec fn unsigned_body(s: Seq<char>) -> Seq<char> {
    if s.len() > 0 && s[0] == '+' {
        s.skip(1)
    } else {
        s
    }
}

/// The 32-bit number that `s` spells: an optional plus sign and digits.
pub open spec fn parse_u32(s: Seq<char>) -> Option<u32> {
    let body = unsigned_body(s);
    if all_digits(body) && digits_value(body) <= u32::MAX {
        Some(digits_value(body) as u32)
    } else {
        None
    }
}

fn digit_char(d: u64) -> (r: char)
    requires
        d < 10,
    ensures
        r == digit(d as nat),
{
    match d {
        0 => '0',
        1 => '1',
        2 => '2',
        3 => '3',
        4 => '4',
        5 => '5',
        6 => '6',
        7 => '7',
        8 => '8',
        _ => '9',
    }
}

/// `n` in decimal.
pub fn decimal_of(n: u64) -> (r: String)
    ensures
        r@ == decimal(n as nat),
    decreases n,
{
    if n < 10 {
        let mut out: String = String::new();
        out.push(digit_char(n));
        assert(out@ =~= decimal(n as nat));
        out
    } else {
        let mut out: String = decimal_of(n / 10);
        out.push(digit_char(n % 10));
        out
    }
}

/// The 32-bit number that `s` spells.
pub fn read_u32(s: &[char]) -> (r: Option<u32>)
    ensures
        r == parse_u32(s@),
{
    let body: &[char] = if s.len() > 0 && s[0] == '+' {
        let t: &[char] = slice_subrange(s, 1, s.len());
        assert(t@ =~= s@.skip(1));
        t
    } else {
        s
    };
    if body.len() == 0 {
        return None;
    }
    let mut i: usize = 0;
    let mut acc: u64 = 0;
    let mut over: bool = false;
    while i < body.len()
        invariant
            i <= body@.len(),
            body@ == unsigned_body(s@),
            body@.len() > 0,
            forall|j: int| 0 <= j < i ==> is_digit(#[trigger] body@[j]),
            acc <= u32::MAX,
            !over ==> acc == digits_value(body@.take(i as int)),
            over ==> digits_value(body@.take(i as int)) > u32::MAX,
        decreases body@.len() - i,
    {
        let c: char = body[i];
        if !('0' <= c && c <= '9') {
            assert(!is_digit(body@[i as int]));
            return None;
        }
        assert(body@.take(i + 1).drop_last() =~= body@.take(i as int));
        if !over {
            let next: u64 = acc * 10 + (c as u32 - '0' as u32) as u64;
            if next > 0xffff_ffff {
                over = true;
            } else {
                acc = next;
            }
        }
        i += 1;
    }
    assert(body@.take(i as int) =~= body@);
    if over {
        None
    } else {
        Some(acc as u32)
    }
}

/// Reading back a number that was written in decimal gives the number.
pub proof fn lemma_decimal_reads_back(n: nat)
    ensures
        all_digits(decimal(n)),
        digits_value(decimal(n)) == n,
    decreases n,
{
    if n >= 10 {
        lemma_decimal_reads_back(n / 10);
        let d = decimal(n / 10);
        assert(decimal(n).drop_last() =~= d);
    } else {
        assert(decimal(n).drop_last() =~= seq![]);
        assert(digits_value(seq![]) == 0);
    }
}

/// A number written out is read as that number.
pub proof fn lemma_decimal_parses(n: u32)
    ensures
        parse_u32(decimal(n as nat)) == Some(n),
{
    lemma_decimal_reads_back(n as nat);
    let d = decimal(n as nat);
    assert(is_digit(d[0]));
}

/// Different numbers are written differently.
pub proof fn lemma_decimal_injective(m: nat, n: nat)
    requires
        decimal(m) == decimal(n),
    ensures
        m == n,
{
    lemma_decimal_reads_back(m);
    lemma_decimal_reads_back(n);
}

/// The number of bytes that a character takes in UTF-8.
pub open spec fn utf8_width(c: char) -> nat {
    if (c as int) < 0x80 {
        1
    } else if (c as int) < 0x800 {
        2
    } else if (c as int) < 0x10000 {
        3
    } else {
        4
    }
}

/// The number of bytes that a text takes in UTF-8.
pub open spec fn byte_len(s: Seq<char>) -> nat
    decreases s.len(),
{
    if s.len() == 0 {
        0
    } else {
        byte_len(s.drop_last()) + utf8_width(s.last())
    }
}

fn width_of(c: char) -> (r: u128)
    ensures
        r == utf8_width(c),
        r <= 4,
{
    let point: u32 = c as u32;
    if point < 0x80 {
        1
    } else if point < 0x800 {
        2
    } else if point < 0x10000 {
        3
    } else {
        4
    }
}

/// The number of bytes that a text takes in UTF-8.
pub fn count_bytes(s: &[char]) -> (r: u128)
    ensures
        r == byte_len(s@),
{
    let mut n: u128 = 0;
    let mut i: usize = 0;
    assert(s@.take(0).len() == 0);
    while i < s.len()
        invariant
            i <= s@.len(),
            n == byte_len(s@.take(i as int)),
            n <= 4 * i,
        decreases s@.len() - i,
    {
        assert(s@.take(i + 1).drop_last() =~= s@.take(i as int));
        n = n + width_of(s[i]);
        i += 1;
    }
    assert(s@.take(i as int) =~= s@);
    n
}

/// The number of characters of some texts together.
pub open spec fn total_len(s: Seq<Seq<char>>) -> nat
    decreases s.len(),
{
    if s.len() == 0 {
        0
    } else {
        total_len(s.drop_last()) + s.last().len()
    }
}

/// What one more text adds to the number of characters.
pub proof fn lemma_total_take(s: Seq<Seq<char>>, i: int)
    requires
        0 <= i < s.len(),
    ensures
        total_len(s.take(i + 1)) == total_len(s.take(i)) + s[i].len(),
{
    assert(s.take(i + 1).drop_last() =~= s.take(i));
}

/// More texts have no fewer characters.
pub proof fn lemma_total_grows(s: Seq<Seq<char>>, i: int, j: int)
    requires
        0 <= i <= j <= s.len(),
    ensures
        total_len(s.take(i)) <= total_len(s.take(j)),
    decreases j - i,
{
    if i < j {
        lemma_total_grows(s, i, j - 1);
        lemma_total_take(s, j - 1);
    }
}

/// A text in front adds its characters.
proof fn lemma_total_front(x: Seq<char>, s: Seq<Seq<char>>)
    ensures
        total_len(seq![x] + s) == x.len() + total_len(s),
    decreases s.len(),
{
    let t = seq![x] + s;
    if s.len() == 0 {
        assert(total_len(t.drop_last()) == 0);
        assert(t.last() == x);
    } else {
        assert(t.last() == s.last());
        lemma_total_front(x, s.drop_last());
        assert(t.drop_last() =~= seq![x] + s.drop_last());
    }
}

/// The lines of a text have no more characters than the text.
pub proof fn lemma_lines_total(s: Seq<char>)
    ensures
        total_len(lines(s)) <= s.len(),
    decreases s.len(),
{
    let i: int = first_index(s, '\n') as int;
    lemma_first_index_meaning(s, '\n');
    if s.len() > 0 {
        if i < s.len() {
            lemma_lines_total(s.skip(i + 1));
            lemma_total_front(without_cr(s.take(i)), lines(s.skip(i + 1)));
        } else {
            lemma_total_front(s, seq![]);
            assert(seq![s] + Seq::<Seq<char>>::empty() =~= seq![s]);
        }
    }
}

/// Trimming makes a text no longer.
pub proof fn lemma_trim_shorter(s: Seq<char>)
    ensures
        trim(s).len() <= s.len(),
    decreases s.len(),
{
    lemma_trim_start_shorter(s);
    lemma_trim_end_prefix(trim_start(s));
}

proof fn lemma_trim_start_shorter(s: Seq<char>)
    ensures
        trim_start(s).len() <= s.len(),
    decreases s.len(),
{
    if s.len() > 0 && white(s[0]) {
        lemma_trim_start_shorter(s.skip(1));
    }
}

/// A line ends at the first line feed, which is left out with the carriage return before it; what
/// follows is read in the same way. A text without one is a single line, if it is not empty.
pub proof fn law_lines_end_at_line_feeds(line: Seq<char>, rest: Seq<char>)
    requires
        !line.contains('\n'),
    ensures
        lines(line + seq!['\n'] + rest) == seq![
            if line.len() > 0 && line.last() == '\r' {
                line.drop_last()
            } else {
                line
            },
        ] + lines(rest),
        line.len() > 0 ==> lines(line) == seq![line],
        lines(Seq::empty()).len() == 0,
{
    let s = line + seq!['\n'] + rest;
    let n = line.len() as int;
    assert forall|j: int| 0 <= j < n implies line[j] != '\n' by {
        assert(line.contains(line[j]));
    }
    assert forall|j: int| 0 <= j < n implies s[j] != '\n' by {
        assert(s[j] == line[j]);
    }
    assert(s[n] == '\n');
    lemma_first_index(s, '\n', n);
    lemma_first_index(line, '\n', n);
    assert(s.take(n) =~= line);
    assert(s.skip(n + 1) =~= rest);
}

/// Trimming takes off the white space at both ends, and nothing else.
pub proof fn law_trimming_leaves_the_text(gap: Seq<char>, s: Seq<char>, tail: Seq<char>)
    requires
        forall|i: int| 0 <= i < gap.len() ==> white(#[trigger] gap[i]),
        forall|i: int| 0 <= i < tail.len() ==> white(#[trigger] tail[i]),
        s.len() > 0 ==> !white(s[0]) && !white(s.last()),
    ensures
        trim(gap + s + tail) == s,
        s.len() > 0 ==> trim_start(gap + s + tail) == s + tail,
        trim_end(s + tail) == s,
{
    assert(gap + s + tail =~= gap + (s + tail));
    lemma_trim_gap(gap, s + tail);
    lemma_trim_end_gap(s, tail);
    lemma_trim_fixed(s);
    if s.len() > 0 {
        assert((s + tail)[0] == s[0]);
        assert(trim_start(s + tail) == s + tail);
    } else {
        assert(s + tail =~= tail + s);
        lemma_trim_gap(tail, s);
        assert(trim_start(s) == s);
        assert(trim_end(s) == s);
    }
}

/// Blanks, tabs and line ends are white space; letters, digits and printed signs are not.
pub proof fn law_white_space_is_not_printed(c: char)
    ensures
        white(' ') && white('\t') && white('\n') && white('\r'),
        '!' as int <= c as int <= '~' as int ==> !white(c),
{
}

/// A number is read where digits stand for it that are not too great, with or without a plus sign,
/// and nowhere else.
pub proof fn law_only_numbers_are_read(n: u32, s: Seq<char>, i: int)
    ensures
        parse_u32(decimal(n as nat)) == Some(n),
        parse_u32(seq!['+'] + decimal(n as nat)) == Some(n),
        parse_u32(Seq::empty()) is None,
        0 <= i < s.len() && !is_digit(s[i]) && !(i == 0 && s[i] == '+') ==> parse_u32(s) is None,
        digits_value(s) > u32::MAX && all_digits(s) ==> parse_u32(s) is None,
{
    lemma_decimal_parses(n);
    lemma_decimal_reads_back(n as nat);
    let d = decimal(n as nat);
    let signed = seq!['+'] + d;
    assert(signed.skip(1) =~= d);
    assert(is_digit(d[0]));
    if 0 <= i < s.len() && !is_digit(s[i]) && !(i == 0 && s[i] == '+') {
        let body = unsigned_body(s);
        if s[0] == '+' {
            assert(body[i - 1] == s[i]);
        } else {
            assert(body[i] == s[i]);
        }
    }
    if all_digits(s) {
        assert(is_digit(s[0]));
    }
}

/// The pieces of a text end at each `c`; a text without one is a single piece.
pub proof fn law_pieces_end_at_the_mark(piece: Seq<char>, c: char, rest: Seq<char>)
    requires
        !piece.contains(c),
    ensures
        split(piece + seq![c] + rest, c) == seq![piece] + split(rest, c),
        split(piece, c) == seq![piece],
{
    let s = piece + seq![c] + rest;
    let n = piece.len() as int;
    assert forall|j: int| 0 <= j < n implies piece[j] != c by {
        assert(piece.contains(piece[j]));
    }
    assert forall|j: int| 0 <= j < n implies s[j] != c by {
        assert(s[j] == piece[j]);
    }
    assert(s[n] == c);
    lemma_first_index(s, c, n);
    lemma_first_index(piece, c, n);
    assert(s.take(n) =~= piece);
    assert(s.skip(n + 1) =~= rest);
}

/// Joining puts the separator between the pieces, and nowhere else.
pub proof fn law_joining_separates(parts: Seq<Seq<char>>, sep: Seq<char>, x: Seq<char>)
    ensures
        join(Seq::empty(), sep).len() == 0,
        join(seq![x], sep) == x,
        parts.len() > 0 ==> join(parts.push(x), sep) == join(parts, sep) + sep + x,
{
    assert(parts.push(x).drop_last() =~= parts);
}

/// A text of ASCII characters has as many bytes as characters; no character has more than four, and
/// any other than ASCII has more than one.
pub proof fn law_bytes_of_a_text(s: Seq<char>, c: char)
    ensures
        (forall|i: int| 0 <= i < s.len() ==> (#[trigger] s[i] as int) < 128) ==> byte_len(s)
            == s.len(),
        byte_len(s.push(c)) == byte_len(s) + utf8_width(c),
        1 <= utf8_width(c) <= 4,
        utf8_width(c) == 1 <==> (c as int) < 128,
        utf8_width(c) <= 2 <==> (c as int) < 2048,
        utf8_width(c) <= 3 <==> (c as int) < 65536,
    decreases s.len(),
{
    assert(s.push(c).drop_last() =~= s);
    if s.len() > 0 && forall|i: int| 0 <= i < s.len() ==> (#[trigger] s[i] as int) < 128 {
        let short = s.drop_last();
        assert forall|i: int| 0 <= i < short.len() implies (#[trigger] short[i] as int) < 128 by {
            assert(short[i] == s[i]);
        }
        law_bytes_of_a_text(short, c);
        assert((s[s.len() - 1] as int) < 128);
    }
}

/// The white space there is.
pub open spec fn blanks() -> Seq<char> {
    seq![
        '\t',
        '\n',
        '\u{b}',
        '\u{c}',
        '\r',
        ' ',
        '\u{85}',
        '\u{a0}',
        '\u{1680}',
        '\u{2000}',
        '\u{2001}',
        '\u{2002}',
        '\u{2003}',
        '\u{2004}',
        '\u{2005}',
        '\u{2006}',
        '\u{2007}',
        '\u{2008}',
        '\u{2009}',
        '\u{200a}',
        '\u{2028}',
        '\u{2029}',
        '\u{202f}',
        '\u{205f}',
        '\u{3000}',
    ]
}

/// Each kind of blank is white space, and nothing else is.
pub proof fn law_blanks_are_white(c: char)
    ensures
        white(c) <==> blanks().contains(c),
{
    let n: int = c as int;
    let all = blanks();
    if white(c) {
        let at: int = if n <= 0xd {
            n - 0x9
        } else if n == 0x20 {
            5
        } else if n == 0x85 {
            6
        } else if n == 0xa0 {
            7
        } else if n == 0x1680 {
            8
        } else if n <= 0x200a {
            n - 0x2000 + 9
        } else if n == 0x2028 {
            20
        } else if n == 0x2029 {
            21
        } else if n == 0x202f {
            22
        } else if n == 0x205f {
            23
        } else {
            24
        };
        assert(all[at] == c);
    } else if all.contains(c) {
        let i: int = choose|i: int| 0 <= i < all.len() && all[i] == c;
        assert(white(all[i]));
    }
}

}
