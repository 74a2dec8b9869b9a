//! What a build's lines tell.
use crate::text;
use crate::tui::state::ProgressView;
use vstd::prelude::*;

verus! {

/// A number in decimal is made of digits.
proof fn lemma_decimal_plain(n: nat, c: char)
    requires
        !text::is_digit(c),
    ensures
        text::decimal(n).len() > 0,
        !text::decimal(n).contains(c),
        text::trim(text::decimal(n)) == text::decimal(n),
{
    text::lemma_decimal_reads_back(n);
    let d = text::decimal(n);
    assert(text::is_digit(d[0]));
    assert(text::is_digit(d[d.len() - 1]));
    text::lemma_trim_fixed(d);
    if d.contains(c) {
        let i: int = choose|i: int| 0 <= i < d.len() && d[i] == c;
        assert(text::is_digit(d[i]));
    }
}

/// A line about the step of a number, and what it says of it.
pub open spec fn step_line(n: u32, description: Seq<char>) -> Seq<char> {
    seq!['#'] + text::decimal(n as nat) + seq![' '] + description
}

proof fn lemma_step_text(n: u32, description: Seq<char>)
    requires
        description.len() > 0,
        !text::white(description.last()),
    ensures
        super::step_text(step_line(n, description)) == Some(description),
{
    reveal_strlit("#");
    let line = step_line(n, description);
    let d = text::decimal(n as nat);
    lemma_decimal_plain(n as nat, ' ');
    text::lemma_decimal_parses(n);
    assert(line[0] == '#' && line.last() == description.last());
    text::lemma_trim_fixed(line);
    assert(line.take(1) =~= "#"@);
    let rest = line.skip(1);
    assert(rest =~= d + seq![' '] + description);
    assert forall|j: int| 0 <= j < d.len() implies rest[j] != ' ' by {
        assert(rest[j] == d[j]);
        assert(d.contains(d[j]));
    }
    assert(rest[d.len() as int] == ' ');
    text::lemma_first_index(rest, ' ', d.len() as int);
    assert(rest.take(d.len() as int) =~= d);
    assert(rest.skip(d.len() as int + 1) =~= description);
}

/// The counter of a step, with the stage before it where it has a name.
pub open spec fn counter(stage: Option<Seq<char>>, step: u32, total: u32) -> Seq<char> {
    let count = text::decimal(step as nat) + seq!['/'] + text::decimal(total as nat);
    match stage {
        Some(s) => s + seq![' '] + count,
        None => count,
    }
}

proof fn lemma_count(step: u32, total: u32)
    ensures
        ({
            let count = text::decimal(step as nat) + seq!['/'] + text::decimal(total as nat);
            &&& super::counter_value(count) == Some((step, total))
            &&& !count.contains(' ') && !count.contains(']') && !count.contains('[')
        }),
{
    let a = text::decimal(step as nat);
    let b = text::decimal(total as nat);
    let count = a + seq!['/'] + b;
    lemma_decimal_plain(step as nat, '/');
    lemma_decimal_plain(total as nat, '/');
    text::lemma_decimal_parses(step);
    text::lemma_decimal_parses(total);
    assert forall|j: int| 0 <= j < a.len() implies count[j] != '/' by {
        assert(count[j] == a[j]);
        assert(a.contains(a[j]));
    }
    assert(count[a.len() as int] == '/');
    text::lemma_first_index(count, '/', a.len() as int);
    assert(count.take(a.len() as int) =~= a);
    assert(count.skip(a.len() as int + 1) =~= b);
    assert forall|c: char| (c == ' ' || c == ']' || c == '[') implies !#[trigger] count.contains(
        c,
    ) by {
        lemma_decimal_plain(step as nat, c);
        lemma_decimal_plain(total as nat, c);
        if count.contains(c) {
            let i: int = choose|i: int| 0 <= i < count.len() && count[i] == c;
            if i < a.len() {
                assert(a[i] == c);
            } else if i > a.len() {
                assert(b[i - a.len() - 1] == c);
            }
        }
    }
}

/// A line that counts a step tells which step it is, of how many, in which stage and what it does;
/// it is shown. The number of steps is the greatest seen so far.
pub proof fn law_counted_steps_are_shown(
    p: ProgressView,
    n: u32,
    stage: Option<Seq<char>>,
    step: u32,
    total: u32,
    what: Seq<char>,
    d: Seq<char>,
)
    requires
        stage matches Some(s) ==> s.len() > 0 && text::trim(s) == s && !s.contains(']'),
        what.len() > 0,
        !text::white(what[0]) && !text::white(what.last()),
        d == seq!['['] + counter(stage, step, total) + seq![']', ' '] + what,
    ensures
        super::after_line(p, step_line(n, d)) == (
            ProgressView {
                current_step: step,
                total_steps: if total > p.total_steps {
                    total
                } else {
                    p.total_steps
                },
                step_description: what,
                stage,
            },
            true,
        ),
{
    lemma_counts_told(p, stage, step, total, what);
    lemma_description(counter(stage, step, total), what);
    lemma_shown(p, n, d, super::counted(p, d)->0);
}

proof fn lemma_description(inner: Seq<char>, what: Seq<char>)
    requires
        what.len() > 0,
        !text::white(what[0]) && !text::white(what.last()),
    ensures
        ({
            let d = seq!['['] + inner + seq![']', ' '] + what;
            d.len() > 0 && d[0] == '[' && !text::white(d.last())
        }),
{
    let d = seq!['['] + inner + seq![']', ' '] + what;
    assert(d.last() == what.last());
}

proof fn lemma_shown(p: ProgressView, n: u32, d: Seq<char>, next: ProgressView)
    requires
        d.len() > 0,
        d[0] == '[',
        !text::white(d.last()),
        super::counted(p, d) == Some(next),
    ensures
        super::after_line(p, step_line(n, d)) == (next, true),
{
    lemma_step_text(n, d);
    lemma_still_going(d);
}

/// What starts with a bracket is no end of a step.
proof fn lemma_still_going(d: Seq<char>)
    requires
        d.len() > 0,
        d[0] == '[',
    ensures
        !super::step_ended(d),
        d != "..."@,
{
    reveal_strlit("DONE");
    reveal_strlit("DONE ");
    reveal_strlit("CACHED");
    reveal_strlit("...");
    assert("DONE"@[0] == 'D' && "DONE "@[0] == 'D' && "CACHED"@[0] == 'C' && "..."@[0] == '.');
}

proof fn lemma_counts_told(
    p: ProgressView,
    stage: Option<Seq<char>>,
    step: u32,
    total: u32,
    what: Seq<char>,
)
    requires
        stage matches Some(s) ==> s.len() > 0 && text::trim(s) == s && !s.contains(']'),
        what.len() > 0,
        !text::white(what[0]) && !text::white(what.last()),
    ensures
        super::counted(
            p,
            seq!['['] + counter(stage, step, total) + seq![']', ' '] + what,
        ) == Some(
            ProgressView {
                current_step: step,
                total_steps: if total > p.total_steps {
                    total
                } else {
                    p.total_steps
                },
                step_description: what,
                stage,
            },
        ),
{
    let inner = counter(stage, step, total);
    let behind = seq![' '] + what;
    let count = text::decimal(step as nat) + seq!['/'] + text::decimal(total as nat);
    lemma_no_bracket(stage, step, total);
    lemma_bracketed(inner, what);
    text::lemma_trim_gap(seq![' '], what);
    text::lemma_trim_fixed(what);
    lemma_stage(stage, step, total);
    lemma_count(step, total);
    lemma_counted_from(
        p,
        seq!['['] + inner + seq![']', ' '] + what,
        inner,
        behind,
        stage,
        count,
        step,
        total,
    );
}

proof fn lemma_counted_from(
    p: ProgressView,
    d: Seq<char>,
    inner: Seq<char>,
    behind: Seq<char>,
    stage: Option<Seq<char>>,
    count: Seq<char>,
    step: u32,
    total: u32,
)
    requires
        super::bracketed(d) == Some((inner, behind)),
        super::stage_and_counter(inner) == (stage, count),
        super::counter_value(count) == Some((step, total)),
        text::trim(behind).len() > 0,
    ensures
        super::counted(p, d) == Some(
            ProgressView {
                current_step: step,
                total_steps: if total > p.total_steps {
                    total
                } else {
                    p.total_steps
                },
                step_description: text::trim(behind),
                stage,
            },
        ),
{
}

proof fn lemma_no_bracket(stage: Option<Seq<char>>, step: u32, total: u32)
    requires
        stage matches Some(s) ==> !s.contains(']'),
    ensures
        !counter(stage, step, total).contains(']'),
{
    let inner = counter(stage, step, total);
    let count = text::decimal(step as nat) + seq!['/'] + text::decimal(total as nat);
    lemma_count(step, total);
    if inner.contains(']') {
        let i: int = choose|i: int| 0 <= i < inner.len() && inner[i] == ']';
        match stage {
            Some(s) => {
                if i < s.len() {
                    assert(s[i] == ']');
                } else if i > s.len() {
                    assert(count[i - s.len() - 1] == ']');
                }
            },
            None => {},
        }
    }
}

proof fn lemma_bracketed(inner: Seq<char>, what: Seq<char>)
    requires
        !inner.contains(']'),
    ensures
        super::bracketed(seq!['['] + inner + seq![']', ' '] + what) == Some(
            (inner, seq![' '] + what),
        ),
{
    let d = seq!['['] + inner + seq![']', ' '] + what;
    text::lemma_first_index(d, '[', 0);
    assert(d.skip(0) =~= d);
    let close = inner.len() as int + 1;
    assert forall|j: int| 0 <= j < close implies d[j] != ']' by {
        if j > 0 {
            assert(d[j] == inner[j - 1]);
            assert(inner.contains(inner[j - 1]));
        }
    }
    assert(d[close] == ']');
    text::lemma_first_index(d, ']', close);
    assert(d.subrange(1, close) =~= inner);
    assert(d.skip(close + 1) =~= seq![' '] + what);
}

proof fn lemma_stage(stage: Option<Seq<char>>, step: u32, total: u32)
    requires
        stage matches Some(s) ==> s.len() > 0 && text::trim(s) == s,
    ensures
        super::stage_and_counter(counter(stage, step, total)) == (
            stage,
            text::decimal(step as nat) + seq!['/'] + text::decimal(total as nat),
        ),
{
    let inner = counter(stage, step, total);
    let count = text::decimal(step as nat) + seq!['/'] + text::decimal(total as nat);
    lemma_count(step, total);
    text::lemma_last_index_meaning(inner, ' ');
    let at = text::last_index(inner, ' ');
    match stage {
        Some(s) => {
            let n = s.len() as int;
            assert(inner[n] == ' ');
            if at > n {
                assert(inner[at] == count[at - n - 1]);
                assert(count.contains(' '));
            }
            assert(at == n);
            assert(inner.take(n) =~= s);
            assert(inner.skip(n + 1) =~= count);
        },
        None => {
            if at >= 0 {
                assert(count.contains(count[at]));
            }
        },
    }
}

/// The end of a step is shown and changes nothing; a step that goes on is not shown.
pub proof fn law_ended_steps_are_shown(p: ProgressView, n: u32, rest: Seq<char>)
    requires
        rest.len() > 0,
        !text::white(rest.last()),
    ensures
        super::after_line(p, step_line(n, "DONE "@ + rest)) == (p, true),
        super::after_line(p, step_line(n, "DONE"@)) == (p, true),
        super::after_line(p, step_line(n, "CACHED"@)) == (p, true),
        super::after_line(p, step_line(n, "..."@)) == (p, false),
{
    reveal_strlit("DONE");
    reveal_strlit("DONE ");
    reveal_strlit("CACHED");
    reveal_strlit("...");
    let done = "DONE "@ + rest;
    assert(done.last() == rest.last());
    assert(done.take(5) =~= "DONE "@);
    assert("DONE"@.last() == 'E' && "CACHED"@.last() == 'D' && "..."@.last() == '.');
    assert("..."@[0] == '.' && "DONE"@[0] == 'D' && "CACHED"@[0] == 'C' && "DONE "@[0] == 'D');
    lemma_step_text(n, done);
    lemma_step_text(n, "DONE"@);
    lemma_step_text(n, "CACHED"@);
    lemma_step_text(n, "..."@);
}

/// A step without a counter is what the build does now, but is not shown by itself. The counts
/// stay.
pub proof fn law_other_steps_only_tell_what_is_done(p: ProgressView, n: u32, what: Seq<char>)
    requires
        what.len() > 0,
        !text::white(what.last()),
        !what.contains('['),
        what != "DONE"@,
        !"DONE "@.is_prefix_of(what),
        what != "CACHED"@,
        what != "..."@,
    ensures
        super::after_line(p, step_line(n, what)) == (
            ProgressView { step_description: what, ..p },
            false,
        ),
{
    lemma_step_text(n, what);
    text::lemma_first_index_meaning(what, '[');
    let at = text::first_index(what, '[') as int;
    if at < what.len() {
        assert(what.contains(what[at]));
    }
}

/// A line that does not start with `#` and a number tells nothing.
pub proof fn law_lines_without_a_step_tell_nothing(p: ProgressView, line: Seq<char>)
    requires
        text::trim(line).len() == 0 || text::trim(line)[0] != '#' || !text::trim(line).contains(' '),
    ensures
        super::after_line(p, line) == (p, false),
{
    reveal_strlit("#");
    let t = text::trim(line);
    if "#"@.is_prefix_of(t) {
        assert(t[0] == "#"@[0]);
        let rest = t.skip(1);
        text::lemma_first_index_meaning(rest, ' ');
        let at = text::first_index(rest, ' ') as int;
        if at < rest.len() {
            assert(t[at + 1] == ' ');
            assert(t.contains(' '));
        }
    }
}

/// Before its first line nothing is known of a build.
pub proof fn law_nothing_is_known_at_first()
    ensures
        super::no_progress().current_step == 0,
        super::no_progress().total_steps == 0,
        super::no_progress().step_description.len() == 0,
        super::no_progress().stage is None,
{
}

proof fn lemma_bracketed_within(before: Seq<char>, inner: Seq<char>, behind: Seq<char>)
    requires
        !before.contains('['),
        !inner.contains(']'),
    ensures
        super::bracketed(before + seq!['['] + inner + seq![']'] + behind) == Some((inner, behind)),
{
    let d = before + seq!['['] + inner + seq![']'] + behind;
    let open = before.len() as int;
    assert forall|j: int| 0 <= j < open implies d[j] != '[' by {
        assert(d[j] == before[j]);
        assert(before.contains(before[j]));
    }
    assert(d[open] == '[');
    text::lemma_first_index(d, '[', open);
    let rest = d.skip(open);
    let close = inner.len() as int + 1;
    assert forall|j: int| 0 <= j < close implies rest[j] != ']' by {
        if j > 0 {
            assert(rest[j] == inner[j - 1]);
            assert(inner.contains(inner[j - 1]));
        }
    }
    assert(rest[close] == ']');
    text::lemma_first_index(rest, ']', close);
    assert(rest.subrange(1, close) =~= inner);
    assert(rest.skip(close + 1) =~= behind);
}

proof fn lemma_padded_stage(stage: Seq<char>, count: Seq<char>)
    requires
        !count.contains(' '),
    ensures
        super::stage_and_counter(stage + seq![' '] + count) == (
            if text::trim(stage).len() > 0 {
                Some(text::trim(stage))
            } else {
                None
            },
            count,
        ),
{
    let inner = stage + seq![' '] + count;
    let n = stage.len() as int;
    text::lemma_last_index_meaning(inner, ' ');
    let at = text::last_index(inner, ' ');
    assert(inner[n] == ' ');
    if at > n {
        assert(inner[at] == count[at - n - 1]);
        assert(count.contains(' '));
    }
    assert(inner.take(n) =~= stage);
    assert(inner.skip(n + 1) =~= count);
}

/// The counter of a step may stand anywhere in what is said of it, and white space round the name
/// of the stage, and before what is done, is left out. A stage without a name is none; and where
/// nothing stands behind the counter, all that is said is shown.
pub proof fn law_counter_may_stand_anywhere(
    p: ProgressView,
    n: u32,
    before: Seq<char>,
    gap: Seq<char>,
    stage: Seq<char>,
    tail: Seq<char>,
    step: u32,
    total: u32,
    space: Seq<char>,
    what: Seq<char>,
    d: Seq<char>,
)
    requires
        !before.contains('['),
        !("DONE "@.is_prefix_of(before)),
        forall|i: int| 0 <= i < gap.len() ==> text::white(#[trigger] gap[i]),
        forall|i: int| 0 <= i < tail.len() ==> text::white(#[trigger] tail[i]),
        forall|i: int| 0 <= i < space.len() ==> text::white(#[trigger] space[i]),
        stage.len() > 0 ==> !text::white(stage[0]) && !text::white(stage.last()),
        what.len() > 0 ==> !text::white(what[0]) && !text::white(what.last()),
        what.len() == 0 ==> space.len() == 0,
        !stage.contains(']'),
        d == before + seq!['['] + counter(Some(gap + stage + tail), step, total) + seq![']'] + (
        space + what),
    ensures
        super::after_line(p, step_line(n, d)) == (
            ProgressView {
                current_step: step,
                total_steps: if total > p.total_steps {
                    total
                } else {
                    p.total_steps
                },
                step_description: if what.len() == 0 {
                    d
                } else {
                    what
                },
                stage: if stage.len() == 0 {
                    None
                } else {
                    Some(stage)
                },
            },
            true,
        ),
{
    let inner = counter(Some(gap + stage + tail), step, total);
    lemma_counted_within(p, before, gap, stage, tail, step, total, space, what);
    lemma_says_no_end(before, inner, space + what);
    lemma_last_of(before, inner, space, what);
    lemma_step_text(n, d);
}

proof fn lemma_last_of(before: Seq<char>, inner: Seq<char>, space: Seq<char>, what: Seq<char>)
    requires
        what.len() > 0 ==> !text::white(what.last()),
        what.len() == 0 ==> space.len() == 0,
    ensures
        ({
            let d = before + seq!['['] + inner + seq![']'] + (space + what);
            d.len() > 0 && !text::white(d.last())
        }),
{
    let d = before + seq!['['] + inner + seq![']'] + (space + what);
    if what.len() > 0 {
        assert(d.last() == what.last());
    } else {
        assert(space + what =~= Seq::empty());
        assert(d.last() == ']');
    }
}

proof fn lemma_counted_within(
    p: ProgressView,
    before: Seq<char>,
    gap: Seq<char>,
    stage: Seq<char>,
    tail: Seq<char>,
    step: u32,
    total: u32,
    space: Seq<char>,
    what: Seq<char>,
)
    requires
        !before.contains('['),
        forall|i: int| 0 <= i < gap.len() ==> text::white(#[trigger] gap[i]),
        forall|i: int| 0 <= i < tail.len() ==> text::white(#[trigger] tail[i]),
        forall|i: int| 0 <= i < space.len() ==> text::white(#[trigger] space[i]),
        stage.len() > 0 ==> !text::white(stage[0]) && !text::white(stage.last()),
        what.len() > 0 ==> !text::white(what[0]) && !text::white(what.last()),
        !stage.contains(']'),
    ensures
        ({
            let d = before + seq!['['] + counter(Some(gap + stage + tail), step, total) + seq![']']
                + (space + what);
            super::counted(p, d) == Some(
                ProgressView {
                    current_step: step,
                    total_steps: if total > p.total_steps {
                        total
                    } else {
                        p.total_steps
                    },
                    step_description: if what.len() == 0 {
                        d
                    } else {
                        what
                    },
                    stage: if stage.len() == 0 {
                        None
                    } else {
                        Some(stage)
                    },
                },
            )
        }),
{
    let padded = gap + stage + tail;
    let inner = counter(Some(padded), step, total);
    let count = text::decimal(step as nat) + seq!['/'] + text::decimal(total as nat);
    let behind = space + what;
    lemma_no_closing_bracket(gap, stage, tail);
    lemma_no_bracket(Some(padded), step, total);
    lemma_bracketed_within(before, inner, behind);
    lemma_count(step, total);
    lemma_padded_stage(padded, count);
    text::law_trimming_leaves_the_text(gap, stage, tail);
    text::law_trimming_leaves_the_text(space, what, Seq::empty());
    assert(space + what + Seq::<char>::empty() =~= behind);
    lemma_told(p, before + seq!['['] + inner + seq![']'] + behind, inner, behind, count, step, total);
}

proof fn lemma_told(
    p: ProgressView,
    d: Seq<char>,
    inner: Seq<char>,
    behind: Seq<char>,
    count: Seq<char>,
    step: u32,
    total: u32,
)
    requires
        super::bracketed(d) == Some((inner, behind)),
        super::stage_and_counter(inner).1 == count,
        super::counter_value(count) == Some((step, total)),
    ensures
        super::counted(p, d) == Some(
            ProgressView {
                current_step: step,
                total_steps: if total > p.total_steps {
                    total
                } else {
                    p.total_steps
                },
                step_description: if text::trim(behind).len() == 0 {
                    d
                } else {
                    text::trim(behind)
                },
                stage: super::stage_and_counter(inner).0,
            },
        ),
{
}

/// White space holds no bracket.
proof fn lemma_no_closing_bracket(gap: Seq<char>, stage: Seq<char>, tail: Seq<char>)
    requires
        forall|i: int| 0 <= i < gap.len() ==> text::white(#[trigger] gap[i]),
        forall|i: int| 0 <= i < tail.len() ==> text::white(#[trigger] tail[i]),
        !stage.contains(']'),
    ensures
        !(gap + stage + tail).contains(']'),
{
    let s = gap + stage + tail;
    if s.contains(']') {
        let i: int = choose|i: int| 0 <= i < s.len() && s[i] == ']';
        if i < gap.len() {
            assert(text::white(gap[i]));
        } else if i < gap.len() + stage.len() {
            assert(stage[i - gap.len()] == ']');
        } else {
            assert(text::white(tail[i - gap.len() - stage.len()]));
        }
    }
}

/// What holds a bracket is no end of a step, unless it starts as one.
proof fn lemma_says_no_end(before: Seq<char>, inner: Seq<char>, behind: Seq<char>)
    requires
        !("DONE "@.is_prefix_of(before)),
    ensures
        ({
            let d = before + seq!['['] + inner + seq![']'] + behind;
            !super::step_ended(d) && d != "..."@
        }),
{
    reveal_strlit("DONE");
    reveal_strlit("DONE ");
    reveal_strlit("CACHED");
    reveal_strlit("...");
    let d = before + seq!['['] + inner + seq![']'] + behind;
    let at = before.len() as int;
    assert(d[at] == '[');
    assert(d.contains('['));
    assert(!"..."@.contains('[') && !"CACHED"@.contains('[') && !"DONE"@.contains('['));
    if "DONE "@.is_prefix_of(d) {
        if at >= 5 {
            assert(before.take(5) =~= "DONE "@) by {
                assert forall|i: int| 0 <= i < 5 implies before[i] == "DONE "@[i] by {
                    assert(d[i] == before[i]);
                }
            }
        } else {
            assert("DONE "@[at] == d[at]);
        }
    }
}

}
