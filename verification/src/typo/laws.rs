//! That the distance of two texts is the least number of edits between them.
use crate::text;
use vstd::prelude::*;

verus! {

/// A change of one character of a text.
pub enum Edit {
    Insert { at: int, c: char },
    Delete { at: int },
    Replace { at: int, c: char },
}

/// Whether an edit is one of a text.
pub open spec fn fits(s: Seq<char>, e: Edit) -> bool {
    match e {
        Edit::Insert { at, .. } => 0 <= at <= s.len(),
        Edit::Delete { at } => 0 <= at < s.len(),
        Edit::Replace { at, .. } => 0 <= at < s.len(),
    }
}

/// A text after an edit.
pub open spec fn edited(s: Seq<char>, e: Edit) -> Seq<char> {
    match e {
        Edit::Insert { at, c } => s.insert(at, c),
        Edit::Delete { at } => s.remove(at),
        Edit::Replace { at, c } => s.update(at, c),
    }
}

/// Whether a script of edits, one after the other, turns `a` into `b`.
pub open spec fn turns(a: Seq<char>, script: Seq<Edit>, b: Seq<char>) -> bool
    decreases script.len(),
{
    if script.len() == 0 {
        a == b
    } else {
        fits(a, script[0]) && turns(edited(a, script[0]), script.skip(1), b)
    }
}

/// The lengths of two texts differ by no more than their distance.
proof fn lemma_length_bound(a: Seq<char>, b: Seq<char>)
    ensures
        a.len() <= b.len() + super::edit_distance(a, b),
        b.len() <= a.len() + super::edit_distance(a, b),
    decreases a.len() + b.len(),
{
    if a.len() > 0 && b.len() > 0 {
        lemma_length_bound(a.drop_last(), b.drop_last());
        lemma_length_bound(a.drop_last(), b);
        lemma_length_bound(a, b.drop_last());
    }
}

/// The way over a third text is no shorter.
pub proof fn law_distance_triangle(a: Seq<char>, b: Seq<char>, c: Seq<char>)
    ensures
        super::edit_distance(a, c) <= super::edit_distance(a, b) + super::edit_distance(b, c),
    decreases a.len() + b.len() + c.len(),
{
    if a.len() == 0 {
        lemma_length_bound(b, c);
    } else if c.len() == 0 {
        lemma_length_bound(a, b);
    } else if b.len() == 0 {
        super::lemma_distance_bound(a, c);
    } else {
        law_distance_triangle(a.drop_last(), b, c);
        law_distance_triangle(a, b, c.drop_last());
        law_distance_triangle(a, b.drop_last(), c);
        law_distance_triangle(a, b.drop_last(), c.drop_last());
        law_distance_triangle(a.drop_last(), b.drop_last(), c);
        law_distance_triangle(a.drop_last(), b.drop_last(), c.drop_last());
    }
}

/// One character more is at most one away.
proof fn lemma_insert_near(s: Seq<char>, at: int, c: char)
    requires
        0 <= at <= s.len(),
    ensures
        super::edit_distance(s, s.insert(at, c)) <= 1,
    decreases s.len(),
{
    let t = s.insert(at, c);
    if s.len() > 0 {
        if at == s.len() {
            assert(t.drop_last() =~= s);
            super::law_distance_zero(s, s);
        } else {
            lemma_insert_near(s.drop_last(), at, c);
            assert(t.drop_last() =~= s.drop_last().insert(at, c));
            assert(t.last() == s.last());
        }
    }
}

/// Another character is at most one away.
proof fn lemma_update_near(s: Seq<char>, at: int, c: char)
    requires
        0 <= at < s.len(),
    ensures
        super::edit_distance(s, s.update(at, c)) <= 1,
    decreases s.len(),
{
    let t = s.update(at, c);
    if at == s.len() - 1 {
        assert(t.drop_last() =~= s.drop_last());
        super::law_distance_zero(s.drop_last(), s.drop_last());
    } else {
        lemma_update_near(s.drop_last(), at, c);
        assert(t.drop_last() =~= s.drop_last().update(at, c));
        assert(t.last() == s.last());
    }
}

/// An edit goes no further than one.
proof fn lemma_edit_near(s: Seq<char>, e: Edit)
    requires
        fits(s, e),
    ensures
        super::edit_distance(s, edited(s, e)) <= 1,
{
    match e {
        Edit::Insert { at, c } => lemma_insert_near(s, at, c),
        Edit::Delete { at } => {
            let t = s.remove(at);
            lemma_insert_near(t, at, s[at]);
            assert(t.insert(at, s[at]) =~= s);
            super::law_distance_symmetric(s, t);
        },
        Edit::Replace { at, c } => lemma_update_near(s, at, c),
    }
}

/// No script with fewer edits than the distance turns one text into another.
pub proof fn law_no_shorter_script(a: Seq<char>, script: Seq<Edit>, b: Seq<char>)
    requires
        turns(a, script, b),
    ensures
        super::edit_distance(a, b) <= script.len(),
    decreases script.len(),
{
    if script.len() == 0 {
        super::law_distance_zero(a, b);
    } else {
        let next = edited(a, script[0]);
        lemma_edit_near(a, script[0]);
        law_no_shorter_script(next, script.skip(1), b);
        law_distance_triangle(a, next, b);
    }
}

/// One script after another.
proof fn lemma_scripts_join(
    a: Seq<char>,
    first: Seq<Edit>,
    m: Seq<char>,
    second: Seq<Edit>,
    b: Seq<char>,
)
    requires
        turns(a, first, m),
        turns(m, second, b),
    ensures
        turns(a, first + second, b),
    decreases first.len(),
{
    let all = first + second;
    if first.len() == 0 {
        assert(all =~= second);
    } else {
        lemma_scripts_join(edited(a, first[0]), first.skip(1), m, second, b);
        assert(all[0] == first[0]);
        assert(all.skip(1) =~= first.skip(1) + second);
    }
}

/// A script works on a text with one more character at its end, and leaves that one alone.
proof fn lemma_script_before(a: Seq<char>, script: Seq<Edit>, b: Seq<char>, x: char)
    requires
        turns(a, script, b),
    ensures
        turns(a.push(x), script, b.push(x)),
    decreases script.len(),
{
    if script.len() > 0 {
        let next = edited(a, script[0]);
        lemma_script_before(next, script.skip(1), b, x);
        assert(edited(a.push(x), script[0]) =~= next.push(x));
    }
}

/// A script of one edit.
proof fn one_edit(a: Seq<char>, e: Edit, b: Seq<char>) -> (script: Seq<Edit>)
    requires
        fits(a, e),
        edited(a, e) == b,
    ensures
        turns(a, script, b),
        script.len() == 1,
{
    let script = seq![e];
    assert(script.skip(1) =~= Seq::<Edit>::empty());
    assert(turns(b, script.skip(1), b));
    script
}

/// A script with as many edits as the distance turns one text into another.
pub proof fn law_distance_is_reached(a: Seq<char>, b: Seq<char>) -> (script: Seq<Edit>)
    ensures
        turns(a, script, b),
        script.len() == super::edit_distance(a, b),
    decreases a.len() + b.len(),
{
    if a.len() == 0 && b.len() == 0 {
        assert(a =~= b);
        Seq::empty()
    } else if b.len() > 0 && (a.len() == 0 || super::edit_distance(a, b) == super::edit_distance(
        a,
        b.drop_last(),
    ) + 1) {
        let head = b.drop_last();
        let script = law_distance_is_reached(a, head);
        let e = Edit::Insert { at: head.len() as int, c: b.last() };
        assert(edited(head, e) =~= b);
        let one = one_edit(head, e, b);
        lemma_scripts_join(a, script, head, one, b);
        script + one
    } else if a.len() > 0 && (b.len() == 0 || super::edit_distance(a, b) == super::edit_distance(
        a.drop_last(),
        b,
    ) + 1) {
        let head = a.drop_last();
        let script = law_distance_is_reached(head, b);
        let e = Edit::Delete { at: head.len() as int };
        assert(edited(a, e) =~= head);
        let one = one_edit(a, e, head);
        lemma_scripts_join(a, one, head, script, b);
        one + script
    } else {
        let x = a.last();
        let y = b.last();
        let script = law_distance_is_reached(a.drop_last(), b.drop_last());
        lemma_script_before(a.drop_last(), script, b.drop_last(), x);
        assert(a.drop_last().push(x) =~= a);
        let m = b.drop_last().push(x);
        if x == y {
            assert(m =~= b);
            script
        } else {
            let e = Edit::Replace { at: b.len() - 1, c: y };
            assert(edited(m, e) =~= b);
            let one = one_edit(m, e, b);
            lemma_scripts_join(a, script, m, one, b);
            script + one
        }
    }
}

/// To swap two neighbours that differ takes two edits.
pub proof fn law_swap_costs_two(before: Seq<char>, x: char, y: char, after: Seq<char>)
    requires
        x != y,
    ensures
        super::edit_distance(before + seq![x, y] + after, before + seq![y, x] + after) == 2,
{
    let a = before + seq![x, y] + after;
    let b = before + seq![y, x] + after;
    let k = before.len() as int;
    assert(a[k] == x && a[k + 1] == y && b[k] == y && b[k + 1] == x);
    let e = Edit::Replace { at: k, c: y };
    let f = Edit::Replace { at: k + 1, c: x };
    let m = edited(a, e);
    assert(edited(m, f) =~= b);
    let first = one_edit(a, e, m);
    let second = one_edit(m, f, b);
    lemma_scripts_join(a, first, m, second, b);
    law_no_shorter_script(a, first + second, b);
    super::law_distance_zero(a, b);
    if super::edit_distance(a, b) == 1 {
        let script = law_distance_is_reached(a, b);
        let only = script[0];
        assert(turns(edited(a, only), script.skip(1), b));
        assert(edited(a, only) == b);
        match only {
            Edit::Insert { at, c } => {
                assert(b.len() == a.len() + 1);
            },
            Edit::Delete { at } => {
                assert(b.len() == a.len() - 1);
            },
            Edit::Replace { at, c } => {
                assert(at == k || b[k] == a[k]);
                assert(at == k + 1 || b[k + 1] == a[k + 1]);
            },
        }
    }
}

/// Some candidate is the first of those closest to a name, where there is any.
proof fn lemma_closest_exists(name: Seq<char>, candidates: Seq<Seq<char>>) -> (at: int)
    requires
        candidates.len() > 0,
    ensures
        super::is_closest(name, candidates, at),
    decreases candidates.len(),
{
    let last = candidates.len() - 1;
    if candidates.len() == 1 {
        assert(super::is_closest(name, candidates, 0));
        0
    } else {
        let short = candidates.drop_last();
        let before = lemma_closest_exists(name, short);
        assert forall|j: int| 0 <= j < short.len() implies #[trigger] candidates[j] == short[j] by {}
        let best = super::edit_distance(name, candidates[before]);
        if super::edit_distance(name, candidates[last]) < best {
            assert forall|j: int| 0 <= j < candidates.len() implies super::edit_distance(
                name,
                candidates[last],
            ) <= super::edit_distance(name, #[trigger] candidates[j]) by {
                if j < last {
                    assert(best <= super::edit_distance(name, short[j]));
                }
            }
            assert forall|j: int| 0 <= j < last implies super::edit_distance(name, candidates[last])
                < super::edit_distance(name, #[trigger] candidates[j]) by {
                assert(best <= super::edit_distance(name, short[j]));
            }
            last
        } else {
            assert forall|j: int| 0 <= j < candidates.len() implies best <= super::edit_distance(
                name,
                #[trigger] candidates[j],
            ) by {
                if j < last {
                    assert(best <= super::edit_distance(name, short[j]));
                }
            }
            assert forall|j: int| 0 <= j < before implies best < super::edit_distance(
                name,
                #[trigger] candidates[j],
            ) by {
                assert(best < super::edit_distance(name, short[j]));
            }
            before
        }
    }
}

/// What is suggested for a name is a candidate, no candidate is closer to the name, and it is close
/// enough: at most one edit away for three bytes of the name, or one at all. Nothing is suggested
/// only where no candidate is that close.
pub proof fn law_suggestions_are_the_closest(
    name: Seq<char>,
    candidates: Seq<Seq<char>>,
    x: Seq<char>,
)
    requires
        candidates.contains(x),
    ensures
        ({
            let third = text::byte_len(name) / 3;
            match super::suggested(name, candidates) {
                Some(c) => {
                    &&& candidates.contains(c)
                    &&& super::edit_distance(name, c) <= super::edit_distance(name, x)
                    &&& super::edit_distance(name, c) <= third || super::edit_distance(name, c) <= 1
                },
                None => super::edit_distance(name, x) > third && super::edit_distance(name, x) > 1,
            }
        }),
{
    let i: int = choose|i: int| 0 <= i < candidates.len() && candidates[i] == x;
    let at = lemma_closest_exists(name, candidates);
    assert(super::edit_distance(name, candidates[at]) <= super::edit_distance(name, candidates[i]));
    if super::suggested(name, candidates) is Some {
        let s: int = choose|s: int| super::is_suggestion(name, candidates, s);
        assert(super::edit_distance(name, candidates[s]) <= super::edit_distance(
            name,
            candidates[i],
        ));
        assert(candidates.contains(candidates[s]));
    } else {
        assert(!super::is_suggestion(name, candidates, at));
    }
}

}
