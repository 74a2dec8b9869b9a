//! How far apart two names are, and which known name a mistyped one may have meant.
use crate::text;
use crate::text::{chars_of, count_bytes};
use vstd::prelude::*;

pub mod laws;

verus! {

/// The lesser of two numbers.
pub open spec fn lesser(a: nat, b: nat) -> nat {
    if a <= b {
        a
    } else {
        b
    }
}

/// The least number of characters to insert, delete or replace to turn `a` into `b`.
pub open spec fn edit_distance(a: Seq<char>, b: Seq<char>) -> nat
    decreases a.len() + b.len(),
{
    if a.len() == 0 {
        b.len()
    } else if b.len() == 0 {
        a.len()
    } else {
        let cost: nat = if a.last() == b.last() {
            0
        } else {
            1
        };
        lesser(
            lesser(
                edit_distance(a.drop_last(), b.drop_last()) + cost,
                edit_distance(a.drop_last(), b) + 1,
            ),
            edit_distance(a, b.drop_last()) + 1,
        )
    }
}

/// The distance is no more than the length of the longer text.
pub proof fn lemma_distance_bound(a: Seq<char>, b: Seq<char>)
    ensures
        edit_distance(a, b) <= if a.len() <= b.len() {
            b.len()
        } else {
            a.len()
        },
    decreases a.len() + b.len(),
{
    if a.len() > 0 && b.len() > 0 {
        lemma_distance_bound(a.drop_last(), b.drop_last());
    }
}

/// The distance is the same both ways.
pub proof fn law_distance_symmetric(a: Seq<char>, b: Seq<char>)
    ensures
        edit_distance(a, b) == edit_distance(b, a),
    decreases a.len() + b.len(),
{
    if a.len() > 0 && b.len() > 0 {
        law_distance_symmetric(a.drop_last(), b.drop_last());
        law_distance_symmetric(a.drop_last(), b);
        law_distance_symmetric(a, b.drop_last());
    }
}

/// Only a text itself is at the distance zero.
pub proof fn law_distance_zero(a: Seq<char>, b: Seq<char>)
    ensures
        edit_distance(a, b) == 0 <==> a == b,
    decreases a.len() + b.len(),
{
    if a.len() == 0 || b.len() == 0 {
        if a.len() == b.len() {
            assert(a =~= b);
        }
    } else {
        law_distance_zero(a.drop_last(), b.drop_last());
        assert(a =~= a.drop_last().push(a.last()));
        assert(b =~= b.drop_last().push(b.last()));
        if a == b {
            assert(edit_distance(a.drop_last(), b.drop_last()) == 0);
        }
    }
}

/// The least number of characters to insert, delete or replace to turn `a` into `b`.
pub fn levenshtein(a: &str, b: &str) -> (r: usize)
    ensures
        r == edit_distance(a@, b@),
{
    let x: Vec<char> = chars_of(a);
    let y: Vec<char> = chars_of(b);
    // The distances from what has been read of `a` to each beginning of `b`, without the empty
    // one.
    let mut row: Vec<u128> = Vec::new();
    let mut j: usize = 0;
    while j < y.len()
        invariant
            j <= y@.len(),
            row@.len() == j,
            forall|k: int| 0 <= k < j ==> #[trigger] row@[k] == k + 1,
        decreases y@.len() - j,
    {
        row.push(j as u128 + 1);
        j += 1;
    }
    let mut i: usize = 0;
    assert forall|k: int| 0 <= k < y@.len() implies #[trigger] row@[k] == edit_distance(
        x@.take(0),
        y@.take(k + 1),
    ) by {}
    while i < x.len()
        invariant
            i <= x@.len(),
            row@.len() == y@.len(),
            forall|k: int|
                0 <= k < y@.len() ==> #[trigger] row@[k] == edit_distance(
                    x@.take(i as int),
                    y@.take(k + 1),
                ),
        decreases x@.len() - i,
    {
        let ghost read = x@.take(i as int);
        let ghost more = x@.take(i + 1);
        let mut diagonal: u128 = i as u128;
        let mut left: u128 = i as u128 + 1;
        let mut j: usize = 0;
        assert(more.drop_last() =~= read);
        while j < y.len()
            invariant
                i < x@.len(),
                j <= y@.len(),
                row@.len() == y@.len(),
                read == x@.take(i as int),
                more == x@.take(i + 1),
                more.drop_last() == read,
                diagonal == edit_distance(read, y@.take(j as int)),
                left == edit_distance(more, y@.take(j as int)),
                forall|k: int|
                    0 <= k < j ==> #[trigger] row@[k] == edit_distance(more, y@.take(k + 1)),
                forall|k: int|
                    j <= k < y@.len() ==> #[trigger] row@[k] == edit_distance(read, y@.take(k + 1)),
            decreases y@.len() - j,
        {
            let up: u128 = row[j];
            proof {
                assert(y@.take(j + 1).drop_last() =~= y@.take(j as int));
                lemma_distance_bound(read, y@.take(j as int));
                lemma_distance_bound(read, y@.take(j + 1));
                lemma_distance_bound(more, y@.take(j as int));
                assert(more.last() == x@[i as int]);
                assert(y@.take(j + 1).last() == y@[j as int]);
            }
            let replaced: u128 = if x[i] == y[j] {
                diagonal
            } else {
                diagonal + 1
            };
            let mut least: u128 = replaced;
            if up + 1 < least {
                least = up + 1;
            }
            if left + 1 < least {
                least = left + 1;
            }
            row.set(j, least);
            diagonal = up;
            left = least;
            j += 1;
        }
        i += 1;
    }
    proof {
        assert(x@.take(i as int) =~= x@);
        assert(y@.take(y@.len() as int) =~= y@);
        lemma_distance_bound(a@, b@);
    }
    if y.len() == 0 {
        x.len()
    } else {
        row[y.len() - 1] as usize
    }
}

/// Whether the candidate at `at` is the first of those closest to `name`.
pub open spec fn is_closest(name: Seq<char>, candidates: Seq<Seq<char>>, at: int) -> bool {
    &&& 0 <= at < candidates.len()
    &&& forall|j: int|
        0 <= j < candidates.len() ==> edit_distance(name, candidates[at]) <= edit_distance(
            name,
            #[trigger] candidates[j],
        )
    &&& forall|j: int|
        0 <= j < at ==> edit_distance(name, candidates[at]) < edit_distance(
            name,
            #[trigger] candidates[j],
        )
}

/// How far apart two names may be for one to count as the other mistyped: about one edit for
/// three bytes, and at least one.
pub open spec fn tolerance(name: Seq<char>) -> nat {
    if text::byte_len(name) / 3 >= 1 {
        text::byte_len(name) / 3
    } else {
        1
    }
}

/// Whether the candidate at `at` is what `name` may have meant.
pub open spec fn is_suggestion(name: Seq<char>, candidates: Seq<Seq<char>>, at: int) -> bool {
    is_closest(name, candidates, at) && edit_distance(name, candidates[at]) <= tolerance(name)
}

/// The known name that `name` may have meant, if one is close enough.
pub open spec fn suggested(name: Seq<char>, candidates: Seq<Seq<char>>) -> Option<Seq<char>> {
    if exists|at: int| is_suggestion(name, candidates, at) {
        Some(candidates[choose|at: int| is_suggestion(name, candidates, at)])
    } else {
        None
    }
}

/// There is at most one place of a suggestion.
proof fn lemma_one_suggestion(name: Seq<char>, candidates: Seq<Seq<char>>, a: int, b: int)
    requires
        is_closest(name, candidates, a),
        is_closest(name, candidates, b),
    ensures
        a == b,
{
    if a < b {
        assert(edit_distance(name, candidates[b]) < edit_distance(name, candidates[a]));
    } else if b < a {
        assert(edit_distance(name, candidates[a]) < edit_distance(name, candidates[b]));
    }
}

/// The known name that `name` may have meant: the first of those closest to it, if it is close
/// enough to count as mistyped.
pub fn suggestion<'a>(name: &str, candidates: &'a [String]) -> (r: Option<&'a String>)
    ensures
        match r {
            Some(s) => suggested(name@, text::texts(candidates@)) == Some(s@),
            None => suggested(name@, text::texts(candidates@)) is None,
        },
{
    let ghost all = text::texts(candidates@);
    if candidates.len() == 0 {
        return None;
    }
    let mut best: usize = 0;
    let mut least: usize = levenshtein(name, candidates[0].as_str());
    let mut i: usize = 1;
    assert(all[0] == candidates@[0]@);
    while i < candidates.len()
        invariant
            best < i <= candidates@.len(),
            all == text::texts(candidates@),
            least == edit_distance(name@, all[best as int]),
            forall|j: int| 0 <= j < i ==> least <= edit_distance(name@, #[trigger] all[j]),
            forall|j: int| 0 <= j < best ==> least < edit_distance(name@, #[trigger] all[j]),
        decreases candidates@.len() - i,
    {
        let d: usize = levenshtein(name, candidates[i].as_str());
        assert(all[i as int] == candidates@[i as int]@);
        if d < least {
            least = d;
            best = i;
        }
        i += 1;
    }
    let third: u128 = count_bytes(chars_of(name).as_slice()) / 3;
    let allowed: u128 = if third >= 1 {
        third
    } else {
        1
    };
    proof {
        assert(is_closest(name@, all, best as int));
        assert forall|at: int| is_suggestion(name@, all, at) implies at == best by {
            lemma_one_suggestion(name@, all, at, best as int);
        }
    }
    if least as u128 <= allowed {
        assert(is_suggestion(name@, all, best as int));
        Some(&candidates[best])
    } else {
        None
    }
}

}
