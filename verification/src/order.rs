//! The order of names: by code points, a name before its extensions.
use crate::text;
use crate::text::{chars_of, same_text};
use vstd::prelude::*;

verus! {

/// Whether `a` stands no later than `b`.
pub open spec fn text_le(a: Seq<char>, b: Seq<char>) -> bool
    decreases a.len(),
{
    if a.len() == 0 {
        true
    } else if b.len() == 0 {
        false
    } else if a[0] != b[0] {
        (a[0] as int) < (b[0] as int)
    } else {
        text_le(a.skip(1), b.skip(1))
    }
}

/// Whether a list of names is in order, each name once.
pub open spec fn ascending(s: Seq<Seq<char>>) -> bool {
    forall|i: int, j: int|
        0 <= i < j < s.len() ==> text_le(#[trigger] s[i], #[trigger] s[j]) && s[i] != s[j]
}

pub proof fn lemma_le_total(a: Seq<char>, b: Seq<char>)
    ensures
        text_le(a, b) || text_le(b, a),
    decreases a.len(),
{
    if a.len() > 0 && b.len() > 0 && a[0] == b[0] {
        lemma_le_total(a.skip(1), b.skip(1));
    }
}

pub proof fn lemma_le_antisymmetric(a: Seq<char>, b: Seq<char>)
    requires
        text_le(a, b),
        text_le(b, a),
    ensures
        a == b,
    decreases a.len(),
{
    if a.len() == 0 {
        assert(a =~= b);
    } else if b.len() > 0 {
        lemma_le_antisymmetric(a.skip(1), b.skip(1));
        assert(a =~= seq![a[0]] + a.skip(1));
        assert(b =~= seq![b[0]] + b.skip(1));
    }
}

pub proof fn lemma_le_transitive(a: Seq<char>, b: Seq<char>, c: Seq<char>)
    requires
        text_le(a, b),
        text_le(b, c),
    ensures
        text_le(a, c),
    decreases a.len(),
{
    if a.len() > 0 && b.len() > 0 && c.len() > 0 && a[0] == b[0] && b[0] == c[0] {
        lemma_le_transitive(a.skip(1), b.skip(1), c.skip(1));
    }
}

/// Names in order are distinct.
pub proof fn lemma_ascending_distinct(s: Seq<Seq<char>>)
    requires
        ascending(s),
    ensures
        s.no_duplicates(),
{
    assert forall|i: int, j: int| 0 <= i < s.len() && 0 <= j < s.len() && i != j implies s[i]
        != s[j] by {
        if i < j {
        } else {
            assert(s[j] != s[i]);
        }
    }
}

/// Only one list in order holds a given set of names.
pub proof fn lemma_ascending_unique(s: Seq<Seq<char>>, t: Seq<Seq<char>>)
    requires
        ascending(s),
        ascending(t),
        s.to_set() == t.to_set(),
    ensures
        s == t,
    decreases s.len(),
{
    if s.len() == 0 {
        if t.len() > 0 {
            assert(t.to_set().contains(t[0]));
            assert(s.contains(t[0]));
        }
        assert(s =~= t);
    } else {
        assert(s.to_set().contains(s.last()));
        assert(t.contains(s.last()));
        assert(t.to_set().contains(t.last()));
        assert(s.contains(t.last()));
        let i: int = choose|i: int| 0 <= i < t.len() && t[i] == s.last();
        let j: int = choose|j: int| 0 <= j < s.len() && s[j] == t.last();
        if s.last() != t.last() {
            assert(text_le(t[i], t[t.len() - 1]));
            assert(text_le(s[j], s[s.len() - 1]));
            lemma_le_antisymmetric(s.last(), t.last());
        }
        let s1 = s.drop_last();
        let t1 = t.drop_last();
        assert forall|x: Seq<char>| s1.to_set().contains(x) == t1.to_set().contains(x) by {
            if s1.contains(x) {
                let k: int = choose|k: int| 0 <= k < s1.len() && s1[k] == x;
                assert(s[k] == x && s[k] != s[s.len() - 1]);
                assert(s.contains(x));
                assert(s.to_set().contains(x));
                assert(t.contains(x));
                let m: int = choose|m: int| 0 <= m < t.len() && t[m] == x;
                assert(t1[m] == x);
            }
            if t1.contains(x) {
                let k: int = choose|k: int| 0 <= k < t1.len() && t1[k] == x;
                assert(t[k] == x && t[k] != t[t.len() - 1]);
                assert(t.contains(x));
                assert(t.to_set().contains(x));
                assert(s.contains(x));
                let m: int = choose|m: int| 0 <= m < s.len() && s[m] == x;
                assert(s1[m] == x);
            }
        }
        assert(s1.to_set() =~= t1.to_set());
        assert(ascending(s1)) by {
            assert forall|i: int, j: int| 0 <= i < j < s1.len() implies text_le(
                #[trigger] s1[i],
                #[trigger] s1[j],
            ) && s1[i] != s1[j] by {
                assert(s[i] == s1[i] && s[j] == s1[j]);
            }
        }
        assert(ascending(t1)) by {
            assert forall|i: int, j: int| 0 <= i < j < t1.len() implies text_le(
                #[trigger] t1[i],
                #[trigger] t1[j],
            ) && t1[i] != t1[j] by {
                assert(t[i] == t1[i] && t[j] == t1[j]);
            }
        }
        lemma_ascending_unique(s1, t1);
        assert(s =~= s1.push(s.last()));
        assert(t =~= t1.push(t.last()));
    }
}

/// The names of a finite set in order.
pub open spec fn in_order(names: Set<Seq<char>>) -> Seq<Seq<char>> {
    choose|s: Seq<Seq<char>>| ascending(s) && #[trigger] s.to_set() == names
}

/// A list in order is the list in order of its names.
pub proof fn lemma_in_order(s: Seq<Seq<char>>)
    requires
        ascending(s),
    ensures
        in_order(s.to_set()) == s,
{
    let t = in_order(s.to_set());
    assert(ascending(s) && s.to_set() == s.to_set());
    lemma_ascending_unique(s, t);
}

/// Every finite set of names has a list in order.
pub proof fn lemma_in_order_exists(names: Set<Seq<char>>)
    requires
        names.finite(),
    ensures
        ascending(in_order(names)),
        in_order(names).to_set() == names,
    decreases names.len(),
{
    if names.len() == 0 {
        let s = Seq::<Seq<char>>::empty();
        assert(s.to_set() =~= names);
        assert(ascending(s));
        lemma_in_order(s);
    } else {
        let x = names.choose();
        let rest = names.remove(x);
        lemma_in_order_exists(rest);
        let s = in_order(rest);
        let at = lemma_place(s, x, 0);
        assert forall|j: int| 0 <= j < s.len() implies #[trigger] s[j] != x by {
            assert(s.to_set().contains(s[j]));
        }
        lemma_ascending_insert(s, at, x);
        let t = s.insert(at, x);
        assert(t.to_set() =~= names);
        lemma_in_order(t);
    }
}

/// Where a name belongs in a list in order.
proof fn lemma_place(s: Seq<Seq<char>>, x: Seq<char>, from: int) -> (at: int)
    requires
        ascending(s),
        0 <= from <= s.len(),
        forall|j: int| 0 <= j < from ==> text_le(#[trigger] s[j], x),
    ensures
        0 <= at <= s.len(),
        forall|j: int| 0 <= j < at ==> text_le(#[trigger] s[j], x),
        forall|j: int| at <= j < s.len() ==> text_le(x, #[trigger] s[j]),
    decreases s.len() - from,
{
    if from == s.len() {
        from
    } else if text_le(s[from], x) {
        lemma_place(s, x, from + 1)
    } else {
        lemma_le_total(s[from], x);
        assert forall|j: int| from <= j < s.len() implies text_le(x, #[trigger] s[j]) by {
            if j > from {
                assert(text_le(s[from], s[j]));
                lemma_le_transitive(x, s[from], s[j]);
            }
        }
        from
    }
}

/// A name put at the place where it belongs keeps a list in order.
pub proof fn lemma_ascending_insert(s: Seq<Seq<char>>, at: int, x: Seq<char>)
    requires
        ascending(s),
        0 <= at <= s.len(),
        forall|j: int| 0 <= j < at ==> text_le(#[trigger] s[j], x) && s[j] != x,
        forall|j: int| at <= j < s.len() ==> text_le(x, #[trigger] s[j]) && s[j] != x,
    ensures
        ascending(s.insert(at, x)),
        s.insert(at, x).to_set() == s.to_set().insert(x),
{
    let t = s.insert(at, x);
    assert forall|i: int, j: int| 0 <= i < j < t.len() implies text_le(
        #[trigger] t[i],
        #[trigger] t[j],
    ) && t[i] != t[j] by {
        let a: int = if i < at {
            i
        } else {
            i - 1
        };
        let b: int = if j < at {
            j
        } else {
            j - 1
        };
        if i != at {
            assert(t[i] == s[a]);
        }
        if j != at {
            assert(t[j] == s[b]);
        }
    }
    assert forall|y: Seq<char>| t.to_set().contains(y) == s.to_set().insert(x).contains(y) by {
        if t.contains(y) {
            let i: int = choose|i: int| 0 <= i < t.len() && t[i] == y;
            if i < at {
                assert(s[i] == y);
            } else if i > at {
                assert(s[i - 1] == y);
            }
        }
        if s.contains(y) {
            let i: int = choose|i: int| 0 <= i < s.len() && s[i] == y;
            if i < at {
                assert(t[i] == y);
            } else {
                assert(t[i + 1] == y);
            }
        }
        if y == x {
            assert(t[at] == y);
        }
    }
    assert(t.to_set() =~= s.to_set().insert(x));
}

/// Taking a name out keeps a list in order.
pub proof fn lemma_ascending_remove(s: Seq<Seq<char>>, at: int)
    requires
        ascending(s),
        0 <= at < s.len(),
    ensures
        ascending(s.remove(at)),
        s.remove(at).to_set() == s.to_set().remove(s[at]),
{
    let t = s.remove(at);
    assert forall|i: int, j: int| 0 <= i < j < t.len() implies text_le(
        #[trigger] t[i],
        #[trigger] t[j],
    ) && t[i] != t[j] by {
        let a: int = if i < at {
            i
        } else {
            i + 1
        };
        let b: int = if j < at {
            j
        } else {
            j + 1
        };
        assert(t[i] == s[a] && t[j] == s[b]);
    }
    lemma_ascending_distinct(s);
    assert forall|y: Seq<char>| t.to_set().contains(y) == s.to_set().remove(s[at]).contains(y) by {
        if t.contains(y) {
            let i: int = choose|i: int| 0 <= i < t.len() && t[i] == y;
            let a: int = if i < at {
                i
            } else {
                i + 1
            };
            assert(s[a] == y);
        }
        if s.contains(y) && y != s[at] {
            let i: int = choose|i: int| 0 <= i < s.len() && s[i] == y;
            let a: int = if i < at {
                i
            } else {
                i - 1
            };
            assert(t[a] == y);
        }
    }
    assert(t.to_set() =~= s.to_set().remove(s[at]));
}

/// Whether `a` stands no later than `b`.
pub fn not_after(a: &str, b: &str) -> (r: bool)
    ensures
        r == text_le(a@, b@),
{
    let x: Vec<char> = chars_of(a);
    let y: Vec<char> = chars_of(b);
    let mut i: usize = 0;
    assert(x@.skip(0) =~= x@);
    assert(y@.skip(0) =~= y@);
    while i < x.len() && i < y.len()
        invariant
            i <= x@.len(),
            i <= y@.len(),
            x@ == a@,
            y@ == b@,
            text_le(a@, b@) == text_le(x@.skip(i as int), y@.skip(i as int)),
        decreases x@.len() - i,
    {
        if x[i] != y[i] {
            return x[i] < y[i];
        }
        assert(x@.skip(i as int).skip(1) =~= x@.skip(i + 1));
        assert(y@.skip(i as int).skip(1) =~= y@.skip(i + 1));
        i += 1;
    }
    i >= x.len()
}

/// Where `name` belongs in a list that is in order, and whether it is there.
pub fn place_of(list: &[String], name: &str) -> (r: (usize, bool))
    requires
        ascending(text::texts(list@)),
    ensures
        r.0 <= list@.len(),
        r.1 == text::texts(list@).contains(name@),
        r.1 ==> r.0 < list@.len() && text::texts(list@)[r.0 as int] == name@,
        forall|j: int|
            0 <= j < r.0 ==> text_le(#[trigger] text::texts(list@)[j], name@) && text::texts(list@)[j] != name@,
        !r.1 ==> forall|j: int|
            r.0 <= j < list@.len() ==> text_le(name@, #[trigger] text::texts(list@)[j])
                && text::texts(list@)[j] != name@,
{
    let mut i: usize = 0;
    while i < list.len()
        invariant
            i <= list@.len(),
            ascending(text::texts(list@)),
            forall|j: int|
                0 <= j < i ==> text_le(#[trigger] text::texts(list@)[j], name@) && text::texts(list@)[j]
                    != name@,
        decreases list@.len() - i,
    {
        if same_text(list[i].as_str(), name) {
            assert(text::texts(list@)[i as int] == name@);
            return (i, true);
        }
        if not_after(name, list[i].as_str()) {
            proof {
                let t = text::texts(list@);
                assert(t[i as int] == list@[i as int]@);
                assert forall|j: int| i <= j < t.len() implies text_le(name@, #[trigger] t[j])
                    && t[j] != name@ by {
                    if j > i {
                        assert(text_le(t[i as int], t[j]));
                        lemma_le_transitive(name@, t[i as int], t[j]);
                        if t[j] == name@ {
                            lemma_le_antisymmetric(name@, t[i as int]);
                        }
                    }
                }
            }
            return (i, false);
        }
        proof {
            lemma_le_total(name@, list@[i as int]@);
            assert(text::texts(list@)[i as int] == list@[i as int]@);
        }
        i += 1;
    }
    (i, false)
}

/// What is left of a list in order is in order.
pub proof fn lemma_ascending_filter(list: Seq<Seq<char>>, f: spec_fn(Seq<char>) -> bool)
    requires
        ascending(list),
    ensures
        ascending(list.filter(f)),
    decreases list.len(),
{
    reveal(Seq::filter);
    if list.len() > 0 {
        let short = list.drop_last();
        assert(ascending(short)) by {
            assert forall|i: int, j: int| 0 <= i < j < short.len() implies text_le(
                #[trigger] short[i],
                #[trigger] short[j],
            ) && short[i] != short[j] by {
                assert(short[i] == list[i] && short[j] == list[j]);
            }
        }
        lemma_ascending_filter(short, f);
        let kept = short.filter(f);
        let all = list.filter(f);
        assert forall|i: int, j: int| 0 <= i < j < all.len() implies text_le(
            #[trigger] all[i],
            #[trigger] all[j],
        ) && all[i] != all[j] by {
            assert(all[i] == kept[i]);
            assert(kept.contains(kept[i]));
            short.lemma_filter_contains_rev(f, kept[i]);
            let m: int = choose|m: int| 0 <= m < short.len() && short[m] == kept[i];
            assert(list[m] == kept[i]);
            if j < kept.len() {
                assert(all[j] == kept[j]);
            } else {
                assert(all[j] == list[list.len() - 1]);
            }
        }
    }
}

/// Names are ordered by the first place where they differ: the one with the lesser character comes
/// first, and a name comes before its extensions.
pub proof fn law_first_difference_decides(
    common: Seq<char>,
    a: char,
    b: char,
    rest_a: Seq<char>,
    rest_b: Seq<char>,
)
    ensures
        a != b ==> (text_le(common + seq![a] + rest_a, common + seq![b] + rest_b) <==> (a as int)
            < (b as int)),
        text_le(common, common + rest_a),
        rest_a.len() > 0 ==> !text_le(common + rest_a, common),
    decreases common.len(),
{
    let x = common + seq![a] + rest_a;
    let y = common + seq![b] + rest_b;
    let longer = common + rest_a;
    if common.len() == 0 {
        assert(x[0] == a && y[0] == b);
        assert(longer =~= rest_a);
    } else {
        let tail = common.skip(1);
        law_first_difference_decides(tail, a, b, rest_a, rest_b);
        assert(x[0] == common[0] && y[0] == common[0] && longer[0] == common[0]);
        assert(x.skip(1) =~= tail + seq![a] + rest_a);
        assert(y.skip(1) =~= tail + seq![b] + rest_b);
        assert(longer.skip(1) =~= tail + rest_a);
    }
}

}
