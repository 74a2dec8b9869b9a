//! Sets of names and maps from names, kept in the order of the names.
use crate::order;
use crate::order::place_of;
use crate::text;
use crate::text::copy_texts;
use vstd::prelude::*;

verus! {

/// A set of names.
#[derive(Debug)]
pub struct NameSet {
    names: Vec<String>,
}

impl View for NameSet {
    type V = Set<Seq<char>>;

    closed spec fn view(&self) -> Set<Seq<char>> {
        text::texts(self.names@).to_set()
    }
}

impl NameSet {
    /// The names are in order, each once.
    pub closed spec fn wf(&self) -> bool {
        order::ascending(text::texts(self.names@))
    }

    /// The empty set.
    pub fn new() -> (r: NameSet)
        ensures
            r.wf(),
            r@ == Set::<Seq<char>>::empty(),
    {
        let r = NameSet { names: Vec::new() };
        assert(r@ =~= Set::<Seq<char>>::empty());
        r
    }

    /// The names of a list.
    pub fn from_list(list: &[String]) -> (r: NameSet)
        ensures
            r.wf(),
            r@ == text::texts(list@).to_set(),
    {
        let mut r = NameSet::new();
        let mut i: usize = 0;
        assert(text::texts(list@).take(0).to_set() =~= Set::<Seq<char>>::empty());
        while i < list.len()
            invariant
                i <= list@.len(),
                r.wf(),
                r@ == text::texts(list@).take(i as int).to_set(),
            decreases list@.len() - i,
        {
            let _ = r.insert(list[i].clone());
            proof {
                lemma_take_to_set(text::texts(list@), i as int);
                assert(text::texts(list@)[i as int] == list@[i as int]@);
            }
            i += 1;
        }
        assert(text::texts(list@).take(i as int) =~= text::texts(list@));
        r
    }

    /// Whether `name` is in the set.
    pub fn contains(&self, name: &str) -> (r: bool)
        requires
            self.wf(),
        ensures
            r == self@.contains(name@),
    {
        place_of(self.names.as_slice(), name).1
    }

    /// Adds `name`; says whether it was new.
    pub fn insert(&mut self, name: String) -> (r: bool)
        requires
            old(self).wf(),
        ensures
            final(self).wf(),
            final(self)@ == old(self)@.insert(name@),
            r == !old(self)@.contains(name@),
    {
        let (at, found) = place_of(self.names.as_slice(), name.as_str());
        if found {
            assert(self@.insert(name@) =~= self@);
            false
        } else {
            proof {
                order::lemma_ascending_insert(text::texts(self.names@), at as int, name@);
                assert(text::texts(self.names@.insert(at as int, name)) =~= text::texts(self.names@).insert(
                    at as int,
                    name@,
                ));
            }
            self.names.insert(at, name);
            true
        }
    }

    /// Takes `name` out of the set, if it is there.
    pub fn remove(&mut self, name: &str)
        requires
            old(self).wf(),
        ensures
            final(self).wf(),
            final(self)@ == old(self)@.remove(name@),
    {
        let (at, found) = place_of(self.names.as_slice(), name);
        if found {
            proof {
                order::lemma_ascending_remove(text::texts(self.names@), at as int);
                assert(text::texts(self.names@.remove(at as int)) =~= text::texts(self.names@).remove(
                    at as int,
                ));
            }
            let _ = self.names.remove(at);
        } else {
            assert(self@.remove(name@) =~= self@);
        }
    }

    /// The number of names.
    pub fn len(&self) -> (r: usize)
        requires
            self.wf(),
        ensures
            self@.finite(),
            r == self@.len(),
    {
        proof {
            self.lemma_count();
        }
        self.names.len()
    }

    /// Whether the set is empty.
    pub fn is_empty(&self) -> (r: bool)
        requires
            self.wf(),
        ensures
            r == (self@ == Set::<Seq<char>>::empty()),
    {
        proof {
            if self.names@.len() == 0 {
                assert(self@ =~= Set::<Seq<char>>::empty());
            } else {
                assert(text::texts(self.names@)[0] == self.names@[0]@);
                assert(self@.contains(self.names@[0]@));
            }
        }
        self.names.len() == 0
    }

    /// The names in order.
    pub fn as_list(&self) -> (r: &Vec<String>)
        requires
            self.wf(),
        ensures
            text::texts(r@) == order::in_order(self@),
            order::ascending(text::texts(r@)),
            text::texts(r@).no_duplicates(),
            text::texts(r@).to_set() == self@,
    {
        proof {
            order::lemma_ascending_distinct(text::texts(self.names@));
            order::lemma_in_order(text::texts(self.names@));
        }
        &self.names
    }

    /// The names in order.
    pub fn into_list(self) -> (r: Vec<String>)
        requires
            self.wf(),
        ensures
            text::texts(r@) == order::in_order(self@),
            order::ascending(text::texts(r@)),
            text::texts(r@).no_duplicates(),
            text::texts(r@).to_set() == self@,
    {
        proof {
            order::lemma_ascending_distinct(text::texts(self.names@));
            order::lemma_in_order(text::texts(self.names@));
        }
        self.names
    }

    /// A set of names is finite.
    pub proof fn lemma_finite(&self)
        requires
            self.wf(),
        ensures
            self@.finite(),
    {
        self.lemma_count();
    }

    /// A copy of the set.
    pub fn copy(&self) -> (r: NameSet)
        requires
            self.wf(),
        ensures
            r.wf(),
            r@ == self@,
    {
        NameSet { names: copy_texts(self.names.as_slice()) }
    }

    proof fn lemma_count(&self)
        requires
            self.wf(),
        ensures
            self@.finite(),
            self@.len() == self.names@.len(),
    {
        order::lemma_ascending_distinct(text::texts(self.names@));
        text::texts(self.names@).unique_seq_to_set();
    }
}

/// One more element of a list is one more element of its set.
pub proof fn lemma_take_to_set<A>(s: Seq<A>, i: int)
    requires
        0 <= i < s.len(),
    ensures
        s.take(i + 1).to_set() == s.take(i).to_set().insert(s[i]),
{
    let a = s.take(i + 1);
    let b = s.take(i);
    assert forall|x: A| a.to_set().contains(x) == b.to_set().insert(s[i]).contains(x) by {
        if a.contains(x) {
            let k: int = choose|k: int| 0 <= k < a.len() && a[k] == x;
            if k < i {
                assert(b[k] == x);
            }
        }
        if b.contains(x) {
            let k: int = choose|k: int| 0 <= k < b.len() && b[k] == x;
            assert(a[k] == x);
        }
        if x == s[i] {
            assert(a[i] == x);
        }
    }
    assert(a.to_set() =~= b.to_set().insert(s[i]));
}

/// The map of a list of names and values; of two values for one name the later counts.
pub open spec fn pairs_map<V>(pairs: Seq<(String, V)>) -> Map<Seq<char>, V>
    decreases pairs.len(),
{
    if pairs.len() == 0 {
        Map::empty()
    } else {
        pairs_map(pairs.drop_last()).insert(pairs.last().0@, pairs.last().1)
    }
}

/// A map from names.
#[derive(Debug)]
pub struct NameMap<V> {
    keys: Vec<String>,
    values: Vec<V>,
}

impl<V> View for NameMap<V> {
    type V = Map<Seq<char>, V>;

    closed spec fn view(&self) -> Map<Seq<char>, V> {
        Map::new(
            |k: Seq<char>| text::texts(self.keys@).contains(k),
            |k: Seq<char>| self.values@[text::texts(self.keys@).index_of(k)],
        )
    }
}

impl<V> NameMap<V> {
    /// The keys are in order, each once, and each has a value.
    pub closed spec fn wf(&self) -> bool {
        &&& order::ascending(text::texts(self.keys@))
        &&& self.keys@.len() == self.values@.len()
    }

    /// The keys in order.
    pub closed spec fn key_list(&self) -> Seq<Seq<char>> {
        text::texts(self.keys@)
    }

    /// The keys in order are the keys of the map.
    pub proof fn lemma_keys(&self)
        requires
            self.wf(),
        ensures
            order::ascending(self.key_list()),
            self.key_list().no_duplicates(),
            self.key_list().to_set() == self@.dom(),
            self.key_list() == order::in_order(self@.dom()),
            self@.dom().finite(),
            self@.dom().len() == self.key_list().len(),
            forall|k: Seq<char>| #[trigger] self.key_list().contains(k) == self@.contains_key(k),
    {
        order::lemma_ascending_distinct(self.key_list());
        assert(self.key_list().to_set() =~= self@.dom());
        order::lemma_in_order(self.key_list());
        self.key_list().unique_seq_to_set();
    }

    proof fn lemma_at(&self, i: int)
        requires
            self.wf(),
            0 <= i < self.keys@.len(),
        ensures
            text::texts(self.keys@)[i] == self.keys@[i]@,
            self@.contains_key(self.keys@[i]@),
            self@[self.keys@[i]@] == self.values@[i],
    {
        let t = text::texts(self.keys@);
        order::lemma_ascending_distinct(t);
        assert(t[i] == self.keys@[i]@);
        assert(t.contains(t[i]));
        let j: int = t.index_of(t[i]);
        assert(0 <= j < t.len() && t[j] == t[i]);
    }

    /// The empty map.
    pub fn new() -> (r: NameMap<V>)
        ensures
            r.wf(),
            r@ == Map::<Seq<char>, V>::empty(),
    {
        let r = NameMap { keys: Vec::new(), values: Vec::new() };
        assert(r@ =~= Map::<Seq<char>, V>::empty());
        r
    }

    /// The map of a list of names and values; of two values for one name the later counts.
    pub fn from_pairs(pairs: Vec<(String, V)>) -> (r: NameMap<V>)
        ensures
            r.wf(),
            r@ == pairs_map(pairs@),
    {
        let mut rest = pairs;
        let mut turned: Vec<(String, V)> = Vec::new();
        while rest.len() > 0
            invariant
                pairs@ == rest@ + turned@.reverse(),
            decreases rest@.len(),
        {
            let last = rest.pop();
            if let Some(pair) = last {
                turned.push(pair);
                assert(pairs@ =~= rest@ + turned@.reverse());
            }
        }
        let mut r = NameMap::new();
        assert(pairs@.take(0) =~= Seq::empty());
        while turned.len() > 0
            invariant
                r.wf(),
                turned@.len() <= pairs@.len(),
                pairs@ == pairs@.take(pairs@.len() - turned@.len()) + turned@.reverse(),
                r@ == pairs_map(pairs@.take(pairs@.len() - turned@.len())),
            decreases turned@.len(),
        {
            let ghost done = pairs@.len() - turned@.len();
            let next = turned.pop();
            if let Some((name, value)) = next {
                assert(pairs@[done] == (name, value));
                assert(pairs@.take(done + 1).drop_last() =~= pairs@.take(done));
                assert(pairs@ =~= pairs@.take(done + 1) + turned@.reverse());
                r.insert(name, value);
            }
        }
        assert(pairs@.take(pairs@.len() as int) =~= pairs@);
        r
    }

    /// The number of keys.
    pub fn len(&self) -> (r: usize)
        requires
            self.wf(),
        ensures
            r == self.key_list().len(),
            self@.dom().finite(),
            r == self@.dom().len(),
    {
        proof {
            self.lemma_keys();
        }
        self.keys.len()
    }

    /// Whether the map has no keys.
    pub fn is_empty(&self) -> (r: bool)
        requires
            self.wf(),
        ensures
            r == (self@ == Map::<Seq<char>, V>::empty()),
    {
        proof {
            if self.keys@.len() == 0 {
                assert(self@ =~= Map::<Seq<char>, V>::empty());
            } else {
                self.lemma_at(0);
            }
        }
        self.keys.len() == 0
    }

    /// The key at a place of the order.
    pub fn key_at(&self, i: usize) -> (r: &String)
        requires
            self.wf(),
            i < self.key_list().len(),
        ensures
            r@ == self.key_list()[i as int],
            self@.contains_key(r@),
    {
        proof {
            self.lemma_at(i as int);
        }
        &self.keys[i]
    }

    /// The value of the key at a place of the order.
    pub fn value_at(&self, i: usize) -> (r: &V)
        requires
            self.wf(),
            i < self.key_list().len(),
        ensures
            self@.contains_key(self.key_list()[i as int]),
            *r == self@[self.key_list()[i as int]],
    {
        proof {
            self.lemma_at(i as int);
        }
        &self.values[i]
    }

    /// The value of `name`, if it has one.
    pub fn get(&self, name: &str) -> (r: Option<&V>)
        requires
            self.wf(),
        ensures
            match r {
                Some(v) => self@.contains_key(name@) && *v == self@[name@],
                None => !self@.contains_key(name@),
            },
    {
        let (at, found) = place_of(self.keys.as_slice(), name);
        if found {
            proof {
                self.lemma_at(at as int);
            }
            Some(&self.values[at])
        } else {
            None
        }
    }

    /// Whether `name` has a value.
    pub fn contains_key(&self, name: &str) -> (r: bool)
        requires
            self.wf(),
        ensures
            r == self@.contains_key(name@),
    {
        place_of(self.keys.as_slice(), name).1
    }

    /// Gives `name` the value `value`, in place of any that it had.
    pub fn insert(&mut self, name: String, value: V)
        requires
            old(self).wf(),
        ensures
            final(self).wf(),
            final(self)@ == old(self)@.insert(name@, value),
    {
        let (at, found) = place_of(self.keys.as_slice(), name.as_str());
        let ghost before = *self;
        if found {
            self.values.set(at, value);
            proof {
                before.lemma_at(at as int);
                assert forall|k: Seq<char>| before@.contains_key(k) implies self@[k]
                    == before@.insert(name@, value)[k] by {
                    let i: int = text::texts(before.keys@).index_of(k);
                    assert(text::texts(before.keys@)[i] == k);
                    before.lemma_at(i);
                    self.lemma_at(i);
                }
                assert(self@ =~= before@.insert(name@, value));
            }
        } else {
            proof {
                order::lemma_ascending_insert(text::texts(self.keys@), at as int, name@);
                assert(text::texts(self.keys@.insert(at as int, name)) =~= text::texts(self.keys@).insert(
                    at as int,
                    name@,
                ));
            }
            self.keys.insert(at, name);
            self.values.insert(at, value);
            proof {
                let t = text::texts(before.keys@);
                assert(self.key_list() == t.insert(at as int, name@));
                assert forall|k: Seq<char>|
                    self@.contains_key(k) == before@.insert(name@, value).contains_key(k) by {
                    assert(self.key_list().to_set().contains(k) == t.to_set().insert(
                        name@,
                    ).contains(k));
                }
                assert forall|k: Seq<char>| self@.contains_key(k) implies self@[k]
                    == before@.insert(name@, value)[k] by {
                    let i: int = text::texts(self.keys@).index_of(k);
                    assert(text::texts(self.keys@)[i] == k);
                    self.lemma_at(i);
                    if i < at {
                        before.lemma_at(i);
                        assert(t[i] == k);
                    } else if i > at {
                        before.lemma_at(i - 1);
                        assert(t[i - 1] == k);
                    }
                }
                assert(self@ =~= before@.insert(name@, value));
            }
        }
    }

    /// The value of `name`, to be changed in place.
    pub fn get_mut(&mut self, name: &str) -> (r: Option<&mut V>)
        requires
            old(self).wf(),
        ensures
            final(self).wf(),
            match r {
                Some(v) => {
                    &&& old(self)@.contains_key(name@)
                    &&& *v == old(self)@[name@]
                    &&& final(self)@ == old(self)@.insert(name@, *final(v))
                    &&& final(self).key_list() == old(self).key_list()
                },
                None => !old(self)@.contains_key(name@) && *final(self) == *old(self),
            },
    {
        let (at, found) = place_of(self.keys.as_slice(), name);
        let ghost before = *self;
        if found {
            proof {
                before.lemma_at(at as int);
            }
            let r: &mut V = &mut self.values[at];
            Some(r)
        } else {
            None
        }
    }
}

/// The lists of a map, each as a sequence of names.
pub open spec fn lists_of(m: Map<Seq<char>, Vec<String>>) -> Map<Seq<char>, Seq<Seq<char>>> {
    m.map_values(|v: Vec<String>| text::texts(v@))
}

/// The sets of a map, each as a set of names.
pub open spec fn sets_of(m: Map<Seq<char>, NameSet>) -> Map<Seq<char>, Set<Seq<char>>> {
    m.map_values(|s: NameSet| s@)
}

/// Whether every set of a map is well formed.
pub open spec fn sets_wf(m: Map<Seq<char>, NameSet>) -> bool {
    forall|k: Seq<char>| m.contains_key(k) ==> (#[trigger] m[k]).wf()
}

/// The list of `name`, empty where it has none.
pub open spec fn list_for(m: Map<Seq<char>, Seq<Seq<char>>>, name: Seq<char>) -> Seq<Seq<char>> {
    if m.contains_key(name) {
        m[name]
    } else {
        Seq::empty()
    }
}

/// The set of `name`, empty where it has none.
pub open spec fn set_for(m: Map<Seq<char>, Set<Seq<char>>>, name: Seq<char>) -> Set<Seq<char>> {
    if m.contains_key(name) {
        m[name]
    } else {
        Set::empty()
    }
}

/// What one more element of a list adds to what it holds.
pub proof fn lemma_take_contains(s: Seq<Seq<char>>, i: int)
    requires
        0 <= i < s.len(),
    ensures
        forall|x: Seq<char>| #[trigger]
            s.take(i + 1).contains(x) <==> s.take(i).contains(x) || x == s[i],
{
    lemma_take_to_set(s, i);
    assert forall|x: Seq<char>| #[trigger]
        s.take(i + 1).contains(x) <==> s.take(i).contains(x) || x == s[i] by {
        assert(s.take(i + 1).to_set().contains(x) == s.take(i).to_set().insert(s[i]).contains(x));
    }
}

/// What a pushed element adds to what a list holds.
pub proof fn lemma_push_contains(s: Seq<Seq<char>>, y: Seq<char>, x: Seq<char>)
    ensures
        s.push(y).contains(x) <==> s.contains(x) || x == y,
{
    let p = s.push(y);
    assert(p[s.len() as int] == y);
    if s.contains(x) {
        let k: int = choose|k: int| 0 <= k < s.len() && s[k] == x;
        assert(p[k] == x);
    }
    if p.contains(x) {
        let k: int = choose|k: int| 0 <= k < p.len() && p[k] == x;
        if k < s.len() {
            assert(s[k] == x);
        }
    }
}

/// What a pushed element adds to the set of a list.
pub proof fn lemma_push_set(s: Seq<Seq<char>>, y: Seq<char>)
    ensures
        s.push(y).to_set() == s.to_set().insert(y),
{
    assert forall|x: Seq<char>| s.push(y).to_set().contains(x) == s.to_set().insert(y).contains(
        x,
    ) by {
        lemma_push_contains(s, y, x);
    }
    assert(s.push(y).to_set() =~= s.to_set().insert(y));
}

/// What two lists hold together.
pub proof fn lemma_sum_contains(a: Seq<Seq<char>>, b: Seq<Seq<char>>, x: Seq<char>)
    ensures
        (a + b).contains(x) <==> a.contains(x) || b.contains(x),
{
    let s = a + b;
    if a.contains(x) {
        let k: int = choose|k: int| 0 <= k < a.len() && a[k] == x;
        assert(s[k] == x);
    }
    if b.contains(x) {
        let k: int = choose|k: int| 0 <= k < b.len() && b[k] == x;
        assert(s[a.len() + k] == x);
    }
    if s.contains(x) {
        let k: int = choose|k: int| 0 <= k < s.len() && s[k] == x;
        if k < a.len() {
            assert(a[k] == x);
        } else {
            assert(b[k - a.len()] == x);
        }
    }
}

/// What is left to visit grows smaller.
pub proof fn lemma_less_left(all: Set<Seq<char>>, before: Set<Seq<char>>, after: Set<Seq<char>>, x: Seq<char>)
    requires
        all.finite(),
        before.subset_of(after),
        all.contains(x),
        !before.contains(x),
        after.contains(x),
    ensures
        all.difference(after).len() < all.difference(before).len(),
{
    let small = all.difference(after);
    let large = all.difference(before);
    vstd::set_lib::lemma_set_subset_finite(all, large);
    vstd::set_lib::lemma_set_subset_finite(all, small);
    assert(small.subset_of(large.remove(x)));
    vstd::set_lib::lemma_len_subset(small, large.remove(x));
}

/// What is left of a list after filtering: what was in it and passes.
pub proof fn lemma_filter_holds(list: Seq<Seq<char>>, f: spec_fn(Seq<char>) -> bool, t: Seq<char>)
    ensures
        list.filter(f).contains(t) <==> list.contains(t) && f(t),
    decreases list.len(),
{
    reveal(Seq::filter);
    if list.len() > 0 {
        let head = list.drop_last();
        lemma_filter_holds(head, f, t);
        assert(list =~= head.push(list.last()));
        lemma_push_contains(head, list.last(), t);
        lemma_push_contains(head.filter(f), list.last(), t);
    }
}

/// What is left of a list after filtering stands in the order of the list.
pub proof fn lemma_filter_order(
    list: Seq<Seq<char>>,
    f: spec_fn(Seq<char>) -> bool,
    i: int,
    j: int,
)
    requires
        list.no_duplicates(),
        0 <= i < j < list.filter(f).len(),
    ensures
        list.contains(list.filter(f)[i]),
        list.contains(list.filter(f)[j]),
        list.index_of(list.filter(f)[i]) < list.index_of(list.filter(f)[j]),
    decreases list.len(),
{
    reveal(Seq::filter);
    let short = list.drop_last();
    let kept = list.filter(f);
    lemma_filter_holds(list, f, kept[i]);
    lemma_filter_holds(list, f, kept[j]);
    assert(kept.contains(kept[i]));
    assert(kept.contains(kept[j]));
    assert(short.no_duplicates());
    lemma_filter_holds(short, f, kept[i]);
    assert(short.filter(f)[i] == kept[i]);
    assert(short.filter(f).contains(kept[i]));
    lemma_index_short(list, kept[i]);
    if j < short.filter(f).len() {
        lemma_filter_order(short, f, i, j);
        lemma_filter_holds(short, f, kept[j]);
        assert(short.filter(f)[j] == kept[j]);
        assert(short.filter(f).contains(kept[j]));
        lemma_index_short(list, kept[j]);
    } else {
        assert(kept[j] == list.last());
        assert(list[list.index_of(kept[j])] == kept[j]);
        assert(list[list.len() - 1] == kept[j]);
    }
}

/// A name of a list without its last one stands where it stood.
proof fn lemma_index_short(list: Seq<Seq<char>>, x: Seq<char>)
    requires
        list.no_duplicates(),
        list.len() > 0,
        list.drop_last().contains(x),
    ensures
        list.contains(x),
        list.index_of(x) == list.drop_last().index_of(x),
{
    let short = list.drop_last();
    let k = short.index_of(x);
    assert(short[k] == x);
    assert(list[k] == x);
    assert(list[list.index_of(x)] == x);
}

/// The list of a name is the one that the map gives it, and empty where it gives none; so is the
/// set of a name.
pub proof fn law_missing_names_have_nothing(
    lists: Map<Seq<char>, Seq<Seq<char>>>,
    sets: Map<Seq<char>, Set<Seq<char>>>,
    name: Seq<char>,
    list: Seq<Seq<char>>,
    set: Set<Seq<char>>,
    x: Seq<char>,
)
    ensures
        list_for(lists.insert(name, list), name) == list,
        list_for(lists.remove(name), name).len() == 0,
        set_for(sets.insert(name, set), name) == set,
        !set_for(sets.remove(name), name).contains(x),
        x != name ==> list_for(lists.insert(name, list), x) == list_for(lists, x),
        x != name ==> set_for(sets.insert(name, set), x) == set_for(sets, x),
{
}

/// Of two values for one name the later counts, and every other name keeps its own.
pub proof fn law_later_pairs_count<V>(pairs: Seq<(String, V)>, pair: (String, V), x: Seq<char>)
    ensures
        pairs_map(pairs.push(pair)).contains_key(pair.0@),
        pairs_map(pairs.push(pair))[pair.0@] == pair.1,
        x != pair.0@ ==> pairs_map(pairs.push(pair)).contains_key(x) == pairs_map(
            pairs,
        ).contains_key(x),
        x != pair.0@ && pairs_map(pairs).contains_key(x) ==> pairs_map(pairs.push(pair))[x]
            == pairs_map(pairs)[x],
        !pairs_map(Seq::<(String, V)>::empty()).contains_key(x),
{
    assert(pairs.push(pair).drop_last() =~= pairs);
}

}
