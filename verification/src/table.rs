//! A map from texts to values that is walked in the order of its keys.

use vstd::prelude::*;
use vstd::string::*;

use crate::order;
use crate::order::{strictly_ascending, Ranked};
use crate::text;
use crate::text::Rank;

verus! {

/// A map keyed by text. Its entries are kept in ascending order of their keys,
/// each key once.
#[derive(Debug, PartialEq, Eq)]
pub struct Table<V> {
    entries: Vec<(String, V)>,
}

pub open spec fn keys_of<V>(entries: Seq<(String, V)>) -> Seq<Seq<char>> {
    entries.map_values(|e: (String, V)| e.0@)
}

impl<V> Table<V> {
    #[verifier::type_invariant]
    spec fn well_formed(self) -> bool {
        strictly_ascending::<String>(keys_of(self.entries@))
    }
}

impl<V: View> Table<V> {
    /// The entries, in order.
    pub closed spec fn rows(self) -> Seq<(String, V)> {
        self.entries@
    }

    /// The keys, in order.
    pub open spec fn keys(self) -> Seq<Seq<char>> {
        keys_of(self.rows())
    }

    /// What holds of every table: the keys ascend.
    pub open spec fn ordered(self) -> bool {
        strictly_ascending::<String>(self.keys())
    }

    pub open spec fn has(self, key: Seq<char>) -> bool {
        self.keys().contains(key)
    }

    pub open spec fn position(self, key: Seq<char>) -> int {
        choose|i: int| 0 <= i < self.keys().len() && self.keys()[i] == key
    }
}

impl<V: View> View for Table<V> {
    type V = Map<Seq<char>, V::V>;

    open spec fn view(&self) -> Map<Seq<char>, V::V> {
        Map::new(|key: Seq<char>| self.has(key), |key: Seq<char>| self.rows()[self.position(key)].1@)
    }
}

/// In an ordered table, the value of the key of an entry is that entry's.
pub proof fn row_value<V: View>(t: Table<V>, i: int)
    requires
        t.ordered(),
        0 <= i < t.rows().len(),
    ensures
        t.keys()[i] == t.rows()[i].0@,
        t@.contains_key(t.rows()[i].0@),
        t@[t.rows()[i].0@] == t.rows()[i].1@,
        t.position(t.rows()[i].0@) == i,
{
    let key = t.rows()[i].0@;
    assert(t.keys()[i] == key);
    assert(t.has(key));
    let p = t.position(key);
    assert(0 <= p < t.keys().len() && t.keys()[p] == key);
    text::before_irreflexive(key);
    if p < i {
        assert(text::before(t.keys()[p], t.keys()[i]));
    } else if p > i {
        assert(text::before(t.keys()[i], t.keys()[p]));
    }
}

/// The pairs of a map of texts, their keys in order.
pub open spec fn lists<A>(m: Map<Seq<char>, A>, s: Seq<(Seq<char>, A)>) -> bool {
    &&& strictly_ascending::<String>(firsts(s))
    &&& forall|k: Seq<char>| #[trigger] m.contains_key(k) == firsts(s).contains(k)
    &&& forall|i: int| 0 <= i < s.len() ==> m[(#[trigger] s[i]).0] == s[i].1
}

pub open spec fn firsts<A>(s: Seq<(Seq<char>, A)>) -> Seq<Seq<char>> {
    s.map_values(|row: (Seq<char>, A)| row.0)
}

/// The pairs of a map of texts, in the order of their keys.
pub open spec fn listed<A>(m: Map<Seq<char>, A>) -> Seq<(Seq<char>, A)> {
    choose|s: Seq<(Seq<char>, A)>| lists(m, s)
}

/// There is one such list.
pub proof fn listing_unique<A>(m: Map<Seq<char>, A>, s: Seq<(Seq<char>, A)>)
    requires
        lists(m, s),
    ensures
        listed(m) == s,
{
    let t = listed(m);
    assert(lists(m, t));
    assert forall|k: Seq<char>| firsts(s).contains(k) == firsts(t).contains(k) by {
        assert(m.contains_key(k) == firsts(s).contains(k));
        assert(m.contains_key(k) == firsts(t).contains(k));
    }
    order::ascending_unique::<String>(firsts(s), firsts(t));
    assert(s.len() == firsts(s).len() && t.len() == firsts(t).len());
    assert forall|i: int| 0 <= i < s.len() implies s[i] == t[i] by {
        assert(firsts(s)[i] == s[i].0);
        assert(firsts(t)[i] == t[i].0);
    }
    assert(s =~= t);
}

impl<V: View> Table<V> {
    /// What the entries show, in order.
    pub open spec fn shown(self) -> Seq<(Seq<char>, V::V)> {
        self.rows().map_values(|row: (String, V)| (row.0@, row.1@))
    }
}

/// A table lists its map.
pub proof fn table_listed<V: View>(t: Table<V>)
    requires
        t.ordered(),
    ensures
        lists(t@, t.shown()),
        listed(t@) == t.shown(),
{
    assert(firsts(t.shown()) =~= t.keys());
    assert forall|i: int| 0 <= i < t.shown().len() implies t@[(#[trigger] t.shown()[i]).0] == t.shown()[i].1 by {
        row_value(t, i);
    }
    listing_unique(t@, t.shown());
}

impl<V: View> Table<V> {
    pub fn new() -> (r: Self)
        ensures
            r@ == Map::<Seq<char>, V::V>::empty(),
            r.rows().len() == 0,
            r.ordered(),
    {
        let r = Table { entries: Vec::new() };
        assert(r@ =~= Map::<Seq<char>, V::V>::empty());
        r
    }

    /// The number of entries.
    pub fn len(&self) -> (r: usize)
        ensures
            r == self.rows().len(),
            self.ordered(),
    {
        proof {
            use_type_invariant(self);
        }
        self.entries.len()
    }

    /// The key of the `i`-th entry.
    pub fn key(&self, i: usize) -> (r: &String)
        requires
            i < self.rows().len(),
        ensures
            r@ == self.keys()[i as int],
            *r == self.rows()[i as int].0,
    {
        &self.entries[i].0
    }

    /// The value of the `i`-th entry.
    pub fn value(&self, i: usize) -> (r: &V)
        requires
            i < self.rows().len(),
        ensures
            *r == self.rows()[i as int].1,
            r@ == self@[self.keys()[i as int]],
    {
        proof {
            use_type_invariant(self);
            row_value(*self, i as int);
        }
        &self.entries[i].1
    }

    /// Where a key stands, or would stand.
    fn lower_bound(&self, key: &str) -> (r: (usize, bool))
        ensures
            0 <= r.0 <= self.rows().len(),
            r.1 ==> r.0 < self.rows().len() && self.keys()[r.0 as int] == key@,
            forall|i: int| 0 <= i < r.0 ==> text::before(#[trigger] self.keys()[i], key@),
            !r.1 ==> forall|i: int|
                r.0 <= i < self.rows().len() ==> text::before(key@, #[trigger] self.keys()[i]),
            r.1 == self.has(key@),
    {
        proof {
            use_type_invariant(self);
        }
        let mut low: usize = 0;
        let mut high: usize = self.entries.len();
        while low < high
            invariant
                low <= high <= self.rows().len(),
                self.ordered(),
                self.entries@ == self.rows(),
                forall|i: int| 0 <= i < low ==> text::before(#[trigger] self.keys()[i], key@),
                forall|i: int|
                    high <= i < self.rows().len() ==> text::before(key@, #[trigger] self.keys()[i]),
            decreases high - low,
        {
            let middle: usize = low + (high - low) / 2;
            let rank = text::compare(&self.entries[middle].0, key);
            assert(self.keys()[middle as int] == self.entries@[middle as int].0@);
            match rank {
                Rank::Less => {
                    assert forall|i: int| 0 <= i <= middle implies text::before(
                        #[trigger] self.keys()[i],
                        key@,
                    ) by {
                        if i < middle {
                            assert(text::before(self.keys()[i], self.keys()[middle as int]));
                            text::before_transitive(self.keys()[i], self.keys()[middle as int], key@);
                        }
                    }
                    low = middle + 1;
                },
                Rank::Same => {
                    return (middle, true);
                },
                Rank::Greater => {
                    assert forall|i: int| middle <= i < self.rows().len() implies text::before(
                        key@,
                        #[trigger] self.keys()[i],
                    ) by {
                        if i > middle {
                            assert(text::before(self.keys()[middle as int], self.keys()[i]));
                            text::before_transitive(key@, self.keys()[middle as int], self.keys()[i]);
                        }
                    }
                    high = middle;
                },
            }
        }
        proof {
            text::before_irreflexive(key@);
            if self.has(key@) {
                let i = choose|i: int| 0 <= i < self.keys().len() && self.keys()[i] == key@;
                assert(text::before(self.keys()[i], key@) || text::before(key@, self.keys()[i]));
            }
        }
        (low, false)
    }

    /// The value of a key.
    pub fn get(&self, key: &str) -> (r: Option<&V>)
        ensures
            match r {
                Some(v) => self@.contains_key(key@) && v@ == self@[key@] && exists|i: int|
                    0 <= i < self.rows().len() && self.keys()[i] == key@ && #[trigger] self.rows()[i].1
                        == *v,
                None => !self@.contains_key(key@),
            },
    {
        proof {
            use_type_invariant(self);
        }
        let (at, found) = self.lower_bound(key);
        if found {
            proof {
                row_value(*self, at as int);
            }
            Some(&self.entries[at].1)
        } else {
            None
        }
    }

    pub fn contains(&self, key: &str) -> (r: bool)
        ensures
            r == self@.contains_key(key@),
    {
        let (_, found) = self.lower_bound(key);
        found
    }

    /// Gives `key` the value `value`, in place of the value it may have had.
    pub fn insert(&mut self, key: String, value: V)
        ensures
            final(self)@ == old(self)@.insert(key@, value@),
            final(self).ordered(),
            old(self)@.contains_key(key@) ==> final(self).rows().len() == old(self).rows().len(),
            !old(self)@.contains_key(key@) ==> final(self).rows().len() == old(self).rows().len() + 1,
    {
        proof {
            use_type_invariant(&*self);
        }
        let ghost before = *self;
        let (at, found) = self.lower_bound(&key);
        let mut entries: Vec<(String, V)> = Vec::new();
        std::mem::swap(&mut entries, &mut self.entries);
        let ghost old_entries = entries@;
        let ghost old_keys = keys_of(old_entries);
        let ghost k = key@;
        if found {
            entries.set(at, (key, value));
            assert(keys_of(entries@) =~= old_keys);
        } else {
            entries.insert(at, (key, value));
            assert(keys_of(entries@) =~= old_keys.insert(at as int, k));
            assert(strictly_ascending::<String>(keys_of(entries@))) by {
                let n = keys_of(entries@);
                assert forall|i: int, j: int| 0 <= i < j < n.len() implies text::before(
                    #[trigger] n[i],
                    #[trigger] n[j],
                ) by {
                    if i != at && j != at {
                        let a = if i < at { i } else { i - 1 };
                        let b = if j < at { j } else { j - 1 };
                        assert(n[i] == old_keys[a] && n[j] == old_keys[b]);
                    } else if i == at {
                        assert(n[j] == before.keys()[j - 1]);
                    } else {
                        assert(n[i] == before.keys()[i]);
                    }
                }
            }
        }
        let ghost new_keys = keys_of(entries@);
        self.entries = entries;
        proof {
            let after = *self;
            assert(after.keys() == new_keys);
            assert(after.ordered());
            assert forall|x: Seq<char>| #[trigger] after@.contains_key(x) == before@.insert(k, value@).contains_key(x) by {
                if after.has(x) {
                    let i = choose|i: int| 0 <= i < new_keys.len() && new_keys[i] == x;
                    if i != at {
                        let j = if found || i < at { i } else { i - 1 };
                        assert(before.keys()[j] == x);
                    } else {
                        assert(x == k);
                    }
                }
                if before.has(x) {
                    let i = choose|i: int| 0 <= i < before.keys().len() && before.keys()[i] == x;
                    let j = if found || i < at { i } else { i + 1 };
                    assert(new_keys[j] == x);
                }
                assert(new_keys[at as int] == k);
            }
            assert forall|x: Seq<char>| #[trigger] after@.contains_key(x) implies after@[x] == before@.insert(k, value@)[x] by {
                let i = after.position(x);
                assert(0 <= i < new_keys.len() && new_keys[i] == x);
                row_value(after, i);
                if x == k {
                    row_value(after, at as int);
                } else {
                    assert(i != at) by {
                        assert(new_keys[at as int] == k);
                    }
                    let j = if found || i < at { i } else { i - 1 };
                    assert(before.rows()[j] == after.rows()[i]);
                    row_value(before, j);
                }
            }
            assert(after@ =~= before@.insert(k, value@));
        }
    }
}

/// A type whose values can be copied without a change to what they stand for.
pub trait Duplicate: View + Sized {
    fn duplicate(&self) -> (r: Self)
        ensures
            r@ == self@,
    ;
}

impl<V: Duplicate> Duplicate for Table<V> {
    fn duplicate(&self) -> (r: Self)
        ensures
            r.keys() == self.keys(),
    {
        proof {
            use_type_invariant(self);
        }
        let mut entries: Vec<(String, V)> = Vec::new();
        let mut i: usize = 0;
        while i < self.entries.len()
            invariant
                i <= self.entries@.len(),
                entries@.len() == i,
                forall|k: int| 0 <= k < i ==> (#[trigger] entries@[k]).0@ == self.entries@[k].0@
                    && entries@[k].1@ == self.entries@[k].1@,
            decreases self.entries@.len() - i,
        {
            entries.push((self.entries[i].0.clone(), self.entries[i].1.duplicate()));
            i = i + 1;
        }
        assert(keys_of(entries@) =~= keys_of(self.entries@));
        let r = Table { entries };
        proof {
            assert(r.keys() == self.keys());
            assert forall|x: Seq<char>| #[trigger] r@.contains_key(x) implies r@[x] == self@[x] by {
                let p = r.position(x);
                assert(0 <= p < r.keys().len() && r.keys()[p] == x);
                row_value(r, p);
                row_value(*self, p);
            }
            assert(r@ =~= self@);
        }
        r
    }
}

/// A key is in the domain exactly when it is one of the keys.
pub proof fn domain_is_keys<V: View>(t: Table<V>, key: Seq<char>)
    ensures
        t@.contains_key(key) == t.keys().contains(key),
{
}

}
