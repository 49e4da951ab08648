//! Ordered collections held in vectors: a stable sort, removal of adjacent
//! duplicates, and sets kept as strictly ascending vectors.

use vstd::prelude::*;

use crate::text;
use crate::text::Rank;

verus! {

/// The views of the elements of a sequence, in order.
pub open spec fn views<T: View>(s: Seq<T>) -> Seq<T::V> {
    s.map_values(|t: T| t@)
}

/// A type whose values have an order, stated over their views.
pub trait Ranked: View + Sized {
    /// Whether `a` sorts strictly before `b`.
    spec fn before(a: Self::V, b: Self::V) -> bool;

    fn is_before(&self, other: &Self) -> (r: bool)
        ensures
            r == Self::before(self@, other@),
    ;

    proof fn irreflexive(a: Self::V)
        ensures
            !Self::before(a, a),
    ;

    proof fn transitive(a: Self::V, b: Self::V, c: Self::V)
        requires
            Self::before(a, b),
            Self::before(b, c),
        ensures
            Self::before(a, c),
    ;

    /// What is not before `b`, and `b` not before `c`, is not before `c`.
    proof fn negatively_transitive(a: Self::V, b: Self::V, c: Self::V)
        requires
            !Self::before(a, b),
            !Self::before(b, c),
        ensures
            !Self::before(a, c),
    ;
}

/// A ranked type in which only equal values are unordered.
pub trait Total: Ranked {
    proof fn separates(a: Self::V, b: Self::V)
        requires
            !Self::before(a, b),
            !Self::before(b, a),
        ensures
            a == b,
    ;
}

// ---------------------------------------------------------------------------
// Stable sorting
// ---------------------------------------------------------------------------

/// Where a new element belongs in a sorted sequence: after everything it does
/// not sort before.
pub open spec fn place<T: Ranked>(s: Seq<T>, x: T) -> int
    decreases s.len(),
{
    if s.len() == 0 {
        0
    } else if T::before(x@, s.last()@) {
        place(s.drop_last(), x)
    } else {
        s.len() as int
    }
}

/// The elements of `s` in ascending order, those that compare alike in the
/// order in which they stood.
pub open spec fn sorted<T: Ranked>(s: Seq<T>) -> Seq<T>
    decreases s.len(),
{
    if s.len() == 0 {
        s
    } else {
        let head = sorted(s.drop_last());
        head.insert(place(head, s.last()), s.last())
    }
}

pub open spec fn ascending<T: Ranked>(s: Seq<T>) -> bool {
    forall|i: int, j: int| 0 <= i < j < s.len() ==> !T::before((#[trigger] s[j])@, (#[trigger] s[i])@)
}

pub proof fn place_in_range<T: Ranked>(s: Seq<T>, x: T)
    ensures
        0 <= place(s, x) <= s.len(),
        forall|i: int| place(s, x) <= i < s.len() ==> T::before(x@, (#[trigger] s[i])@),
        place(s, x) > 0 ==> !T::before(x@, s[place(s, x) - 1]@),
    decreases s.len(),
{
    if s.len() > 0 && T::before(x@, s.last()@) {
        let head = s.drop_last();
        place_in_range(head, x);
        assert forall|i: int| place(s, x) <= i < s.len() implies T::before(x@, (#[trigger] s[i])@) by {
            if i < s.len() - 1 {
                assert(head[i] == s[i]);
            }
        }
    }
}

pub proof fn sorted_ascends<T: Ranked>(s: Seq<T>)
    ensures
        ascending(sorted(s)),
        sorted(s).len() == s.len(),
    decreases s.len(),
{
    if s.len() > 0 {
        let head = sorted(s.drop_last());
        let x = s.last();
        sorted_ascends(s.drop_last());
        place_in_range(head, x);
        let p = place(head, x);
        let r = head.insert(p, x);
        assert forall|i: int, j: int| 0 <= i < j < r.len() implies !T::before(
            (#[trigger] r[j])@,
            (#[trigger] r[i])@,
        ) by {
            if i < p && j == p {
                if i < p - 1 {
                    T::negatively_transitive(x@, head[p - 1]@, head[i]@);
                }
            } else if i == p {
                if T::before(r[j]@, x@) {
                    assert(r[j] == head[j - 1]);
                    T::transitive(x@, r[j]@, x@);
                    T::irreflexive(x@);
                }
            } else {
                let a = if i < p { i } else { i - 1 };
                let b = if j < p { j } else { j - 1 };
                assert(r[i] == head[a] && r[j] == head[b]);
            }
        }
    }
}

/// Sorting neither adds nor drops elements.
pub proof fn sorted_keeps<T: Ranked>(s: Seq<T>)
    ensures
        sorted(s).to_multiset() == s.to_multiset(),
        forall|x: T| sorted(s).contains(x) == s.contains(x),
    decreases s.len(),
{
    broadcast use vstd::seq_lib::group_to_multiset_ensures;

    if s.len() > 0 {
        let head = sorted(s.drop_last());
        let x = s.last();
        sorted_keeps(s.drop_last());
        place_in_range(head, x);
        assert(s =~= s.drop_last().push(x));
        assert(head.insert(place(head, x), x).to_multiset() =~= head.to_multiset().insert(x)) by {
            head.insert_ensures(place(head, x), x);
            vstd::seq_lib::lemma_multiset_commutative(head.take(place(head, x)), head.skip(place(head, x)));
            head.to_multiset_ensures();
        }
    }
    assert forall|x: T| sorted(s).contains(x) == s.contains(x) by {
        assert(sorted(s).contains(x) == sorted(s).to_multiset().contains(x));
        assert(s.contains(x) == s.to_multiset().contains(x));
    }
}

/// Where the elements begin that `x` sorts before.
fn upper_bound<T: Ranked>(items: &Vec<T>, x: &T) -> (r: usize)
    requires
        ascending(items@),
    ensures
        r == place(items@, *x),
        0 <= r <= items@.len(),
        forall|i: int| r <= i < items@.len() ==> T::before(x@, (#[trigger] items@[i])@),
        forall|i: int| 0 <= i < r ==> !T::before(x@, (#[trigger] items@[i])@),
{
    let mut low: usize = 0;
    let mut high: usize = items.len();
    while low < high
        invariant
            low <= high <= items@.len(),
            ascending(items@),
            forall|i: int| high <= i < items@.len() ==> T::before(x@, (#[trigger] items@[i])@),
            forall|i: int| 0 <= i < low ==> !T::before(x@, (#[trigger] items@[i])@),
        decreases high - low,
    {
        let middle: usize = low + (high - low) / 2;
        if x.is_before(&items[middle]) {
            assert forall|i: int| middle <= i < items@.len() implies T::before(
                x@,
                (#[trigger] items@[i])@,
            ) by {
                if i > middle && !T::before(x@, items@[i]@) {
                    T::negatively_transitive(x@, items@[i]@, items@[middle as int]@);
                }
            }
            high = middle;
        } else {
            assert forall|i: int| 0 <= i <= middle implies !T::before(
                x@,
                (#[trigger] items@[i])@,
            ) by {
                if i < middle {
                    T::negatively_transitive(x@, items@[middle as int]@, items@[i]@);
                }
            }
            low = middle + 1;
        }
    }
    proof {
        place_in_range(items@, *x);
        let p = place(items@, *x);
        if p < low {
            assert(T::before(x@, items@[p]@));
        } else if p > low {
            assert(T::before(x@, items@[p - 1]@));
        }
    }
    low
}

proof fn strict_ascends<T: Ranked>(s: Seq<T>)
    requires
        strictly_ascending::<T>(views(s)),
    ensures
        ascending(s),
{
    assert forall|i: int, j: int| 0 <= i < j < s.len() implies !T::before(
        (#[trigger] s[j])@,
        (#[trigger] s[i])@,
    ) by {
        assert(views(s)[i] == s[i]@ && views(s)[j] == s[j]@);
        if T::before(s[j]@, s[i]@) {
            T::transitive(s[i]@, s[j]@, s[i]@);
            T::irreflexive(s[i]@);
        }
    }
}

/// Sorts a vector.
pub fn sort<T: Ranked>(items: Vec<T>) -> (r: Vec<T>)
    ensures
        r@ == sorted(items@),
        ascending(r@),
        r@.len() == items@.len(),
{
    let ghost whole = items@;
    let mut rest = items;
    let mut reversed: Vec<T> = Vec::new();
    while rest.len() > 0
        invariant
            rest@ + reversed@.reverse() == whole,
        decreases rest@.len(),
    {
        let ghost before = rest@;
        match rest.pop() {
            Some(x) => {
                reversed.push(x);
                assert(rest@ + reversed@.reverse() =~= before + reversed@.drop_last().reverse());
            },
            None => {},
        }
    }
    assert(reversed@.reverse() =~= whole);
    let mut out: Vec<T> = Vec::new();
    let ghost mut done: int = 0;
    assert(whole.take(0) =~= Seq::<T>::empty());
    while reversed.len() > 0
        invariant
            0 <= done <= whole.len(),
            reversed@.reverse() == whole.skip(done),
            out@ == sorted(whole.take(done)),
            ascending(out@),
        decreases reversed@.len(),
    {
        let ghost held = reversed@;
        match reversed.pop() {
            Some(x) => {
                proof {
                    assert(held.reverse().len() == whole.skip(done).len());
                    assert(done < whole.len());
                    assert(held.reverse()[0] == x);
                    assert(whole.skip(done)[0] == whole[done]);
                    assert(whole.take(done + 1).drop_last() =~= whole.take(done));
                    assert(whole.take(done + 1).last() == x);
                    assert(reversed@.reverse() =~= held.reverse().drop_first());
                    assert(whole.skip(done).drop_first() =~= whole.skip(done + 1));
                }
                let at = upper_bound(&out, &x);
                out.insert(at, x);
                proof {
                    done = done + 1;
                    sorted_ascends(whole.take(done));
                }
            },
            None => {},
        }
    }
    proof {
        assert(whole.take(done) =~= whole) by {
            assert(whole.skip(done).len() == 0);
        }
        sorted_ascends(whole);
    }
    out
}

// ---------------------------------------------------------------------------
// Adjacent duplicates
// ---------------------------------------------------------------------------

/// `s` without the elements that equal the element just before them.
pub open spec fn deduplicated<A>(s: Seq<A>) -> Seq<A>
    decreases s.len(),
{
    if s.len() < 2 {
        s
    } else {
        let head = deduplicated(s.drop_last());
        if s[s.len() - 1] == s[s.len() - 2] {
            head
        } else {
            head.push(s.last())
        }
    }
}

/// Removing adjacent duplicates keeps exactly the elements that occur.
pub proof fn deduplicated_keeps<A>(s: Seq<A>)
    ensures
        forall|x: A| deduplicated(s).contains(x) == s.contains(x),
        s.len() > 0 ==> deduplicated(s).len() > 0 && deduplicated(s).last() == s.last(),
        deduplicated(s).len() <= s.len(),
    decreases s.len(),
{
    if s.len() >= 2 {
        let head = s.drop_last();
        deduplicated_keeps(head);
        assert forall|x: A| deduplicated(s).contains(x) == s.contains(x) by {
            if s.contains(x) {
                let i = choose|i: int| 0 <= i < s.len() && s[i] == x;
                if i < s.len() - 1 {
                    assert(head[i] == x);
                    assert(head.contains(x));
                    let j = choose|j: int| 0 <= j < deduplicated(head).len() && deduplicated(head)[j] == x;
                    assert(deduplicated(s)[j] == x);
                } else {
                    let d = deduplicated(s);
                    assert(d[d.len() - 1] == x);
                }
            }
            if deduplicated(s).contains(x) {
                let j = choose|j: int| 0 <= j < deduplicated(s).len() && deduplicated(s)[j] == x;
                if j < deduplicated(head).len() {
                    assert(deduplicated(head)[j] == x);
                    assert(head.contains(x));
                    let i = choose|i: int| 0 <= i < head.len() && head[i] == x;
                    assert(s[i] == x);
                } else {
                    assert(s[s.len() - 1] == x);
                }
            }
        }
    }
}

/// A type whose values can be compared for equality of their views.
pub trait Alike: View + Sized {
    fn alike(&self, other: &Self) -> (r: bool)
        ensures
            r == (self@ == other@),
    ;
}

/// Removes the elements that equal the element just before them.
pub fn deduplicate<T: Alike>(items: Vec<T>) -> (r: Vec<T>)
    ensures
        views(r@) == deduplicated(views(items@)),
        forall|i: int| 0 <= i < r@.len() ==> items@.contains(#[trigger] r@[i]),
{
    let ghost whole = items@;
    let mut rest = items;
    let mut reversed: Vec<T> = Vec::new();
    while rest.len() > 0
        invariant
            rest@ + reversed@.reverse() == whole,
        decreases rest@.len(),
    {
        let ghost before = rest@;
        match rest.pop() {
            Some(x) => {
                reversed.push(x);
                assert(rest@ + reversed@.reverse() =~= before + reversed@.drop_last().reverse());
            },
            None => {},
        }
    }
    assert(reversed@.reverse() =~= whole);
    let mut out: Vec<T> = Vec::new();
    let ghost mut done: int = 0;
    assert(views(out@) =~= deduplicated(views(whole).take(0)));
    while reversed.len() > 0
        invariant
            0 <= done <= whole.len(),
            reversed@.reverse() == whole.skip(done),
            views(out@) == deduplicated(views(whole).take(done)),
            done > 0 ==> out@.len() > 0 && out@.last()@ == whole[done - 1]@,
            forall|i: int| 0 <= i < out@.len() ==> whole.contains(#[trigger] out@[i]),
        decreases reversed@.len(),
    {
        let ghost held = reversed@;
        match reversed.pop() {
            Some(x) => {
                proof {
                    assert(held.reverse().len() == whole.skip(done).len());
                    assert(held.reverse()[0] == x);
                    assert(whole.skip(done)[0] == whole[done]);
                    assert(reversed@.reverse() =~= held.reverse().drop_first());
                    assert(whole.skip(done).drop_first() =~= whole.skip(done + 1));
                    let next = views(whole).take(done + 1);
                    assert(next.drop_last() =~= views(whole).take(done));
                    assert(next.last() == x@);
                    if done > 0 {
                        assert(next[next.len() - 2] == whole[done - 1]@);
                    } else {
                        assert(next =~= seq![x@]);
                    }
                }
                let repeated = out.len() > 0 && out[out.len() - 1].alike(&x);
                if !repeated {
                    let ghost start = out@;
                    out.push(x);
                    assert(views(out@) =~= views(start).push(x@));
                    assert(done == 0 ==> views(start) =~= Seq::empty());
                    assert(done == 0 ==> views(out@) =~= deduplicated(views(whole).take(1)));
                }
                proof {
                    done = done + 1;
                }
            },
            None => {},
        }
    }
    proof {
        assert(whole.skip(done).len() == 0);
        assert(views(whole).take(done) =~= views(whole));
    }
    out
}

/// Where only equal values compare alike, sorting and removing repetitions
/// leaves a strictly ascending sequence.
pub proof fn deduplicated_ascends<T: Ranked>(s: Seq<T>)
    requires
        ascending(s),
        forall|i: int, j: int|
            0 <= i < s.len() && 0 <= j < s.len() && !T::before((#[trigger] s[i])@, (#[trigger] s[j])@)
                && !T::before(s[j]@, s[i]@) ==> s[i]@ == s[j]@,
    ensures
        strictly_ascending::<T>(deduplicated(views(s))),
    decreases s.len(),
{
    let v = views(s);
    if s.len() >= 2 {
        let head = s.drop_last();
        let n = s.len() as int;
        assert(ascending(head)) by {
            assert forall|i: int, j: int| 0 <= i < j < head.len() implies !T::before(
                (#[trigger] head[j])@,
                (#[trigger] head[i])@,
            ) by {
                assert(head[i] == s[i] && head[j] == s[j]);
            }
        }
        assert forall|i: int, j: int|
            0 <= i < head.len() && 0 <= j < head.len() && !T::before((#[trigger] head[i])@, (#[trigger] head[j])@)
                && !T::before(head[j]@, head[i]@) implies head[i]@ == head[j]@ by {
            assert(head[i] == s[i] && head[j] == s[j]);
        }
        deduplicated_ascends(head);
        assert(views(head) =~= v.drop_last());
        let d = deduplicated(views(head));
        deduplicated_keeps(views(head));
        assert(d.last() == s[n - 2]@);
        if v[n - 1] != v[n - 2] {
            assert(T::before(s[n - 2]@, s[n - 1]@));
            let r = deduplicated(v);
            assert(r == d.push(s[n - 1]@));
            assert forall|i: int, j: int| 0 <= i < j < r.len() implies T::before(
                #[trigger] r[i],
                #[trigger] r[j],
            ) by {
                if j == d.len() && i < d.len() - 1 {
                    assert(T::before(d[i], d[d.len() - 1]));
                    T::transitive(d[i], d.last(), s[n - 1]@);
                }
            }
        }
    }
}

/// Adding to a vector keeps what it held.
pub proof fn push_contains<T: View>(s: Seq<T>, x: T)
    ensures
        views(s.push(x)) == views(s).push(x@),
        forall|v: T::V| #[trigger] views(s.push(x)).contains(v) == (views(s).contains(v) || v == x@),
{
    assert(views(s.push(x)) =~= views(s).push(x@));
    let a = views(s);
    let b = a.push(x@);
    assert forall|v: T::V| #[trigger] b.contains(v) == (a.contains(v) || v == x@) by {
        if a.contains(v) {
            let i = choose|i: int| 0 <= i < a.len() && a[i] == v;
            assert(b[i] == v);
        }
        assert(b[a.len() as int] == x@);
        if b.contains(v) {
            let i = choose|i: int| 0 <= i < b.len() && b[i] == v;
            if i < a.len() {
                assert(a[i] == v);
            }
        }
    }
}

// ---------------------------------------------------------------------------
// Sets as strictly ascending vectors
// ---------------------------------------------------------------------------

pub open spec fn strictly_ascending<T: Ranked>(s: Seq<T::V>) -> bool {
    forall|i: int, j: int| 0 <= i < j < s.len() ==> T::before(#[trigger] s[i], #[trigger] s[j])
}

/// Two strictly ascending sequences with the same elements are the same.
pub proof fn ascending_unique<T: Ranked>(a: Seq<T::V>, b: Seq<T::V>)
    requires
        strictly_ascending::<T>(a),
        strictly_ascending::<T>(b),
        forall|x: T::V| a.contains(x) == b.contains(x),
    ensures
        a == b,
    decreases a.len(),
{
    if a.len() == 0 {
        if b.len() > 0 {
            assert(b.contains(b[0]));
            assert(a.contains(b[0]));
        }
        assert(a =~= b);
    } else {
        assert(a.contains(a.last()));
        assert(b.contains(a.last()));
        assert(b.len() > 0);
        assert(b.contains(b.last()));
        assert(a.contains(b.last()));
        let i = choose|i: int| 0 <= i < a.len() && a[i] == b.last();
        let j = choose|j: int| 0 <= j < b.len() && b[j] == a.last();
        if i < a.len() - 1 && j < b.len() - 1 {
            T::transitive(a[i], a.last(), b.last());
            T::irreflexive(a[i]);
        }
        assert(a.last() == b.last());
        let x = a.drop_last();
        let y = b.drop_last();
        assert forall|v: T::V| x.contains(v) == y.contains(v) by {
            T::irreflexive(a.last());
            if x.contains(v) {
                let p = choose|p: int| 0 <= p < x.len() && x[p] == v;
                assert(a[p] == v);
                assert(a.contains(v));
                let q = choose|q: int| 0 <= q < b.len() && b[q] == v;
                assert(q < b.len() - 1);
                assert(y[q] == v);
            }
            if y.contains(v) {
                let p = choose|p: int| 0 <= p < y.len() && y[p] == v;
                assert(b[p] == v);
                assert(b.contains(v));
                let q = choose|q: int| 0 <= q < a.len() && a[q] == v;
                assert(q < a.len() - 1);
                assert(x[q] == v);
            }
        }
        ascending_unique::<T>(x, y);
        assert(a =~= x.push(a.last()));
        assert(b =~= y.push(b.last()));
    }
}

/// Adds `x` to a set unless it is there already; tells whether it was added.
pub fn insert<T: Total>(set: &mut Vec<T>, x: T) -> (added: bool)
    requires
        strictly_ascending::<T>(views(old(set)@)),
    ensures
        strictly_ascending::<T>(views(final(set)@)),
        forall|v: T::V|
            views(final(set)@).contains(v) == (v == x@ || views(old(set)@).contains(v)),
        added == !views(old(set)@).contains(x@),
        !added ==> final(set)@ == old(set)@,
        added ==> final(set)@.len() == old(set)@.len() + 1,
{
    let ghost start = set@;
    proof {
        strict_ascends(start);
    }
    let at = upper_bound(set, &x);
    let present = at > 0 && !set[at - 1].is_before(&x);
    if present {
        proof {
            T::separates(x@, start[at - 1]@);
            assert(views(start)[at - 1] == x@);
        }
        return false;
    }
    set.insert(at, x);
    proof {
        let old_views = views(start);
        let new_views = views(set@);
        assert(new_views =~= old_views.insert(at as int, x@));
        assert forall|i: int, j: int| 0 <= i < j < new_views.len() implies T::before(
            #[trigger] new_views[i],
            #[trigger] new_views[j],
        ) by {
            if j == at {
                if i < at - 1 {
                    assert(T::before(old_views[i], old_views[at - 1]));
                    T::transitive(old_views[i], old_views[at - 1], x@);
                }
            } else if i == at {
                assert(new_views[j] == start[j - 1]@);
            } else {
                let a = if i < at { i } else { i - 1 };
                let b = if j < at { j } else { j - 1 };
                assert(new_views[i] == old_views[a] && new_views[j] == old_views[b]);
            }
        }
        assert forall|v: T::V| new_views.contains(v) == (v == x@ || old_views.contains(v)) by {
            if v == x@ {
                assert(new_views[at as int] == v);
            }
            if old_views.contains(v) {
                let i = choose|i: int| 0 <= i < old_views.len() && old_views[i] == v;
                assert(new_views[if i < at { i } else { i + 1 }] == v);
            }
            if new_views.contains(v) && v != x@ {
                let i = choose|i: int| 0 <= i < new_views.len() && new_views[i] == v;
                assert(old_views[if i < at { i } else { i - 1 }] == v);
            }
        }
        if old_views.contains(x@) {
            let i = choose|i: int| 0 <= i < old_views.len() && old_views[i] == x@;
            T::irreflexive(x@);
            if i < at {
                if i < at - 1 {
                    assert(T::before(old_views[i], old_views[at - 1]));
                    T::transitive(x@, start[at - 1]@, x@);
                } else {
                    assert(start[at - 1]@ == x@);
                }
            } else {
                assert(T::before(x@, start[i]@));
            }
        }
    }
    true
}

/// Where a set holds `x`, if it does.
pub fn find<T: Total>(set: &Vec<T>, x: &T) -> (r: Option<usize>)
    requires
        strictly_ascending::<T>(views(set@)),
    ensures
        match r {
            Some(i) => i < set@.len() && set@[i as int]@ == x@,
            None => !views(set@).contains(x@),
        },
{
    proof {
        strict_ascends(set@);
    }
    let at = upper_bound(set, x);
    if at > 0 && !set[at - 1].is_before(x) {
        proof {
            T::separates(set@[at - 1]@, x@);
        }
        return Some(at - 1);
    }
    proof {
        if views(set@).contains(x@) {
            let k = choose|k: int| 0 <= k < views(set@).len() && views(set@)[k] == x@;
            T::irreflexive(x@);
            assert(set@[k]@ == x@);
            if k < at - 1 {
                assert(T::before(views(set@)[k], views(set@)[at - 1]));
                T::transitive(x@, set@[at - 1]@, x@);
            }
        }
    }
    None
}

/// Whether a set holds `x`.
pub fn holds<T: Total>(set: &Vec<T>, x: &T) -> (r: bool)
    requires
        strictly_ascending::<T>(views(set@)),
    ensures
        r == views(set@).contains(x@),
{
    match find(set, x) {
        Some(i) => {
            assert(views(set@)[i as int] == x@);
            true
        },
        None => false,
    }
}

impl Ranked for String {
    open spec fn before(a: Seq<char>, b: Seq<char>) -> bool {
        text::before(a, b)
    }

    fn is_before(&self, other: &Self) -> (r: bool) {
        let rank = text::compare(self.as_str(), other.as_str());
        assert(String::before(self@, other@) == text::before(self@, other@));
        rank == Rank::Less
    }

    proof fn irreflexive(a: Seq<char>) {
        text::before_irreflexive(a);
    }

    proof fn transitive(a: Seq<char>, b: Seq<char>, c: Seq<char>) {
        text::before_transitive(a, b, c);
    }

    proof fn negatively_transitive(a: Seq<char>, b: Seq<char>, c: Seq<char>) {
        if text::before(a, c) {
            if text::before(b, a) {
                text::before_transitive(b, a, c);
            } else {
                text::before_separates(a, b);
            }
        }
    }
}

impl Total for String {
    proof fn separates(a: Seq<char>, b: Seq<char>) {
        text::before_separates(a, b);
    }
}

impl Ranked for usize {
    open spec fn before(a: usize, b: usize) -> bool {
        a < b
    }

    fn is_before(&self, other: &Self) -> (r: bool) {
        *self < *other
    }

    proof fn irreflexive(a: usize) {
    }

    proof fn transitive(a: usize, b: usize, c: usize) {
    }

    proof fn negatively_transitive(a: usize, b: usize, c: usize) {
    }
}

impl Total for usize {
    proof fn separates(a: usize, b: usize) {
    }
}

impl Ranked for i64 {
    open spec fn before(a: i64, b: i64) -> bool {
        a < b
    }

    fn is_before(&self, other: &Self) -> (r: bool) {
        *self < *other
    }

    proof fn irreflexive(a: i64) {
    }

    proof fn transitive(a: i64, b: i64, c: i64) {
    }

    proof fn negatively_transitive(a: i64, b: i64, c: i64) {
    }
}

impl Total for i64 {
    proof fn separates(a: i64, b: i64) {
    }
}

/// Where a value belongs among values in order.
pub open spec fn spot<T: Ranked>(s: Seq<T::V>, x: T::V) -> int
    decreases s.len(),
{
    if s.len() == 0 {
        0
    } else if T::before(x, s.last()) {
        spot::<T>(s.drop_last(), x)
    } else {
        s.len() as int
    }
}

/// Values in ascending order, those that compare alike in the order in which
/// they stood.
pub open spec fn arranged<T: Ranked>(s: Seq<T::V>) -> Seq<T::V>
    decreases s.len(),
{
    if s.len() == 0 {
        s
    } else {
        let head = arranged::<T>(s.drop_last());
        head.insert(spot::<T>(head, s.last()), s.last())
    }
}

proof fn spot_is_place<T: Ranked>(s: Seq<T>, x: T)
    ensures
        spot::<T>(views(s), x@) == place(s, x),
    decreases s.len(),
{
    if s.len() > 0 {
        assert(views(s).drop_last() =~= views(s.drop_last()));
        spot_is_place(s.drop_last(), x);
    }
}

/// Sorting arranges what the elements show.
pub proof fn sorted_arranges<T: Ranked>(s: Seq<T>)
    ensures
        views(sorted(s)) == arranged::<T>(views(s)),
    decreases s.len(),
{
    if s.len() > 0 {
        let head = sorted(s.drop_last());
        assert(views(s).drop_last() =~= views(s.drop_last()));
        sorted_arranges(s.drop_last());
        spot_is_place(head, s.last());
        place_in_range(head, s.last());
        assert(views(head.insert(place(head, s.last()), s.last())) =~= views(head).insert(
            place(head, s.last()),
            s.last()@,
        ));
    } else {
        assert(views(s) =~= Seq::<T::V>::empty());
        assert(views(sorted(s)) =~= arranged::<T>(views(s)));
    }
}

pub proof fn spot_in_range<T: Ranked>(s: Seq<T::V>, x: T::V)
    ensures
        0 <= spot::<T>(s, x) <= s.len(),
        forall|i: int| spot::<T>(s, x) <= i < s.len() ==> T::before(x, #[trigger] s[i]),
        spot::<T>(s, x) > 0 ==> !T::before(x, s[spot::<T>(s, x) - 1]),
    decreases s.len(),
{
    if s.len() > 0 && T::before(x, s.last()) {
        let head = s.drop_last();
        spot_in_range::<T>(head, x);
        assert forall|i: int| spot::<T>(s, x) <= i < s.len() implies T::before(x, #[trigger] s[i]) by {
            if i < s.len() - 1 {
                assert(head[i] == s[i]);
            }
        }
    }
}

/// Arranged values ascend.
pub proof fn arranged_ascends<T: Ranked>(s: Seq<T::V>)
    ensures
        forall|i: int, j: int|
            0 <= i < j < arranged::<T>(s).len() ==> !T::before(
                #[trigger] arranged::<T>(s)[j],
                #[trigger] arranged::<T>(s)[i],
            ),
        arranged::<T>(s).len() == s.len(),
    decreases s.len(),
{
    if s.len() > 0 {
        let head = arranged::<T>(s.drop_last());
        let x = s.last();
        arranged_ascends::<T>(s.drop_last());
        spot_in_range::<T>(head, x);
        let p = spot::<T>(head, x);
        let r = head.insert(p, x);
        assert forall|i: int, j: int| 0 <= i < j < r.len() implies !T::before(
            #[trigger] r[j],
            #[trigger] r[i],
        ) by {
            if i < p && j == p {
                if i < p - 1 {
                    T::negatively_transitive(x, head[p - 1], head[i]);
                }
            } else if i == p {
                if T::before(r[j], x) {
                    assert(r[j] == head[j - 1]);
                    T::transitive(x, r[j], x);
                    T::irreflexive(x);
                }
            } else {
                let a = if i < p { i } else { i - 1 };
                let b = if j < p { j } else { j - 1 };
                assert(r[i] == head[a] && r[j] == head[b]);
            }
        }
    }
}

/// Arranging neither adds nor drops values.
pub proof fn arranged_keeps<T: Ranked>(s: Seq<T::V>)
    ensures
        arranged::<T>(s).to_multiset() == s.to_multiset(),
    decreases s.len(),
{
    broadcast use vstd::seq_lib::group_to_multiset_ensures;

    if s.len() > 0 {
        let head = arranged::<T>(s.drop_last());
        let x = s.last();
        arranged_keeps::<T>(s.drop_last());
        spot_in_range::<T>(head, x);
        assert(s =~= s.drop_last().push(x));
        assert(head.insert(spot::<T>(head, x), x).to_multiset() =~= head.to_multiset().insert(x)) by {
            head.insert_ensures(spot::<T>(head, x), x);
            head.to_multiset_ensures();
        }
    }
}

// ---------------------------------------------------------------------------
// Filtering
// ---------------------------------------------------------------------------

/// What `f` gives for the elements of `s` of which `keep` holds, in order.
pub open spec fn kept<A, B>(s: Seq<A>, keep: spec_fn(A) -> bool, f: spec_fn(A) -> B) -> Seq<B>
    decreases s.len(),
{
    if s.len() == 0 {
        Seq::empty()
    } else {
        let head = kept(s.drop_last(), keep, f);
        if keep(s.last()) {
            head.push(f(s.last()))
        } else {
            head
        }
    }
}

/// One element more.
pub proof fn kept_step<A, B>(s: Seq<A>, i: int, keep: spec_fn(A) -> bool, f: spec_fn(A) -> B)
    requires
        0 <= i < s.len(),
    ensures
        kept(s.take(i + 1), keep, f) == if keep(s[i]) {
            kept(s.take(i), keep, f).push(f(s[i]))
        } else {
            kept(s.take(i), keep, f)
        },
        kept(s.take(0), keep, f) == Seq::<B>::empty(),
{
    assert(s.take(i + 1).drop_last() =~= s.take(i));
    assert(s.take(i + 1).last() == s[i]);
}

/// Where one condition is parted in two, so is what it keeps.
pub proof fn kept_parts<A, B>(
    s: Seq<A>,
    whole: spec_fn(A) -> bool,
    one: spec_fn(A) -> bool,
    other: spec_fn(A) -> bool,
    f: spec_fn(A) -> B,
)
    requires
        forall|x: A| #[trigger] whole(x) == (one(x) || other(x)),
        forall|x: A| #[trigger] whole(x) ==> !(one(x) && other(x)),
    ensures
        kept(s, whole, f).to_multiset() == kept(s, one, f).to_multiset().add(kept(s, other, f).to_multiset()),
    decreases s.len(),
{
    broadcast use vstd::seq_lib::group_to_multiset_ensures;

    if s.len() > 0 {
        kept_parts(s.drop_last(), whole, one, other, f);
        let x = s.last();
        assert(whole(x) == (one(x) || other(x)));
        assert(kept(s, whole, f).to_multiset() =~= kept(s, one, f).to_multiset().add(
            kept(s, other, f).to_multiset(),
        ));
    } else {
        assert(kept(s, whole, f).to_multiset() =~= kept(s, one, f).to_multiset().add(
            kept(s, other, f).to_multiset(),
        ));
    }
}

/// What is kept is what `f` gives for some element of which `keep` holds.
pub proof fn kept_are<A, B>(s: Seq<A>, keep: spec_fn(A) -> bool, f: spec_fn(A) -> B)
    ensures
        forall|y: B| #[trigger] kept(s, keep, f).contains(y) ==> exists|i: int|
            0 <= i < s.len() && keep(#[trigger] s[i]) && y == f(s[i]),
        forall|i: int| 0 <= i < s.len() && keep(#[trigger] s[i]) ==> kept(s, keep, f).contains(f(s[i])),
        kept(s, keep, f).len() <= s.len(),
    decreases s.len(),
{
    if s.len() > 0 {
        let t = s.drop_last();
        let head = kept(t, keep, f);
        let whole = kept(s, keep, f);
        kept_are(t, keep, f);
        assert forall|y: B| #[trigger] whole.contains(y) implies exists|i: int|
            0 <= i < s.len() && keep(#[trigger] s[i]) && y == f(s[i]) by {
            let k = choose|k: int| 0 <= k < whole.len() && whole[k] == y;
            if k < head.len() {
                assert(head[k] == y);
                assert(head.contains(y));
                let i = choose|i: int| 0 <= i < t.len() && keep(#[trigger] t[i]) && y == f(t[i]);
                assert(s[i] == t[i]);
            } else {
                assert(y == f(s[s.len() - 1]));
            }
        }
        assert forall|i: int| 0 <= i < s.len() && keep(#[trigger] s[i]) implies whole.contains(f(s[i])) by {
            if i < s.len() - 1 {
                assert(t[i] == s[i]);
                assert(head.contains(f(t[i])));
                let k = choose|k: int| 0 <= k < head.len() && head[k] == f(t[i]);
                assert(whole[k] == f(s[i]));
            } else {
                assert(whole[head.len() as int] == f(s[i]));
            }
        }
    }
}

/// The numbers below `n` of which `keep` holds, in order.
pub open spec fn chosen(n: nat, keep: spec_fn(int) -> bool) -> Seq<int> {
    Seq::new(n, |j: int| j).filter(keep)
}

pub open spec fn ascending_numbers(s: Seq<int>) -> bool {
    forall|i: int, j: int| 0 <= i < j < s.len() ==> #[trigger] s[i] < #[trigger] s[j]
}

pub proof fn chosen_are(n: nat, keep: spec_fn(int) -> bool)
    ensures
        ascending_numbers(chosen(n, keep)),
        forall|j: int| #[trigger] chosen(n, keep).contains(j) == (0 <= j < n && keep(j)),
    decreases n,
{
    reveal(Seq::filter);
    let all = Seq::new(n, |j: int| j);
    if n > 0 {
        let m = (n - 1) as nat;
        chosen_are(m, keep);
        assert(all.drop_last() =~= Seq::new(m, |j: int| j));
        assert(all.last() == n - 1);
        let head = chosen(m, keep);
        let whole = chosen(n, keep);
        assert(whole == if keep(n - 1) { head.push(n - 1) } else { head });
        assert forall|i: int, j: int| 0 <= i < j < whole.len() implies #[trigger] whole[i] < #[trigger] whole[j] by {
            if j == head.len() {
                assert(head.contains(head[i]));
            }
        }
        assert forall|j: int| #[trigger] whole.contains(j) == (0 <= j < n && keep(j)) by {
            if whole.contains(j) {
                let k = choose|k: int| 0 <= k < whole.len() && whole[k] == j;
                if k < head.len() {
                    assert(head[k] == j);
                    assert(head.contains(j));
                }
            }
            if 0 <= j < n && keep(j) {
                if j < n - 1 {
                    assert(head.contains(j));
                    let k = choose|k: int| 0 <= k < head.len() && head[k] == j;
                    assert(whole[k] == j);
                } else {
                    assert(whole[head.len() as int] == j);
                }
            }
        }
    } else {
        assert(all =~= Seq::empty());
        assert(chosen(n, keep) =~= Seq::empty());
    }
}

/// The numbers from `from` on and below `n` of which `keep` holds, in order.
pub open spec fn chosen_from(from: nat, n: nat, keep: spec_fn(int) -> bool) -> Seq<int>
    decreases n - from,
{
    if from >= n {
        Seq::empty()
    } else if keep(from as int) {
        seq![from as int] + chosen_from(from + 1, n, keep)
    } else {
        chosen_from(from + 1, n, keep)
    }
}

pub proof fn chosen_from_step(from: nat, n: nat, keep: spec_fn(int) -> bool)
    requires
        from < n,
    ensures
        chosen_from(from, n, keep) == if keep(from as int) {
            seq![from as int] + chosen_from(from + 1, n, keep)
        } else {
            chosen_from(from + 1, n, keep)
        },
{
}

/// Choosing below a bound and from it on is choosing among all.
pub proof fn chosen_split(k: nat, n: nat, keep: spec_fn(int) -> bool)
    requires
        k <= n,
    ensures
        chosen(k, keep) + chosen_from(k, n, keep) == chosen(n, keep),
        chosen(0, keep) == Seq::<int>::empty(),
    decreases n - k,
{
    reveal(Seq::filter);
    assert(Seq::new(0, |j: int| j) =~= Seq::<int>::empty());
    if k == n {
        assert(chosen(k, keep) + chosen_from(k, n, keep) =~= chosen(n, keep));
    } else {
        chosen_split(k + 1, n, keep);
        let all = Seq::new(k + 1, |j: int| j);
        assert(all.drop_last() =~= Seq::new(k, |j: int| j));
        assert(all.last() == k);
        assert(chosen(k + 1, keep) == if keep(k as int) { chosen(k, keep).push(k as int) } else { chosen(k, keep) });
        assert(chosen(k, keep) + chosen_from(k, n, keep) =~= chosen(k + 1, keep) + chosen_from(k + 1, n, keep));
    }
}

/// Two ascending lists of the same numbers are the same list.
pub proof fn numbers_unique(a: Seq<int>, b: Seq<int>)
    requires
        ascending_numbers(a),
        ascending_numbers(b),
        forall|x: int| a.contains(x) == b.contains(x),
    ensures
        a == b,
    decreases a.len(),
{
    if a.len() == 0 {
        if b.len() > 0 {
            assert(b.contains(b[0]));
        }
        assert(a =~= b);
    } else {
        assert(a.contains(a.last()));
        assert(b.contains(a.last()));
        assert(b.len() > 0);
        assert(b.contains(b.last()));
        assert(a.contains(b.last()));
        let i = choose|i: int| 0 <= i < a.len() && a[i] == b.last();
        let j = choose|j: int| 0 <= j < b.len() && b[j] == a.last();
        assert(a.last() == b.last());
        let x = a.drop_last();
        let y = b.drop_last();
        assert forall|v: int| x.contains(v) == y.contains(v) by {
            if x.contains(v) {
                let p = choose|p: int| 0 <= p < x.len() && x[p] == v;
                assert(a[p] == v);
                assert(a.contains(v));
                let q = choose|q: int| 0 <= q < b.len() && b[q] == v;
                assert(y[q] == v);
            }
            if y.contains(v) {
                let p = choose|p: int| 0 <= p < y.len() && y[p] == v;
                assert(b[p] == v);
                assert(b.contains(v));
                let q = choose|q: int| 0 <= q < a.len() && a[q] == v;
                assert(x[q] == v);
            }
        }
        numbers_unique(x, y);
        assert(a =~= x.push(a.last()));
        assert(b =~= y.push(b.last()));
    }
}

}
