//! Cycles of a directed graph whose nodes are numbered from zero.
//!
//! A depth-first traversal visits the nodes in ascending order and each node's
//! successors in the order in which they are listed. Every edge that leads back
//! to a node still being visited closes a cycle. The cycle is reported starting
//! at its smallest node.

use vstd::prelude::*;

use crate::order;
use crate::order::{strictly_ascending, views, Ranked, Total};

verus! {

/// The successors of each node.
pub open spec fn valid_graph(adj: Seq<Seq<int>>) -> bool {
    forall|i: int, k: int|
        0 <= i < adj.len() && 0 <= k < adj[i].len() ==> 0 <= #[trigger] adj[i][k] < adj.len()
}

pub open spec fn edge(adj: Seq<Seq<int>>, a: int, b: int) -> bool {
    0 <= a < adj.len() && adj[a].contains(b)
}

/// The nodes of `c` follow one another along edges and the last leads back to
/// the first; no node occurs twice.
pub open spec fn is_cycle(adj: Seq<Seq<int>>, c: Seq<int>) -> bool {
    &&& c.len() > 0
    &&& c.no_duplicates()
    &&& forall|i: int| 0 <= i < c.len() - 1 ==> edge(adj, #[trigger] c[i], c[i + 1])
    &&& edge(adj, c.last(), c[0])
}

pub open spec fn smallest_first(c: Seq<int>) -> bool {
    forall|i: int| 0 <= i < c.len() ==> c[0] <= #[trigger] c[i]
}

/// Where the smallest element stands; the first of several.
pub open spec fn smallest(c: Seq<int>) -> int
    decreases c.len(),
{
    if c.len() <= 1 {
        0
    } else {
        let m = smallest(c.drop_last());
        if c.last() < c[m] {
            c.len() - 1
        } else {
            m
        }
    }
}

/// `c`, read from its `k`-th element on and around.
pub open spec fn rotated(c: Seq<int>, k: int) -> Seq<int> {
    c.skip(k) + c.take(k)
}

/// The state of a traversal: the nodes being visited, each with the number of
/// successors already followed; the nodes that are finished, in the order in
/// which they were; and the cycles found.
pub struct Walk {
    pub stack: Seq<(int, int)>,
    pub done: Seq<int>,
    pub found: Set<Seq<int>>,
}

pub open spec fn path(stack: Seq<(int, int)>) -> Seq<int> {
    stack.map_values(|e: (int, int)| e.0)
}

/// The cycle that an edge from the top of the stack to `child` closes.
pub open spec fn closed_by(stack: Seq<(int, int)>, child: int) -> Seq<int> {
    let p = path(stack);
    let c = p.skip(p.index_of(child));
    rotated(c, smallest(c))
}

pub open spec fn step(adj: Seq<Seq<int>>, w: Walk) -> Walk {
    let (node, k) = w.stack.last();
    if k >= adj[node].len() {
        Walk { stack: w.stack.drop_last(), done: w.done.push(node), found: w.found }
    } else {
        let child = adj[node][k];
        let advanced = w.stack.drop_last().push((node, k + 1));
        if path(w.stack).contains(child) {
            Walk { stack: advanced, done: w.done, found: w.found.insert(closed_by(w.stack, child)) }
        } else if w.done.contains(child) {
            Walk { stack: advanced, done: w.done, found: w.found }
        } else {
            Walk { stack: advanced.push((child, 0)), done: w.done, found: w.found }
        }
    }
}

/// The nodes on the stack and the finished ones are different nodes of the
/// graph, and no more successors were followed than there are.
pub open spec fn sane(adj: Seq<Seq<int>>, w: Walk) -> bool {
    &&& (w.done + path(w.stack)).no_duplicates()
    &&& forall|i: int| 0 <= i < w.done.len() ==> 0 <= #[trigger] w.done[i] < adj.len()
    &&& forall|i: int|
        0 <= i < w.stack.len() ==> 0 <= (#[trigger] w.stack[i]).0 < adj.len() && 0 <= w.stack[i].1
            <= adj[w.stack[i].0].len()
}

/// The successors still to be followed from the nodes on the stack, and the
/// nodes still to be left.
pub open spec fn work(adj: Seq<Seq<int>>, stack: Seq<(int, int)>) -> int
    decreases stack.len(),
{
    if stack.len() == 0 {
        0
    } else {
        work(adj, stack.drop_last()) + 1 + adj[stack.last().0].len() - stack.last().1
    }
}

proof fn work_nonnegative(adj: Seq<Seq<int>>, stack: Seq<(int, int)>)
    requires
        forall|i: int|
            0 <= i < stack.len() ==> 0 <= (#[trigger] stack[i]).1 <= adj[stack[i].0].len(),
    ensures
        work(adj, stack) >= stack.len(),
    decreases stack.len(),
{
    if stack.len() > 0 {
        let rest = stack.drop_last();
        assert forall|i: int| 0 <= i < rest.len() implies 0 <= (#[trigger] rest[i]).1
            <= adj[rest[i].0].len() by {
            assert(rest[i] == stack[i]);
        }
        work_nonnegative(adj, rest);
        assert(stack[stack.len() - 1] == stack.last());
    }
}

/// Different numbers below `n` are at most `n`.
proof fn pigeonhole(s: Seq<int>, n: int)
    requires
        n >= 0,
        s.no_duplicates(),
        forall|i: int| 0 <= i < s.len() ==> 0 <= #[trigger] s[i] < n,
    ensures
        s.len() <= n,
{
    let range = vstd::set_lib::set_int_range(0, n);
    vstd::set_lib::lemma_int_range(0, n);
    s.unique_seq_to_set();
    assert(s.to_set().subset_of(range)) by {
        assert forall|x: int| s.to_set().contains(x) implies range.contains(x) by {
            let i = choose|i: int| 0 <= i < s.len() && s[i] == x;
            assert(0 <= s[i] < n);
        }
    }
    vstd::set_lib::lemma_len_subset(s.to_set(), range);
}

proof fn sane_bound(adj: Seq<Seq<int>>, w: Walk)
    requires
        sane(adj, w),
    ensures
        w.done.len() + w.stack.len() <= adj.len(),
{
    let all = w.done + path(w.stack);
    assert forall|i: int| 0 <= i < all.len() implies 0 <= #[trigger] all[i] < adj.len() by {
        if i >= w.done.len() {
            assert(all[i] == w.stack[i - w.done.len()].0);
        }
    }
    pigeonhole(all, adj.len() as int);
}

pub proof fn step_sane(adj: Seq<Seq<int>>, w: Walk)
    requires
        valid_graph(adj),
        sane(adj, w),
        w.stack.len() > 0,
    ensures
        sane(adj, step(adj, w)),
        step(adj, w).done.len() + step(adj, w).stack.len() <= adj.len(),
        w.done.len() + w.stack.len() <= adj.len(),
        work(adj, step(adj, w).stack) >= 0,
        ({
            let a = adj.len() - w.done.len() - w.stack.len();
            let b = adj.len() - step(adj, w).done.len() - step(adj, w).stack.len();
            b < a || (b == a && work(adj, step(adj, w).stack) < work(adj, w.stack))
        }),
{
    let (node, k) = w.stack.last();
    assert(w.stack[w.stack.len() - 1] == (node, k));
    let rest = w.stack.drop_last();
    let p = path(w.stack);
    let next = step(adj, w);
    let all = w.done + p;
    let new_all = next.done + path(next.stack);
    assert(p[p.len() - 1] == node);
    if k >= adj[node].len() {
        assert(new_all.len() == all.len());
        // The node moves from the top of the stack to the end of the finished ones.
        let m = w.done.len() as int;
        assert forall|i: int, j: int| 0 <= i < j < new_all.len() implies new_all[i] != new_all[j] by {
            let a = if i < m { i } else if i == m { all.len() - 1 } else { i - 1 };
            let b = if j < m { j } else if j == m { all.len() - 1 } else { j - 1 };
            assert(new_all[i] == all[a]);
            assert(new_all[j] == all[b]);
            assert(a != b);
        }
    } else {
        let child = adj[node][k];
        let advanced = rest.push((node, k + 1));
        assert(path(advanced) =~= p);
        assert(advanced.drop_last() =~= rest);
        if p.contains(child) || w.done.contains(child) {
            assert(new_all =~= all);
        } else {
            assert(path(next.stack) =~= p.push(child));
            assert(new_all =~= all.push(child));
            assert(next.stack.drop_last() =~= advanced);
            assert forall|i: int| 0 <= i < all.len() implies all[i] != child by {
                if i < w.done.len() {
                    assert(w.done[i] == all[i]);
                } else {
                    assert(p[i - w.done.len()] == all[i]);
                }
            }
        }
    }
    assert forall|i: int| 0 <= i < next.stack.len() implies 0 <= (#[trigger] next.stack[i]).0
        < adj.len() && 0 <= next.stack[i].1 <= adj[next.stack[i].0].len() by {
        if i < rest.len() {
            assert(next.stack[i] == w.stack[i]);
        }
    }
    assert forall|i: int| 0 <= i < next.done.len() implies 0 <= #[trigger] next.done[i] < adj.len() by {
        if i < w.done.len() {
            assert(next.done[i] == w.done[i]);
        }
    }
    sane_bound(adj, w);
    sane_bound(adj, next);
    work_nonnegative(adj, next.stack);
}

/// The traversal carried on until nothing is left on the stack.
pub open spec fn run(adj: Seq<Seq<int>>, w: Walk) -> Walk
    decreases adj.len() - w.done.len() - w.stack.len(), work(adj, w.stack),
    when valid_graph(adj) && sane(adj, w)
{
    if w.stack.len() == 0 {
        w
    } else {
        proof {
            step_sane(adj, w);
        }
        run(adj, step(adj, w))
    }
}

pub open spec fn entered(w: Walk, start: int) -> Walk {
    Walk { stack: seq![(start, 0int)], done: w.done, found: w.found }
}

/// The traversal from each node from `start` on that is not finished yet.
pub open spec fn walk_from(adj: Seq<Seq<int>>, start: int, w: Walk) -> Walk
    decreases adj.len() - start,
{
    if start >= adj.len() {
        w
    } else if w.done.contains(start) {
        walk_from(adj, start + 1, w)
    } else {
        walk_from(adj, start + 1, run(adj, entered(w, start)))
    }
}

pub open spec fn fresh() -> Walk {
    Walk { stack: Seq::empty(), done: Seq::empty(), found: Set::empty() }
}

/// The cycles that the traversal of the whole graph finds.
pub open spec fn cycles_of(adj: Seq<Seq<int>>) -> Set<Seq<int>> {
    walk_from(adj, 0, fresh()).found
}

// ---------------------------------------------------------------------------
// The traversal
// ---------------------------------------------------------------------------

pub open spec fn numbers(s: Seq<usize>) -> Seq<int> {
    s.map_values(|x: usize| x as int)
}

pub open spec fn graph(adj: Seq<Vec<usize>>) -> Seq<Seq<int>> {
    adj.map_values(|v: Vec<usize>| numbers(v@))
}

/// A list of nodes, ordered by its first differing element.
#[derive(Debug)]
pub struct NodeList {
    pub nodes: Vec<usize>,
}

impl View for NodeList {
    type V = Seq<int>;

    open spec fn view(&self) -> Seq<int> {
        numbers(self.nodes@)
    }
}

pub open spec fn list_before(a: Seq<int>, b: Seq<int>) -> bool
    decreases a.len(),
{
    if b.len() == 0 {
        false
    } else if a.len() == 0 {
        true
    } else if a[0] != b[0] {
        a[0] < b[0]
    } else {
        list_before(a.drop_first(), b.drop_first())
    }
}

proof fn list_transitive(a: Seq<int>, b: Seq<int>, c: Seq<int>)
    requires
        list_before(a, b),
        list_before(b, c),
    ensures
        list_before(a, c),
    decreases a.len(),
{
    if a.len() > 0 && b.len() > 0 && c.len() > 0 && a[0] == b[0] && b[0] == c[0] {
        list_transitive(a.drop_first(), b.drop_first(), c.drop_first());
    }
}

proof fn list_separates(a: Seq<int>, b: Seq<int>)
    requires
        !list_before(a, b),
        !list_before(b, a),
    ensures
        a == b,
    decreases a.len(),
{
    if a.len() == 0 || b.len() == 0 {
        assert(a =~= b);
    } else {
        list_separates(a.drop_first(), b.drop_first());
        assert(a =~= seq![a[0]] + a.drop_first());
        assert(b =~= seq![b[0]] + b.drop_first());
    }
}

impl Ranked for NodeList {
    open spec fn before(a: Seq<int>, b: Seq<int>) -> bool {
        list_before(a, b)
    }

    fn is_before(&self, other: &Self) -> (r: bool) {
        let mut i: usize = 0;
        assert(self@.skip(0) =~= self@);
        assert(other@.skip(0) =~= other@);
        loop
            invariant
                i <= self.nodes@.len(),
                i <= other.nodes@.len(),
                list_before(self@, other@) == list_before(
                    self@.skip(i as int),
                    other@.skip(i as int),
                ),
            decreases self.nodes@.len() - i,
        {
            if i == other.nodes.len() {
                return false;
            }
            if i == self.nodes.len() {
                return true;
            }
            let x = self.nodes[i];
            let y = other.nodes[i];
            assert(self@.skip(i as int)[0] == x && other@.skip(i as int)[0] == y);
            if x != y {
                return x < y;
            }
            assert(self@.skip(i as int).drop_first() =~= self@.skip(i + 1));
            assert(other@.skip(i as int).drop_first() =~= other@.skip(i + 1));
            i = i + 1;
        }
    }

    proof fn irreflexive(a: Seq<int>)
        decreases a.len(),
    {
        if a.len() > 0 {
            Self::irreflexive(a.drop_first());
        }
    }

    proof fn transitive(a: Seq<int>, b: Seq<int>, c: Seq<int>) {
        list_transitive(a, b, c);
    }

    proof fn negatively_transitive(a: Seq<int>, b: Seq<int>, c: Seq<int>) {
        if list_before(a, c) {
            if list_before(b, a) {
                list_transitive(b, a, c);
            } else {
                list_separates(a, b);
            }
        }
    }
}

impl Total for NodeList {
    proof fn separates(a: Seq<int>, b: Seq<int>) {
        list_separates(a, b);
    }
}

/// The colours say which nodes are being visited (1) and which are finished
/// (2).
spec fn coloured(colour: Seq<u8>, w: Walk) -> bool {
    forall|i: int| #![trigger colour[i]]
        0 <= i < colour.len() ==> {
            &&& (colour[i] == 2) == w.done.contains(i)
            &&& (colour[i] == 1) == path(w.stack).contains(i)
            &&& colour[i] <= 2
        }
}

spec fn held(stack: Seq<(usize, usize)>) -> Seq<(int, int)> {
    stack.map_values(|e: (usize, usize)| (e.0 as int, e.1 as int))
}

proof fn pop_colours(colour: Seq<u8>, w: Walk, next: Walk, node: int)
    requires
        0 <= node < colour.len(),
        colour[node] == 2,
        w.stack.len() > 0,
        w.stack.last().0 == node,
        next.stack == w.stack.drop_last(),
        next.done == w.done.push(node),
        (w.done + path(w.stack)).no_duplicates(),
        forall|i: int| #![trigger colour[i]]
            0 <= i < colour.len() && i != node ==> {
                &&& (colour[i] == 2) == w.done.contains(i)
                &&& (colour[i] == 1) == path(w.stack).contains(i)
                &&& colour[i] <= 2
            },
    ensures
        coloured(colour, next),
{
    let p = path(w.stack);
    let q = path(next.stack);
    let all = w.done + p;
    assert(p =~= q.push(node));
    assert(next.done[next.done.len() - 1] == node);
    assert forall|i: int| #![trigger colour[i]] 0 <= i < colour.len() implies {
        &&& (colour[i] == 2) == next.done.contains(i)
        &&& (colour[i] == 1) == q.contains(i)
        &&& colour[i] <= 2
    } by {
        if w.done.contains(i) {
            let k = choose|k: int| 0 <= k < w.done.len() && w.done[k] == i;
            assert(next.done[k] == i);
        }
        if q.contains(i) {
            let k = choose|k: int| 0 <= k < q.len() && q[k] == i;
            assert(p[k] == i);
            if i == node {
                assert(all[w.done.len() + k] == i);
                assert(all[all.len() - 1] == node);
            }
        }
        if p.contains(i) && i != node {
            let k = choose|k: int| 0 <= k < p.len() && p[k] == i;
            assert(q[k] == i);
        }
    }
}

proof fn push_colours(colour: Seq<u8>, w: Walk, next: Walk, child: int)
    requires
        0 <= child < colour.len(),
        colour[child] == 1,
        path(next.stack) == path(w.stack).push(child),
        next.done == w.done,
        !w.done.contains(child),
        forall|i: int| #![trigger colour[i]]
            0 <= i < colour.len() && i != child ==> {
                &&& (colour[i] == 2) == w.done.contains(i)
                &&& (colour[i] == 1) == path(w.stack).contains(i)
                &&& colour[i] <= 2
            },
    ensures
        coloured(colour, next),
{
    let p = path(w.stack);
    let q = path(next.stack);
    assert(q[q.len() - 1] == child);
    assert forall|i: int| #![trigger colour[i]] 0 <= i < colour.len() implies {
        &&& (colour[i] == 2) == next.done.contains(i)
        &&& (colour[i] == 1) == q.contains(i)
        &&& colour[i] <= 2
    } by {
        if p.contains(i) {
            let k = choose|k: int| 0 <= k < p.len() && p[k] == i;
            assert(q[k] == i);
        }
        if q.contains(i) && i != child {
            let k = choose|k: int| 0 <= k < q.len() && q[k] == i;
            assert(p[k] == i);
        }
    }
}

/// The position of the smallest element.
fn find_smallest(c: &Vec<usize>) -> (r: usize)
    requires
        c@.len() > 0,
    ensures
        r == smallest(numbers(c@)),
        r < c@.len(),
{
    let mut best: usize = 0;
    let mut i: usize = 1;
    assert(numbers(c@).take(1).len() == 1);
    while i < c.len()
        invariant
            1 <= i <= c@.len(),
            best < i,
            best == smallest(numbers(c@).take(i as int)),
        decreases c@.len() - i,
    {
        let ghost next = numbers(c@).take(i + 1);
        assert(next.drop_last() =~= numbers(c@).take(i as int));
        assert(next.last() == c@[i as int]);
        assert(next[best as int] == c@[best as int]);
        if c[i] < c[best] {
            best = i;
        }
        i = i + 1;
    }
    assert(numbers(c@).take(i as int) =~= numbers(c@));
    best
}

/// The cycle from position `from` of the path on, smallest node first.
fn close_cycle(stack: &Vec<(usize, usize)>, from: usize) -> (r: NodeList)
    requires
        from < stack@.len(),
    ensures
        ({
            let c = path(held(stack@)).skip(from as int);
            r@ == rotated(c, smallest(c))
        }),
{
    let mut c: Vec<usize> = Vec::new();
    let ghost p = path(held(stack@));
    let mut i: usize = from;
    while i < stack.len()
        invariant
            from <= i <= stack@.len(),
            p == path(held(stack@)),
            numbers(c@) == p.subrange(from as int, i as int),
        decreases stack@.len() - i,
    {
        let ghost start = c@;
        c.push(stack[i].0);
        assert(numbers(c@) =~= numbers(start).push(p[i as int]));
        assert(p.subrange(from as int, i + 1) =~= p.subrange(from as int, i as int).push(p[i as int]));
        i = i + 1;
    }
    let ghost whole = p.skip(from as int);
    assert(numbers(c@) =~= whole);
    assert(c@.len() > 0) by {
        assert(numbers(c@).len() == whole.len());
    }
    let k = find_smallest(&c);
    let mut nodes: Vec<usize> = Vec::new();
    let mut j: usize = 0;
    while j < c.len()
        invariant
            j <= c@.len(),
            k < c@.len(),
            nodes@.len() == j,
            numbers(c@) == whole,
            forall|x: int| 0 <= x < j ==> #[trigger] nodes@[x] == rotated(whole, k as int)[x],
        decreases c@.len() - j,
    {
        let at: usize = if j < c.len() - k {
            k + j
        } else {
            j - (c.len() - k)
        };
        assert(rotated(whole, k as int)[j as int] == whole[at as int]);
        assert(whole[at as int] == c@[at as int]);
        nodes.push(c[at]);
        j = j + 1;
    }
    let r = NodeList { nodes };
    assert(r@ =~= rotated(whole, k as int));
    r
}

fn position_of(stack: &Vec<(usize, usize)>, node: usize) -> (r: usize)
    requires
        path(held(stack@)).contains(node as int),
        path(held(stack@)).no_duplicates(),
    ensures
        r == path(held(stack@)).index_of(node as int),
        r < stack@.len(),
{
    let ghost p = path(held(stack@));
    let ghost target = p.index_of(node as int);
    assert(0 <= target < p.len() && p[target] == node as int);
    let mut i: usize = 0;
    while i < stack.len()
        invariant
            i <= target < stack@.len(),
            p == path(held(stack@)),
            p.no_duplicates(),
            p[target] == node as int,
            target == p.index_of(node as int),
        decreases stack@.len() - i,
    {
        assert(p[i as int] == stack@[i as int].0);
        if stack[i].0 == node {
            return i;
        }
        i = i + 1;
    }
    i
}

/// The cycles of a graph, in ascending order.
pub fn detect(adj: &Vec<Vec<usize>>) -> (r: Vec<NodeList>)
    requires
        valid_graph(graph(adj@)),
    ensures
        strictly_ascending::<NodeList>(views(r@)),
        forall|c: Seq<int>| views(r@).contains(c) == cycles_of(graph(adj@)).contains(c),
{
    let ghost g = graph(adj@);
    let n = adj.len();
    let mut colour: Vec<u8> = Vec::new();
    while colour.len() < n
        invariant
            colour@.len() <= n,
            forall|i: int| 0 <= i < colour@.len() ==> colour@[i] == 0,
        decreases n - colour@.len(),
    {
        colour.push(0);
    }
    let mut found: Vec<NodeList> = Vec::new();
    let ghost mut w = fresh();
    let mut start: usize = 0;
    while start < n
        invariant
            start <= n == adj@.len() == colour@.len(),
            g == graph(adj@),
            valid_graph(g),
            w.stack.len() == 0,
            sane(g, w),
            coloured(colour@, w),
            walk_from(g, start as int, w) == walk_from(g, 0, fresh()),
            strictly_ascending::<NodeList>(views(found@)),
            forall|c: Seq<int>| views(found@).contains(c) == w.found.contains(c),
        decreases n - start,
    {
        if colour[start] == 0 {
            let ghost first = entered(w, start as int);
            proof {
                assert(path(w.stack) =~= Seq::<int>::empty());
                assert(path(first.stack) =~= seq![start as int]);
                let all = first.done + path(first.stack);
                assert(w.done + path(w.stack) =~= w.done);
                assert forall|i: int, j: int| 0 <= i < j < all.len() implies all[i] != all[j] by {
                    if j == w.done.len() {
                        assert(w.done.contains(w.done[i]));
                    } else {
                        assert(w.done[i] != w.done[j]);
                    }
                }
                w = first;
            }
            colour.set(start, 1);
            let mut stack: Vec<(usize, usize)> = Vec::new();
            stack.push((start, 0));
            assert(held(stack@) =~= w.stack);
            assert(coloured(colour@, w)) by {
                assert(path(w.stack)[0] == start);
            }
            while stack.len() > 0
                invariant
                    start < n == adj@.len() == colour@.len(),
                    g == graph(adj@),
                    valid_graph(g),
                    sane(g, w),
                    held(stack@) == w.stack,
                    coloured(colour@, w),
                    run(g, w) == run(g, first),
                    strictly_ascending::<NodeList>(views(found@)),
                    forall|c: Seq<int>| views(found@).contains(c) == w.found.contains(c),
                decreases g.len() - w.done.len() - w.stack.len(), work(g, w.stack),
            {
                let top = stack.len() - 1;
                let node = stack[top].0;
                let index = stack[top].1;
                let ghost next = step(g, w);
                proof {
                    assert(w.stack[top as int] == (node as int, index as int));
                    assert(w.stack.last() == (node as int, index as int));
                    step_sane(g, w);
                    assert(g[node as int] == numbers(adj@[node as int]@));
                    assert(path(w.stack)[top as int] == node);
                }
                if index >= adj[node].len() {
                    colour.set(node, 2);
                    stack.pop();
                    assert(held(stack@) =~= next.stack);
                    proof {
                        pop_colours(colour@, w, next, node as int);
                        w = next;
                    }
                } else {
                    let child = adj[node][index];
                    assert(g[node as int][index as int] == child);
                    stack.set(top, (node, index + 1));
                    let ghost advanced = w.stack.drop_last().push((node as int, index + 1));
                    assert(held(stack@) =~= advanced);
                    assert(path(advanced) =~= path(w.stack));
                    if colour[child] == 1 {
                        assert(path(w.stack).contains(child as int));
                        assert(path(w.stack).no_duplicates()) by {
                            let all = w.done + path(w.stack);
                            let p = path(w.stack);
                            assert forall|i: int, j: int| 0 <= i < p.len() && 0 <= j < p.len() && i
                                != j implies p[i] != p[j] by {
                                assert(all[w.done.len() + i] == p[i] && all[w.done.len() + j] == p[j]);
                            }
                        }
                        let from = position_of(&stack, child);
                        let cycle = close_cycle(&stack, from);
                        assert(cycle@ == closed_by(w.stack, child as int));
                        let _added = order::insert(&mut found, cycle);
                        proof {
                            w = next;
                        }
                    } else if colour[child] == 2 {
                        assert(!path(w.stack).contains(child as int));
                        proof {
                            w = next;
                        }
                    } else {
                        assert(!path(w.stack).contains(child as int));
                        assert(!w.done.contains(child as int));
                        colour.set(child, 1);
                        stack.push((child, 0));
                        assert(held(stack@) =~= next.stack);
                        proof {
                            assert(path(next.stack) =~= path(w.stack).push(child as int));
                            push_colours(colour@, w, next, child as int);
                            w = next;
                        }
                    }
                }
            }
            proof {
                assert(w.stack.len() == 0);
                assert(run(g, first) == w);
            }
        } else {
            assert(w.done.contains(start as int)) by {
                assert(path(w.stack) =~= Seq::<int>::empty());
                assert(coloured(colour@, w));
            }
        }
        start = start + 1;
    }
    found
}

// ---------------------------------------------------------------------------
// Laws
// ---------------------------------------------------------------------------

proof fn smallest_is_least(c: Seq<int>)
    requires
        c.len() > 0,
    ensures
        0 <= smallest(c) < c.len(),
        forall|i: int| 0 <= i < c.len() ==> c[smallest(c)] <= #[trigger] c[i],
    decreases c.len(),
{
    if c.len() > 1 {
        let head = c.drop_last();
        smallest_is_least(head);
        assert forall|i: int| 0 <= i < c.len() implies c[smallest(c)] <= #[trigger] c[i] by {
            if i < head.len() {
                assert(head[i] == c[i]);
            }
        }
    }
}

proof fn rotation_is_cycle(adj: Seq<Seq<int>>, c: Seq<int>, k: int)
    requires
        is_cycle(adj, c),
        0 <= k < c.len(),
    ensures
        is_cycle(adj, rotated(c, k)),
{
    let r = rotated(c, k);
    let n = c.len() as int;
    assert(r.len() == n);
    assert forall|i: int, j: int| 0 <= i < n && 0 <= j < n && i != j implies r[i] != r[j] by {
        let a = if i < n - k { i + k } else { i - (n - k) };
        let b = if j < n - k { j + k } else { j - (n - k) };
        assert(r[i] == c[a] && r[j] == c[b]);
    }
    assert forall|i: int| 0 <= i < n - 1 implies edge(adj, #[trigger] r[i], r[i + 1]) by {
        if i + 1 < n - k {
            assert(r[i] == c[i + k] && r[i + 1] == c[i + k + 1]);
        } else if i < n - k {
            assert(r[i] == c[n - 1] && r[i + 1] == c[0]);
        } else {
            let a = i - (n - k);
            assert(r[i] == c[a] && r[i + 1] == c[a + 1]);
        }
    }
    if k == 0 {
        assert(r =~= c);
    } else {
        assert(r.last() == c[k - 1] && r[0] == c[k]);
    }
}

/// What holds of a traversal at every moment: the nodes on the stack follow one
/// another along edges, every cycle found is one, and unless a cycle was found,
/// every edge followed leads to a node that was finished before its origin.
spec fn faithful(adj: Seq<Seq<int>>, w: Walk) -> bool {
    &&& forall|i: int|
        0 <= i < w.stack.len() - 1 ==> (#[trigger] w.stack[i]).1 >= 1
            && adj[w.stack[i].0][w.stack[i].1 - 1] == w.stack[i + 1].0
    &&& forall|c: Seq<int>| #[trigger] w.found.contains(c) ==> is_cycle(adj, c) && smallest_first(c)
    &&& (forall|c: Seq<int>| !w.found.contains(c)) ==> {
        &&& forall|p: int, k: int|
            0 <= p < w.done.len() && 0 <= k < adj[w.done[p]].len() ==> w.done.take(p).contains(
                #[trigger] adj[w.done[p]][k],
            )
        &&& forall|i: int, k: int|
            0 <= i < w.stack.len() && 0 <= k < w.stack[i].1 ==> {
                let v = #[trigger] adj[w.stack[i].0][k];
                w.done.contains(v) || (i + 1 < w.stack.len() && v == w.stack[i + 1].0)
            }
    }
}

proof fn closing_is_cycle(adj: Seq<Seq<int>>, w: Walk, child: int)
    requires
        valid_graph(adj),
        sane(adj, w),
        faithful(adj, w),
        w.stack.len() > 0,
        w.stack.last().1 < adj[w.stack.last().0].len(),
        adj[w.stack.last().0][w.stack.last().1] == child,
        path(w.stack).contains(child),
    ensures
        is_cycle(adj, closed_by(w.stack, child)),
        smallest_first(closed_by(w.stack, child)),
{
    let p = path(w.stack);
    let at = p.index_of(child);
    assert(0 <= at < p.len() && p[at] == child);
    let c = p.skip(at);
    let all = w.done + p;
    assert forall|i: int, j: int| 0 <= i < c.len() && 0 <= j < c.len() && i != j implies c[i] != c[j] by {
        assert(all[w.done.len() + at + i] == c[i]);
        assert(all[w.done.len() + at + j] == c[j]);
    }
    assert forall|i: int| 0 <= i < c.len() - 1 implies edge(adj, #[trigger] c[i], c[i + 1]) by {
        let e = w.stack[at + i];
        assert(c[i] == e.0 && c[i + 1] == w.stack[at + i + 1].0);
        assert(adj[e.0][e.1 - 1] == c[i + 1]);
    }
    let top = w.stack.last();
    assert(w.stack[w.stack.len() - 1] == top);
    assert(c.last() == top.0);
    assert(adj[top.0][top.1] == child);
    assert(edge(adj, c.last(), c[0]));
    assert(is_cycle(adj, c));
    smallest_is_least(c);
    rotation_is_cycle(adj, c, smallest(c));
    let k = smallest(c);
    let r = rotated(c, k);
    assert forall|i: int| 0 <= i < r.len() implies r[0] <= #[trigger] r[i] by {
        let n = c.len() as int;
        let a = if i < n - k { i + k } else { i - (n - k) };
        assert(r[i] == c[a]);
        assert(r[0] == c[k]);
    }
}

proof fn step_faithful(adj: Seq<Seq<int>>, w: Walk)
    requires
        valid_graph(adj),
        sane(adj, w),
        faithful(adj, w),
        w.stack.len() > 0,
    ensures
        faithful(adj, step(adj, w)),
{
    let (node, k) = w.stack.last();
    let n = w.stack.len();
    assert(w.stack[n - 1] == (node, k));
    let next = step(adj, w);
    let none = forall|c: Seq<int>| !w.found.contains(c);
    let none_next = forall|c: Seq<int>| !next.found.contains(c);
    if k < adj[node].len() && path(w.stack).contains(adj[node][k]) {
        closing_is_cycle(adj, w, adj[node][k]);
        assert(next.found.contains(closed_by(w.stack, adj[node][k])));
    } else {
        assert(next.found == w.found);
    }
    assert forall|i: int| 0 <= i < next.stack.len() - 1 implies (#[trigger] next.stack[i]).1 >= 1
        && adj[next.stack[i].0][next.stack[i].1 - 1] == next.stack[i + 1].0 by {
        if i < n - 1 {
            assert(next.stack[i] == w.stack[i]);
            if i + 1 < n - 1 {
                assert(next.stack[i + 1] == w.stack[i + 1]);
            } else {
                assert(next.stack[i + 1].0 == node);
            }
        }
    }
    if none_next {
        assert(none);
        assert forall|p: int, q: int|
            0 <= p < next.done.len() && 0 <= q < adj[next.done[p]].len() implies next.done.take(
            p,
        ).contains(#[trigger] adj[next.done[p]][q]) by {
            if p < w.done.len() {
                assert(next.done[p] == w.done[p]);
                assert(next.done.take(p) =~= w.done.take(p));
            } else {
                assert(next.done[p] == node);
                assert(next.done.take(p) =~= w.done);
                assert(q < w.stack[n - 1].1);
                let v = adj[w.stack[n - 1].0][q];
                assert(w.done.contains(v));
            }
        }
        assert forall|i: int, q: int| 0 <= i < next.stack.len() && 0 <= q < next.stack[i].1 implies {
            let v = #[trigger] adj[next.stack[i].0][q];
            next.done.contains(v) || (i + 1 < next.stack.len() && v == next.stack[i + 1].0)
        } by {
            let v = adj[next.stack[i].0][q];
            assert forall|x: int| w.done.contains(x) implies next.done.contains(x) by {
                let z = choose|z: int| 0 <= z < w.done.len() && w.done[z] == x;
                assert(next.done[z] == x);
            }
            if i < n - 1 {
                assert(next.stack[i] == w.stack[i]);
                assert(v == adj[w.stack[i].0][q]);
                if !w.done.contains(v) {
                    assert(v == w.stack[i + 1].0);
                    if i + 1 < n - 1 {
                        assert(next.stack[i + 1] == w.stack[i + 1]);
                    } else if k >= adj[node].len() {
                        assert(next.done[w.done.len() as int] == node);
                    } else {
                        assert(next.stack[i + 1].0 == node);
                    }
                }
            } else if i == n - 1 {
                assert(k < adj[node].len());
                assert(next.stack[i] == (node, k + 1));
                if q < k {
                    assert(v == adj[w.stack[n - 1].0][q]);
                    assert(w.done.contains(v));
                } else {
                    assert(v == adj[node][k]);
                }
            }
        }
    }
}

/// Nothing that was entered is forgotten.
spec fn known(w: Walk, x: int) -> bool {
    w.done.contains(x) || path(w.stack).contains(x)
}

proof fn step_known(adj: Seq<Seq<int>>, w: Walk, x: int)
    requires
        w.stack.len() > 0,
        known(w, x),
    ensures
        known(step(adj, w), x),
{
    let next = step(adj, w);
    let (node, k) = w.stack.last();
    if w.done.contains(x) {
        let i = choose|i: int| 0 <= i < w.done.len() && w.done[i] == x;
        assert(next.done[i] == x);
    } else {
        let p = path(w.stack);
        let i = choose|i: int| 0 <= i < p.len() && p[i] == x;
        assert(w.stack[i].0 == x);
        if k >= adj[node].len() {
            if i == p.len() - 1 {
                assert(next.done[w.done.len() as int] == x);
            } else {
                assert(path(next.stack)[i] == x);
            }
        } else {
            assert(path(next.stack)[i] == x);
        }
    }
}

proof fn run_faithful(adj: Seq<Seq<int>>, w: Walk)
    requires
        valid_graph(adj),
        sane(adj, w),
        faithful(adj, w),
    ensures
        sane(adj, run(adj, w)),
        faithful(adj, run(adj, w)),
        run(adj, w).stack.len() == 0,
        forall|x: int| known(w, x) ==> #[trigger] run(adj, w).done.contains(x),
    decreases adj.len() - w.done.len() - w.stack.len(), work(adj, w.stack),
{
    if w.stack.len() == 0 {
        assert(path(w.stack) =~= Seq::<int>::empty());
    } else {
        step_sane(adj, w);
        step_faithful(adj, w);
        run_faithful(adj, step(adj, w));
        assert forall|x: int| known(w, x) implies #[trigger] run(adj, w).done.contains(x) by {
            step_known(adj, w, x);
        }
    }
}

proof fn enter_sane(adj: Seq<Seq<int>>, start: int, w: Walk)
    requires
        valid_graph(adj),
        0 <= start < adj.len(),
        sane(adj, w),
        faithful(adj, w),
        w.stack.len() == 0,
        !w.done.contains(start),
    ensures
        sane(adj, entered(w, start)),
        faithful(adj, entered(w, start)),
{
    let first = entered(w, start);
    assert(path(first.stack) =~= seq![start]);
    assert(path(w.stack) =~= Seq::<int>::empty());
    assert(w.done + path(w.stack) =~= w.done);
    let all = first.done + path(first.stack);
    assert forall|i: int, j: int| 0 <= i < j < all.len() implies all[i] != all[j] by {
        if j == w.done.len() {
            assert(w.done.contains(w.done[i]));
        } else {
            assert(w.done[i] != w.done[j]);
        }
    }
    assert(first.stack.len() == 1 && first.stack[0].1 == 0);
    if forall|c: Seq<int>| !first.found.contains(c) {
        assert forall|c: Seq<int>| !w.found.contains(c) by {
            assert(!first.found.contains(c));
        }
        assert forall|p: int, k: int|
            0 <= p < first.done.len() && 0 <= k < adj[first.done[p]].len() implies first.done.take(
            p,
        ).contains(#[trigger] adj[first.done[p]][k]) by {
            assert(w.done.take(p).contains(adj[w.done[p]][k]));
        }
    }
    assert(faithful(adj, first));
}

proof fn walk_faithful(adj: Seq<Seq<int>>, start: int, w: Walk)
    requires
        valid_graph(adj),
        0 <= start <= adj.len(),
        sane(adj, w),
        faithful(adj, w),
        w.stack.len() == 0,
        forall|x: int| 0 <= x < start ==> #[trigger] w.done.contains(x),
    ensures
        sane(adj, walk_from(adj, start, w)),
        faithful(adj, walk_from(adj, start, w)),
        walk_from(adj, start, w).stack.len() == 0,
        forall|x: int| 0 <= x < adj.len() ==> #[trigger] walk_from(adj, start, w).done.contains(x),
    decreases adj.len() - start,
{
    if start < adj.len() {
        if w.done.contains(start) {
            walk_faithful(adj, start + 1, w);
        } else {
            let first = entered(w, start);
            enter_sane(adj, start, w);
            run_faithful(adj, first);
            assert(path(first.stack)[0] == start);
            let after = run(adj, first);
            assert forall|x: int| 0 <= x < start + 1 implies #[trigger] after.done.contains(x) by {
                if x < start {
                    assert(w.done.contains(x));
                }
                assert(known(first, x));
            }
            walk_faithful(adj, start + 1, after);
        }
    }
}

proof fn whole_faithful(adj: Seq<Seq<int>>)
    requires
        valid_graph(adj),
    ensures
        sane(adj, walk_from(adj, 0, fresh())),
        faithful(adj, walk_from(adj, 0, fresh())),
        forall|x: int| 0 <= x < adj.len() ==> #[trigger] walk_from(adj, 0, fresh()).done.contains(x),
{
    let w = fresh();
    assert(w.done + path(w.stack) =~= Seq::<int>::empty());
    walk_faithful(adj, 0, w);
}

proof fn run_finite(adj: Seq<Seq<int>>, w: Walk)
    requires
        valid_graph(adj),
        sane(adj, w),
        w.found.finite(),
    ensures
        run(adj, w).found.finite(),
    decreases adj.len() - w.done.len() - w.stack.len(), work(adj, w.stack),
{
    if w.stack.len() > 0 {
        step_sane(adj, w);
        run_finite(adj, step(adj, w));
    }
}

proof fn walk_finite(adj: Seq<Seq<int>>, start: int, w: Walk)
    requires
        valid_graph(adj),
        0 <= start <= adj.len(),
        sane(adj, w),
        faithful(adj, w),
        w.stack.len() == 0,
        w.found.finite(),
        forall|x: int| 0 <= x < start ==> #[trigger] w.done.contains(x),
    ensures
        walk_from(adj, start, w).found.finite(),
    decreases adj.len() - start,
{
    if start < adj.len() {
        if w.done.contains(start) {
            walk_finite(adj, start + 1, w);
        } else {
            let first = entered(w, start);
            enter_sane(adj, start, w);
            run_faithful(adj, first);
            run_finite(adj, first);
            let after = run(adj, first);
            assert(path(first.stack)[0] == start);
            assert forall|x: int| 0 <= x < start + 1 implies #[trigger] after.done.contains(x) by {
                if x < start {
                    assert(w.done.contains(x));
                }
                assert(known(first, x));
            }
            walk_finite(adj, start + 1, after);
        }
    }
}

/// The cycles reported are finitely many.
pub proof fn cycles_finite(adj: Seq<Seq<int>>)
    requires
        valid_graph(adj),
    ensures
        cycles_of(adj).finite(),
{
    let w = fresh();
    assert(w.done + path(w.stack) =~= Seq::<int>::empty());
    walk_finite(adj, 0, w);
}

/// Every cycle reported is a cycle of the graph, with its smallest node first.
pub proof fn reported_is_cycle(adj: Seq<Seq<int>>, c: Seq<int>)
    requires
        valid_graph(adj),
        cycles_of(adj).contains(c),
    ensures
        is_cycle(adj, c),
        smallest_first(c),
{
    whole_faithful(adj);
}

/// A graph that has a cycle has one reported.
pub proof fn cycle_is_reported(adj: Seq<Seq<int>>, c: Seq<int>)
    requires
        valid_graph(adj),
        is_cycle(adj, c),
    ensures
        exists|r: Seq<int>| cycles_of(adj).contains(r),
{
    whole_faithful(adj);
    let w = walk_from(adj, 0, fresh());
    if forall|r: Seq<int>| !w.found.contains(r) {
        // Each edge leads to a node that was finished earlier, so going around
        // the cycle the finishing positions only decrease.
        assert(w.done.no_duplicates()) by {
            let all = w.done + path(w.stack);
            assert forall|i: int, j: int| 0 <= i < w.done.len() && 0 <= j < w.done.len() && i != j
                implies w.done[i] != w.done[j] by {
                assert(all[i] == w.done[i] && all[j] == w.done[j]);
            }
        }
        descending(adj, w, c, c.len() - 1);
        edge_descends(adj, w, c.last(), c[0]);
        assert(false);
    } else {
        let r = choose|r: Seq<int>| w.found.contains(r);
        assert(cycles_of(adj).contains(r));
    }
}

proof fn edge_descends(adj: Seq<Seq<int>>, w: Walk, a: int, b: int)
    requires
        valid_graph(adj),
        faithful(adj, w),
        w.done.no_duplicates(),
        forall|r: Seq<int>| !w.found.contains(r),
        forall|x: int| 0 <= x < adj.len() ==> #[trigger] w.done.contains(x),
        edge(adj, a, b),
    ensures
        0 <= w.done.index_of(b) < w.done.index_of(a) < w.done.len(),
{
    assert(w.done.contains(a));
    let p = w.done.index_of(a);
    assert(0 <= p < w.done.len() && w.done[p] == a);
    let k = choose|k: int| 0 <= k < adj[a].len() && adj[a][k] == b;
    assert(w.done.take(p).contains(adj[w.done[p]][k]));
    let q = choose|q: int| 0 <= q < p && w.done.take(p)[q] == b;
    assert(w.done[q] == b);
    assert(w.done.contains(b));
    let r = w.done.index_of(b);
    assert(w.done[r] == b);
    assert(r == q);
}

proof fn descending(adj: Seq<Seq<int>>, w: Walk, c: Seq<int>, i: int)
    requires
        valid_graph(adj),
        faithful(adj, w),
        w.done.no_duplicates(),
        forall|r: Seq<int>| !w.found.contains(r),
        forall|x: int| 0 <= x < adj.len() ==> #[trigger] w.done.contains(x),
        is_cycle(adj, c),
        0 <= i < c.len(),
    ensures
        w.done.index_of(c[i]) <= w.done.index_of(c[0]),
    decreases i,
{
    if i > 0 {
        descending(adj, w, c, i - 1);
        assert(edge(adj, c[i - 1], c[i]));
        edge_descends(adj, w, c[i - 1], c[i]);
    }
}

}
