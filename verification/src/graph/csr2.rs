//! Compressed sparse row graphs built from edge lists.

pub mod search;
pub mod scc;

use vstd::prelude::*;
use vstd::pervasive::cloned;
use core::marker::PhantomData;
use vstd::arithmetic::div_mod::{lemma_small_mod, lemma_mod_self_0};

verus! {

/// An edge `source -> target` with a weight.
#[derive(Debug, Clone, Copy, PartialEq, Eq, PartialOrd, Ord, Hash)]
pub struct Edge<W> {
    pub source: usize,
    pub target: usize,
    pub weight: W,
}

impl<W> Edge<W> {
    /// The same edge pointing the other way.
    pub fn reverse(self) -> (r: Self)
        ensures
            r.source == self.target,
            r.target == self.source,
            r.weight == self.weight,
    {
        Edge { source: self.target, target: self.source, weight: self.weight }
    }
}

/// An edge as seen from its source.
#[derive(Debug, Clone, Copy, PartialEq, Eq, PartialOrd, Ord, Hash)]
pub struct OutEdge<W> {
    pub target: usize,
    pub weight: W,
}

/// Marks a graph whose edges are directed.
#[derive(Debug)]
pub struct Directed;

/// Marks a graph whose edges go both ways.
#[derive(Debug)]
pub struct Undirected;

/// The out-edge that `e` gives its source.
pub open spec fn out_of<W>(e: Edge<W>) -> OutEdge<W> {
    OutEdge { target: e.target, weight: e.weight }
}

/// The out-edges of `s` among `edges`, last edge first.
pub open spec fn out_list<W>(edges: Seq<Edge<W>>, s: int) -> Seq<OutEdge<W>>
    decreases edges.len(),
{
    if edges.len() == 0 {
        seq![]
    } else {
        let rest = out_list(edges.drop_first(), s);
        if edges[0].source == s {
            rest.push(out_of(edges[0]))
        } else {
            rest
        }
    }
}


/// The out-edges of a concatenation: those of the second part come first.
pub proof fn lemma_out_list_concat<W>(a: Seq<Edge<W>>, b: Seq<Edge<W>>, s: int)
    ensures
        out_list(a + b, s) == out_list(b, s) + out_list(a, s),
    decreases a.len(),
{
    if a.len() == 0 {
        assert(a + b =~= b);
        assert(out_list(b, s) + out_list(a, s) =~= out_list(b, s));
    } else {
        assert((a + b).drop_first() =~= a.drop_first() + b);
        lemma_out_list_concat(a.drop_first(), b, s);
        if a[0].source == s {
            assert(out_list(a + b, s) =~= out_list(b, s) + out_list(a, s));
        } else {
            assert(out_list(a + b, s) =~= out_list(b, s) + out_list(a, s));
        }
    }
}

/// The out-edges of a single edge.
proof fn lemma_out_list_single<W>(e: Edge<W>, s: int)
    ensures
        out_list(seq![e], s) == (if e.source == s { seq![out_of(e)] } else { Seq::<OutEdge<W>>::empty() }),
{
    assert(seq![e].drop_first() =~= Seq::<Edge<W>>::empty());
    assert(out_list(Seq::<Edge<W>>::empty(), s) =~= Seq::<OutEdge<W>>::empty());
    if e.source == s {
        assert(Seq::<OutEdge<W>>::empty().push(out_of(e)) =~= seq![out_of(e)]);
    }
}

/// The sum of a sequence of counts.
pub open spec fn sum(c: Seq<usize>) -> int
    decreases c.len(),
{
    if c.len() == 0 {
        0
    } else {
        sum(c.drop_last()) + c.last()
    }
}

proof fn lemma_sum_update(c: Seq<usize>, j: int, v: usize)
    requires
        0 <= j < c.len(),
    ensures
        sum(c.update(j, v)) == sum(c) - c[j] + v,
    decreases c.len(),
{
    if j < c.len() - 1 {
        assert(c.update(j, v).drop_last() =~= c.drop_last().update(j, v));
        lemma_sum_update(c.drop_last(), j, v);
    } else {
        assert(c.update(j, v).drop_last() =~= c.drop_last());
    }
}

proof fn lemma_sum_prefix(c: Seq<usize>, k: int)
    requires
        0 <= k < c.len(),
    ensures
        sum(c.take(k + 1)) == sum(c.take(k)) + c[k],
{
    assert(c.take(k + 1).drop_last() =~= c.take(k));
}

/// Edges that all leave nodes below `n` are all counted by the nodes below `n`.
proof fn lemma_counts_total<W>(edges: Seq<Edge<W>>, n: int)
    requires
        n >= 0,
        edges.len() <= usize::MAX,
        forall|i: int| 0 <= i < edges.len() ==> #[trigger] edges[i].source < n,
    ensures
        sum(Seq::new(n as nat, |s: int| out_list(edges, s).len() as usize)) == edges.len(),
    decreases edges.len(),
{
    let c = Seq::new(n as nat, |s: int| out_list(edges, s).len() as usize);
    if edges.len() == 0 {
        assert forall|k: int| 0 <= k <= n implies sum(c.take(k)) == 0 by {
            lemma_sum_zero(c, k);
        }
        assert(c.take(n) =~= c);
    } else {
        let rest = edges.drop_first();
        assert forall|i: int| 0 <= i < rest.len() implies #[trigger] rest[i].source < n by {
            assert(rest[i] == edges[i + 1]);
        }
        lemma_counts_total(rest, n);
        let c2 = Seq::new(n as nat, |s: int| out_list(rest, s).len() as usize);
        let j = edges[0].source as int;
        assert(edges[0].source < n);
        assert forall|t: int| 0 <= t < n implies out_list(rest, t).len() < edges.len() by {
            lemma_out_list_len(rest, t);
        }
        assert(c =~= c2.update(j, (c2[j] + 1) as usize));
        lemma_sum_update(c2, j, (c2[j] + 1) as usize);
    }
}

proof fn lemma_out_list_len<W>(edges: Seq<Edge<W>>, s: int)
    ensures
        out_list(edges, s).len() <= edges.len(),
    decreases edges.len(),
{
    if edges.len() > 0 {
        lemma_out_list_len(edges.drop_first(), s);
    }
}

proof fn lemma_sum_zero(c: Seq<usize>, k: int)
    requires
        0 <= k <= c.len(),
        forall|i: int| 0 <= i < c.len() ==> #[trigger] c[i] == 0,
    ensures
        sum(c.take(k)) == 0,
    decreases k,
{
    if k > 0 {
        lemma_sum_zero(c, k - 1);
        lemma_sum_prefix(c, k - 1);
    }
}

/// Collects edges before building a graph on the nodes `0..num_node`.
pub struct CSRBuilder<W, G> {
    edges: Vec<Edge<W>>,
    num_node: usize,
    graph_ty: PhantomData<G>,
}

impl<W, G> CSRBuilder<W, G> {
    /// The edges pushed so far, in order (an undirected edge as two directed ones).
    pub closed spec fn edges(&self) -> Seq<Edge<W>> {
        self.edges@
    }

    /// The number of nodes.
    pub closed spec fn num_node(&self) -> nat {
        self.num_node as nat
    }

    /// Every edge joins two of the nodes.
    pub open spec fn wf(&self) -> bool {
        forall|i: int| 0 <= i < self.edges().len() ==> #[trigger] self.edges()[i].source < self.num_node()
            && self.edges()[i].target < self.num_node()
    }
}

impl<W> CSRBuilder<W, Directed> {
    /// An empty builder for a directed graph on `num_node` nodes.
    pub fn with_capacity(capacity: usize, num_node: usize) -> (r: Self)
        ensures
            r.wf(),
            r.edges().len() == 0,
            r.num_node() == num_node,
    {
        CSRBuilder { edges: Vec::with_capacity(capacity), num_node, graph_ty: PhantomData }
    }

    /// Appends a directed edge.
    pub fn push_edge(&mut self, edge: Edge<W>)
        requires
            old(self).wf(),
            edge.source < old(self).num_node(),
            edge.target < old(self).num_node(),
        ensures
            final(self).wf(),
            final(self).num_node() == old(self).num_node(),
            final(self).edges() == old(self).edges().push(edge),
    {
        self.edges.push(edge);
        proof {
            assert forall|i: int| 0 <= i < self.edges().len() implies #[trigger] self.edges()[i].source
                < self.num_node() && self.edges()[i].target < self.num_node() by {
                if i < old(self).edges().len() {
                    assert(old(self).edges()[i] == self.edges()[i]);
                }
            }
        }
    }
}

impl<W> CSRBuilder<W, Undirected> {
    /// An empty builder for an undirected graph on `num_node` nodes.
    pub fn with_capacity(capacity: usize, num_node: usize) -> (r: Self)
        ensures
            r.wf(),
            r.edges().len() == 0,
            r.num_node() == num_node,
    {
        CSRBuilder { edges: Vec::with_capacity(if capacity <= usize::MAX / 2 { capacity * 2 } else { usize::MAX }), num_node, graph_ty: PhantomData }
    }

    /// Appends an undirected edge, as the edge and its reverse (whose weight is a clone).
    pub fn push_edge(&mut self, edge: Edge<W>)
        where W: Clone,
        requires
            old(self).wf(),
            edge.source < old(self).num_node(),
            edge.target < old(self).num_node(),
        ensures
            final(self).wf(),
            final(self).num_node() == old(self).num_node(),
            final(self).edges().len() == old(self).edges().len() + 2,
            final(self).edges().subrange(0, old(self).edges().len() as int) == old(self).edges(),
            ({
                let e = final(self).edges()[old(self).edges().len() as int];
                e.source == edge.source && e.target == edge.target && cloned(edge.weight, e.weight)
            }),
            final(self).edges()[old(self).edges().len() + 1int] == (Edge {
                source: edge.target,
                target: edge.source,
                weight: edge.weight,
            }),
    {
        let w = edge.weight.clone();
        let copy = Edge { source: edge.source, target: edge.target, weight: w };
        self.edges.push(copy);
        self.edges.push(Edge { source: edge.target, target: edge.source, weight: edge.weight });
        proof {
            assert(self.edges@.subrange(0, old(self).edges@.len() as int) =~= old(self).edges@);
            assert forall|i: int| 0 <= i < self.edges().len() implies #[trigger] self.edges()[i].source
                < self.num_node() && self.edges()[i].target < self.num_node() by {
                if i < old(self).edges().len() {
                    assert(old(self).edges()[i] == self.edges()[i]);
                }
            }
        }
    }
}

/// `i` lies in the block of some node below `k`, when the blocks partition `0..start[k]`.
proof fn lemma_cover(start: Seq<usize>, k: int, i: int)
    requires
        0 <= k < start.len(),
        start[0] == 0,
        0 <= i < start[k],
        forall|a: int| 0 <= a < k ==> #[trigger] start[a] <= start[a + 1],
    ensures
        exists|s: int| 0 <= s < k && start[s] <= i < #[trigger] start[s + 1],
    decreases k,
{
    if k > 0 {
        if i < start[k - 1] {
            lemma_cover(start, k - 1, i);
            let s = choose|s: int| 0 <= s < k - 1 && start[s] <= i < #[trigger] start[s + 1];
            assert(start[s] <= i < start[s + 1]);
        } else {
            assert(start[k - 1] <= i < start[k - 1 + 1]);
        }
    }
}

/// The number of edges leaving each node below `num_node`; the entry at `num_node` is zero.
fn count_sources<W>(edges: &Vec<Edge<W>>, num_node: usize) -> (cnt: Vec<usize>)
    requires
        num_node < usize::MAX,
        forall|j: int| 0 <= j < edges@.len() ==> #[trigger] edges@[j].source < num_node,
    ensures
        cnt@.len() == num_node + 1,
        forall|s: int| 0 <= s < num_node ==> #[trigger] cnt@[s] == out_list(edges@, s).len(),
{
    let ghost e = edges@;
    let m = edges.len();
    let n = num_node + 1;
    let mut cnt: Vec<usize> = Vec::new();
    let mut i: usize = 0;
    while i < n
        invariant
            i <= n,
            cnt@.len() == i,
            forall|j: int| 0 <= j < i ==> #[trigger] cnt@[j] == 0,
        decreases n - i,
    {
        cnt.push(0);
        i += 1;
    }
    proof {
        assert forall|s: int| 0 <= s < num_node implies #[trigger] cnt@[s] == out_list(e.take(0), s).len() by {
            assert(e.take(0) =~= Seq::<Edge<W>>::empty());
        }
    }
    let mut i: usize = 0;
    while i < m
        invariant
            e == edges@,
            m == e.len(),
            n == num_node + 1,
            i <= m,
            cnt@.len() == n,
            forall|j: int| 0 <= j < e.len() ==> #[trigger] e[j].source < num_node,
            forall|s: int| 0 <= s < num_node ==> #[trigger] cnt@[s] == out_list(e.take(i as int), s).len(),
        decreases m - i,
    {
        let src = edges[i].source;
        proof {
            assert(e[i as int].source < num_node);
            assert(e.take(i + 1) =~= e.take(i as int) + seq![e[i as int]]);
            assert forall|s: int| 0 <= s < num_node implies out_list(e.take(i + 1), s).len() == out_list(
                e.take(i as int),
                s,
            ).len() + (if e[i as int].source == s { 1int } else { 0 }) by {
                lemma_out_list_concat(e.take(i as int), seq![e[i as int]], s);
                lemma_out_list_single(e[i as int], s);
            }
            lemma_out_list_len(e.take(i as int), src as int);
        }
        let c = cnt[src];
        cnt.set(src, c + 1);
        i += 1;
    }
    proof {
        assert(e.take(m as int) =~= e);
    }
    cnt
}

/// The first position of each node's block, when the blocks hold `cnt[s]` edges each.
fn block_starts<W>(cnt: &Vec<usize>, num_node: usize, Ghost(e): Ghost<Seq<Edge<W>>>) -> (start: Vec<usize>)
    requires
        cnt@.len() == num_node + 1,
        e.len() <= usize::MAX,
        forall|j: int| 0 <= j < e.len() ==> #[trigger] e[j].source < num_node,
        forall|s: int| 0 <= s < num_node ==> #[trigger] cnt@[s] == out_list(e, s).len(),
    ensures
        start@.len() == num_node + 1,
        start@[0] == 0,
        start@[num_node as int] == e.len(),
        forall|a: int| 0 <= a < num_node ==> #[trigger] start@[a] + out_list(e, a).len() == start@[a + 1],
        forall|a: int, b: int| 0 <= a <= b <= num_node ==> #[trigger] start@[a] <= #[trigger] start@[b],
{
    let mut start: Vec<usize> = Vec::new();
    start.push(0);
    let ghost counts = Seq::new(num_node as nat, |s: int| out_list(e, s).len() as usize);
    let ghost m = e.len();
    proof {
        lemma_counts_total(e, num_node as int);
        assert forall|s: int| 0 <= s < num_node implies #[trigger] counts[s] == cnt@[s] by {
            lemma_out_list_len(e, s);
        }
    }
    let mut s: usize = 0;
    while s < num_node
        invariant
            s <= num_node,
            cnt@.len() == num_node + 1,
            counts.len() == num_node,
            forall|j: int| 0 <= j < num_node ==> #[trigger] counts[j] == cnt@[j],
            sum(counts) == m,
            m <= usize::MAX,
            start@.len() == s + 1,
            forall|k: int| 0 <= k <= s ==> #[trigger] start@[k] == sum(counts.take(k)),
        decreases num_node - s,
    {
        proof {
            lemma_sum_prefix(counts, s as int);
            lemma_sum_mono(counts, s + 1, num_node as int);
            assert(counts.take(num_node as int) =~= counts);
        }
        let v = start[s] + cnt[s];
        start.push(v);
        s += 1;
    }
    proof {
        assert(counts.take(num_node as int) =~= counts);
        assert(counts.take(0) =~= Seq::<usize>::empty());
        assert forall|a: int| 0 <= a < num_node implies #[trigger] start@[a] + out_list(e, a).len() == start@[a + 1] by {
            lemma_sum_prefix(counts, a);
            lemma_out_list_len(e, a);
        }
        assert forall|a: int, b: int| 0 <= a <= b <= num_node implies #[trigger] start@[a] <= #[trigger] start@[b] by {
            lemma_sum_mono(counts, a, b);
        }
    }
    start
}

/// Puts each edge's out-edge into its source's block, the last edge first.
#[verifier::rlimit(50)]
fn place_edges<W>(edges: Vec<Edge<W>>, start: &Vec<usize>, num_node: usize) -> (slots: Vec<Option<OutEdge<W>>>)
    requires
        start@.len() == num_node + 1,
        start@[num_node as int] == edges@.len(),
        forall|j: int| 0 <= j < edges@.len() ==> #[trigger] edges@[j].source < num_node,
        forall|a: int| 0 <= a < num_node ==> #[trigger] start@[a] + out_list(edges@, a).len() == start@[a + 1],
        forall|a: int, b: int| 0 <= a <= b <= num_node ==> #[trigger] start@[a] <= #[trigger] start@[b],
    ensures
        slots@.len() == edges@.len(),
        forall|a: int, t: int| 0 <= a < num_node && 0 <= t < out_list(edges@, a).len()
            ==> #[trigger] slots@[start@[a] + t] == Some(out_list(edges@, a)[t]),
{
    let ghost e = edges@;
    let m = edges.len();
    let mut slots: Vec<Option<OutEdge<W>>> = Vec::new();
    let mut i: usize = 0;
    while i < m
        invariant
            i <= m,
            slots@.len() == i,
        decreases m - i,
    {
        slots.push(None);
        i += 1;
    }
    let mut fill: Vec<usize> = Vec::new();
    let mut i: usize = 0;
    while i < num_node
        invariant
            i <= num_node,
            start@.len() == num_node + 1,
            fill@.len() == i,
            forall|j: int| 0 <= j < i ==> #[trigger] fill@[j] == start@[j],
        decreases num_node - i,
    {
        fill.push(start[i]);
        i += 1;
    }
    let mut edges = edges;
    proof {
        assert forall|a: int| 0 <= a < num_node implies #[trigger] fill@[a] == start@[a] + out_list(
            e.subrange(m as int, m as int),
            a,
        ).len() by {
            assert(e.subrange(m as int, m as int) =~= Seq::<Edge<W>>::empty());
        }
        assert(edges@ =~= e.take(m as int));
    }
    while edges.len() > 0
        invariant
            e.len() == m,
            edges@ == e.take(edges@.len() as int),
            edges@.len() <= m,
            slots@.len() == m,
            fill@.len() == num_node,
            start@.len() == num_node + 1,
            start@[num_node as int] == m,
            forall|j: int| 0 <= j < e.len() ==> #[trigger] e[j].source < num_node,
            forall|a: int| 0 <= a < num_node ==> #[trigger] start@[a] + out_list(e, a).len() == start@[a + 1],
            forall|a: int, b: int| 0 <= a <= b <= num_node ==> #[trigger] start@[a] <= #[trigger] start@[b],
            forall|a: int| 0 <= a < num_node ==> #[trigger] fill@[a] == start@[a] + out_list(
                e.subrange(edges@.len() as int, m as int),
                a,
            ).len(),
            forall|a: int, t: int| 0 <= a < num_node && 0 <= t < out_list(e.subrange(edges@.len() as int, m as int), a).len()
                ==> #[trigger] slots@[start@[a] + t] == Some(out_list(e.subrange(edges@.len() as int, m as int), a)[t]),
        decreases edges@.len(),
    {
        let ghost len = edges@.len() as int;
        let ghost p_old = e.subrange(len, m as int);
        let ghost p_new = e.subrange(len - 1, m as int);
        let ed = edges.pop().unwrap();
        let src = ed.source;
        proof {
            assert(ed == e[len - 1]);
            assert(p_new.drop_first() =~= p_old);
            assert(p_new[0] == ed);
            assert(edges@ =~= e.take(len - 1));
            assert(e =~= e.take(len - 1) + p_new);
            lemma_out_list_concat(e.take(len - 1), p_new, src as int);
            assert(e[len - 1].source < num_node);
        }
        let pos = fill[src];
        slots.set(pos, Some(OutEdge { target: ed.target, weight: ed.weight }));
        fill.set(src, pos + 1);
        proof {
            assert forall|a: int| 0 <= a < num_node implies #[trigger] fill@[a] == start@[a] + out_list(p_new, a).len() by {}
            assert forall|a: int, t: int| 0 <= a < num_node && 0 <= t < out_list(p_new, a).len()
                implies #[trigger] slots@[start@[a] + t] == Some(out_list(p_new, a)[t]) by {
                lemma_out_list_concat(e.take(len - 1), p_new, a);
                if a == src as int {
                    if t < out_list(p_old, a).len() {
                        assert(out_list(p_new, a)[t] == out_list(p_old, a)[t]);
                    }
                } else {
                    assert(out_list(p_new, a) == out_list(p_old, a));
                    if a < src as int {
                        assert(start@[a + 1] <= start@[src as int]);
                    } else {
                        assert(start@[src as int + 1] <= start@[a]);
                    }
                }
            }
        }
    }
    proof {
        assert(e.subrange(0, m as int) =~= e);
    }
    slots
}

/// The contents of slots that are all filled, in order.
fn unwrap_all<W>(slots: Vec<Option<OutEdge<W>>>) -> (r: Vec<OutEdge<W>>)
    requires
        forall|j: int| 0 <= j < slots@.len() ==> #[trigger] slots@[j] is Some,
    ensures
        r@.len() == slots@.len(),
        forall|k: int| 0 <= k < r@.len() ==> Some(#[trigger] r@[k]) == slots@[k],
{
    let ghost sl = slots@;
    let m = slots.len();
    let mut slots = slots;
    let mut rev: Vec<OutEdge<W>> = Vec::new();
    while slots.len() > 0
        invariant
            slots@ == sl.take(slots@.len() as int),
            sl.len() == m,
            forall|j: int| 0 <= j < m ==> #[trigger] sl[j] is Some,
            rev@.len() == m - slots@.len(),
            forall|k: int| 0 <= k < rev@.len() ==> Some(#[trigger] rev@[k]) == sl[m - 1 - k],
        decreases slots@.len(),
    {
        let ghost len = slots@.len() as int;
        let x = slots.pop().unwrap();
        proof {
            assert(x == sl[len - 1]);
            assert(slots@ =~= sl.take(len - 1));
            assert(sl[len - 1] is Some);
        }
        match x {
            Some(v) => {
                rev.push(v);
            },
            None => {},
        }
    }
    let mut target: Vec<OutEdge<W>> = Vec::new();
    while rev.len() > 0
        invariant
            sl.len() == m,
            rev@.len() + target@.len() == m,
            forall|k: int| 0 <= k < rev@.len() ==> Some(#[trigger] rev@[k]) == sl[m - 1 - k],
            forall|k: int| 0 <= k < target@.len() ==> Some(#[trigger] target@[k]) == sl[k],
        decreases rev@.len(),
    {
        let ghost len = rev@.len() as int;
        let ghost before = rev@;
        let v = rev.pop().unwrap();
        proof {
            assert(v == before[len - 1]);
        }
        target.push(v);
    }
    target
}

impl<W, G> CSRBuilder<W, G> {
    /// Builds the graph: the out-edges of each node are its edges in reverse order of
    /// insertion.
    #[verifier::rlimit(50)]
    pub fn build(self) -> (r: CSR<W, G>)
        requires
            self.wf(),
            self.num_node() < usize::MAX,
        ensures
            r.wf(),
            r.spec_num_nodes() == self.num_node(),
            r.spec_num_edges() == self.edges().len(),
            forall|s: int| 0 <= s < self.num_node() ==> #[trigger] r.out(s) == out_list(self.edges(), s),
    {
        let CSRBuilder { edges, num_node, graph_ty } = self;
        let ghost e = edges@;
        proof {
            assert forall|j: int| 0 <= j < e.len() implies (#[trigger] e[j]).source < num_node && e[j].target < num_node by {
                assert(self.edges()[j] == e[j]);
            }
        }
        let m = edges.len();
        let cnt = count_sources(&edges, num_node);
        let start = block_starts::<W>(&cnt, num_node, Ghost(e));
        let slots = place_edges(edges, &start, num_node);
        let ghost sl = slots@;
        proof {
            lemma_slots_filled(e, start@, sl, num_node as int);
        }
        let target = unwrap_all(slots);
        proof {
            lemma_blocks(e, start@, sl, target@, num_node as int);
        }
        let r = CSR { target, partition: start, graph_ty: PhantomData };
        proof {
            assert forall|a: int| 0 <= a < num_node implies #[trigger] r.out(a) == out_list(e, a) by {
                assert(r.out(a) == target@.subrange(start@[a] as int, start@[a + 1] as int));
            }
        }
        r
    }
}


/// Every slot of the blocks has been filled.
#[verifier::spinoff_prover]
#[verifier::rlimit(40)]
proof fn lemma_slots_filled<W>(e: Seq<Edge<W>>, start: Seq<usize>, sl: Seq<Option<OutEdge<W>>>, n: int)
    requires
        n >= 0,
        start.len() == n + 1,
        start[0] == 0,
        start[n] == e.len(),
        sl.len() == e.len(),
        forall|a: int| 0 <= a < n ==> #[trigger] start[a] + out_list(e, a).len() == start[a + 1],
        forall|a: int, b: int| 0 <= a <= b <= n ==> #[trigger] start[a] <= #[trigger] start[b],
        forall|a: int, t: int| 0 <= a < n && 0 <= t < out_list(e, a).len()
            ==> #[trigger] sl[start[a] + t] == Some(out_list(e, a)[t]),
    ensures
        forall|j: int| 0 <= j < sl.len() ==> #[trigger] sl[j] is Some,
{
    assert forall|j: int| 0 <= j < sl.len() implies #[trigger] sl[j] is Some by {
        assert forall|a: int| 0 <= a < n implies #[trigger] start[a] <= start[a + 1] by {
            assert(start[a] <= start[a + 1]);
        }
        lemma_cover(start, n, j);
        let a = choose|a: int| 0 <= a < n && start[a] <= j < #[trigger] start[a + 1];
        assert(sl[start[a] + (j - start[a])] == Some(out_list(e, a)[j - start[a]]));
    }
}

/// The unwrapped slots hold each node's out-edges in its block, all pointing below `n`.
proof fn lemma_blocks<W>(
    e: Seq<Edge<W>>,
    start: Seq<usize>,
    sl: Seq<Option<OutEdge<W>>>,
    target: Seq<OutEdge<W>>,
    n: int,
)
    requires
        n >= 0,
        start.len() == n + 1,
        start[0] == 0,
        start[n] == e.len(),
        sl.len() == e.len(),
        target.len() == sl.len(),
        forall|k: int| 0 <= k < target.len() ==> Some(#[trigger] target[k]) == sl[k],
        forall|j: int| 0 <= j < e.len() ==> (#[trigger] e[j]).source < n && e[j].target < n,
        forall|a: int| 0 <= a < n ==> #[trigger] start[a] + out_list(e, a).len() == start[a + 1],
        forall|a: int, b: int| 0 <= a <= b <= n ==> #[trigger] start[a] <= #[trigger] start[b],
        forall|a: int, t: int| 0 <= a < n && 0 <= t < out_list(e, a).len()
            ==> #[trigger] sl[start[a] + t] == Some(out_list(e, a)[t]),
    ensures
        forall|a: int| 0 <= a < n ==> #[trigger] target.subrange(start[a] as int, start[a + 1] as int) == out_list(e, a),
        forall|i: int| 0 <= i < target.len() ==> #[trigger] target[i].target < n,
{
    assert forall|a: int| 0 <= a < n implies #[trigger] target.subrange(start[a] as int, start[a + 1] as int) == out_list(e, a) by {
        assert(start[a + 1] <= start[n]);
        assert forall|t: int| 0 <= t < out_list(e, a).len() implies #[trigger] sl[start[a] + t] == Some(out_list(e, a)[t]) by {}
        lemma_block(e, start, sl, target, n, a);
    }
    assert forall|i: int| 0 <= i < target.len() implies #[trigger] target[i].target < n by {
        lemma_target_in_range(e, start, sl, target, n, i);
    }
}

proof fn lemma_block<W>(
    e: Seq<Edge<W>>,
    start: Seq<usize>,
    sl: Seq<Option<OutEdge<W>>>,
    target: Seq<OutEdge<W>>,
    n: int,
    a: int,
)
    requires
        0 <= a < n,
        start.len() == n + 1,
        target.len() == sl.len(),
        start[a + 1] <= target.len(),
        forall|k: int| 0 <= k < target.len() ==> Some(#[trigger] target[k]) == sl[k],
        start[a] + out_list(e, a).len() == start[a + 1],
        forall|t: int| 0 <= t < out_list(e, a).len() ==> #[trigger] sl[start[a] + t] == Some(out_list(e, a)[t]),
    ensures
        target.subrange(start[a] as int, start[a + 1] as int) == out_list(e, a),
{
    assert forall|t: int| 0 <= t < out_list(e, a).len() implies target.subrange(start[a] as int, start[a + 1] as int)[t] == out_list(e, a)[t] by {
        assert(sl[start[a] + t] == Some(out_list(e, a)[t]));
        assert(Some(target[start[a] + t]) == sl[start[a] + t]);
    }
    assert(target.subrange(start[a] as int, start[a + 1] as int) =~= out_list(e, a));
}

proof fn lemma_target_in_range<W>(
    e: Seq<Edge<W>>,
    start: Seq<usize>,
    sl: Seq<Option<OutEdge<W>>>,
    target: Seq<OutEdge<W>>,
    n: int,
    i: int,
)
    requires
        n >= 0,
        start.len() == n + 1,
        start[0] == 0,
        start[n] == e.len(),
        sl.len() == e.len(),
        target.len() == sl.len(),
        forall|k: int| 0 <= k < target.len() ==> Some(#[trigger] target[k]) == sl[k],
        forall|j: int| 0 <= j < e.len() ==> (#[trigger] e[j]).source < n && e[j].target < n,
        forall|a: int| 0 <= a < n ==> #[trigger] start[a] + out_list(e, a).len() == start[a + 1],
        forall|a: int, b: int| 0 <= a <= b <= n ==> #[trigger] start[a] <= #[trigger] start[b],
        forall|a: int, t: int| 0 <= a < n && 0 <= t < out_list(e, a).len()
            ==> #[trigger] sl[start[a] + t] == Some(out_list(e, a)[t]),
        0 <= i < target.len(),
    ensures
        target[i].target < n,
{
    assert forall|a: int| 0 <= a < n implies #[trigger] start[a] <= start[a + 1] by {
        assert(start[a] <= start[a + 1]);
    }
    lemma_cover(start, n, i);
    let a = choose|a: int| 0 <= a < n && start[a] <= i < #[trigger] start[a + 1];
    let t = i - start[a];
    assert(start[a] + out_list(e, a).len() == start[a + 1]);
    assert(sl[start[a] + t] == Some(out_list(e, a)[t]));
    assert(Some(target[i]) == sl[i]);
    assert forall|j: int| 0 <= j < e.len() implies #[trigger] e[j].target < n by {
        assert(e[j].target < n);
    }
    lemma_out_list_targets(e, a, n);
}

proof fn lemma_sum_mono(c: Seq<usize>, a: int, b: int)
    requires
        0 <= a <= b <= c.len(),
    ensures
        sum(c.take(a)) <= sum(c.take(b)),
    decreases b - a,
{
    if a < b {
        lemma_sum_mono(c, a, b - 1);
        lemma_sum_prefix(c, b - 1);
    }
}

/// Out-edges point at nodes below `n` when all edges do.
proof fn lemma_out_list_targets<W>(edges: Seq<Edge<W>>, s: int, n: int)
    requires
        forall|j: int| 0 <= j < edges.len() ==> #[trigger] edges[j].target < n,
    ensures
        forall|t: int| 0 <= t < out_list(edges, s).len() ==> #[trigger] out_list(edges, s)[t].target < n,
    decreases edges.len(),
{
    if edges.len() > 0 {
        let rest = edges.drop_first();
        assert forall|j: int| 0 <= j < rest.len() implies #[trigger] rest[j].target < n by {
            assert(rest[j] == edges[j + 1]);
        }
        lemma_out_list_targets(rest, s, n);
        assert(edges[0].target < n);
        assert forall|t: int| 0 <= t < out_list(edges, s).len() implies #[trigger] out_list(edges, s)[t].target < n by {
            if t < out_list(rest, s).len() {
                assert(out_list(edges, s)[t] == out_list(rest, s)[t]);
            }
        }
    }
}

/// A graph on the nodes `0..num_nodes` stored as the concatenation of every node's
/// out-edges.
pub struct CSR<W, G> {
    target: Vec<OutEdge<W>>,
    partition: Vec<usize>,
    graph_ty: PhantomData<G>,
}

impl<W, G> CSR<W, G> {
    /// The out-edges of `s`.
    pub closed spec fn out(&self, s: int) -> Seq<OutEdge<W>> {
        self.target@.subrange(self.partition@[s] as int, self.partition@[s + 1] as int)
    }

    /// The number of nodes.
    pub closed spec fn spec_num_nodes(&self) -> nat {
        (self.partition@.len() - 1) as nat
    }

    /// The number of edges.
    pub closed spec fn spec_num_edges(&self) -> nat {
        self.target@.len()
    }

    pub closed spec fn wf(&self) -> bool {
        &&& 1 <= self.partition@.len() <= usize::MAX
        &&& self.partition@[0] == 0
        &&& self.partition@[self.partition@.len() - 1] == self.target@.len()
        &&& forall|a: int, b: int| 0 <= a <= b < self.partition@.len() ==> #[trigger] self.partition@[a] <= #[trigger] self.partition@[b]
        &&& forall|i: int| 0 <= i < self.target@.len() ==> #[trigger] self.target@[i].target < self.spec_num_nodes()
    }
}

impl<W, G> CSR<W, G> {
    /// The out-edges of `source`.
    pub fn out_edges(&self, source: usize) -> (r: &[OutEdge<W>])
        requires
            self.wf(),
            source < self.spec_num_nodes(),
        ensures
            r@ == self.out(source as int),
    {
        let a = self.partition[source];
        let b = self.partition[source + 1];
        vstd::slice::slice_subrange(self.target.as_slice(), a, b)
    }

    /// The `nth` out-edge of `source`, if it has that many.
    pub fn nth_edge(&self, source: usize, nth: usize) -> (r: Option<OutEdge<&W>>)
        requires
            self.wf(),
            source < self.spec_num_nodes(),
        ensures
            r is Some <==> nth < self.out(source as int).len(),
            r is Some ==> r->0.target == self.out(source as int)[nth as int].target
                && *r->0.weight == self.out(source as int)[nth as int].weight,
    {
        let a = self.partition[source];
        let b = self.partition[source + 1];
        if nth < b - a {
            let e = &self.target[a + nth];
            Some(OutEdge { target: e.target, weight: &e.weight })
        } else {
            None
        }
    }

    /// `self` is `old` with the weight of the `nth` out-edge of `source` replaced by `w`.
    pub open spec fn written(&self, old: Self, source: int, nth: int, w: W) -> bool {
        &&& self.wf()
        &&& self.spec_num_nodes() == old.spec_num_nodes()
        &&& self.spec_num_edges() == old.spec_num_edges()
        &&& forall|s: int| 0 <= s < old.spec_num_nodes() ==> #[trigger] self.out(s) == (if s == source {
            old.out(s).update(nth, OutEdge { target: old.out(s)[nth].target, weight: w })
        } else {
            old.out(s)
        })
    }

    /// The `nth` out-edge of `source` with its weight borrowed mutably, if it has that many.
    pub fn nth_edge_mut(&mut self, source: usize, nth: usize) -> (r: Option<OutEdge<&mut W>>)
        requires
            old(self).wf(),
            source < old(self).spec_num_nodes(),
        ensures
            r is Some <==> nth < old(self).out(source as int).len(),
            r is None ==> *final(self) == *old(self),
            r is Some ==> r->0.target == old(self).out(source as int)[nth as int].target
                && *r->0.weight == old(self).out(source as int)[nth as int].weight,
            r is Some ==> final(self).wf() && final(self).spec_num_nodes() == old(self).spec_num_nodes()
                && final(self).spec_num_edges() == old(self).spec_num_edges(),
            r is Some ==> forall|s: int| 0 <= s < old(self).spec_num_nodes() ==> #[trigger] final(self).out(s)
                == (if s == source { old(self).out(s).update(nth as int, OutEdge { target: r->0.target, weight: *final(r->0.weight) }) } else { old(self).out(s) }),
    {
        let a = self.partition[source];
        let b = self.partition[source + 1];
        if nth < b - a {
            let e = &mut self.target[a + nth];
            Some(OutEdge { target: e.target, weight: &mut e.weight })
        } else {
            None
        }
    }

    /// The stored out-edges of all nodes, concatenated, and where each node's block starts.
    pub(crate) fn into_parts(self) -> (r: (Vec<OutEdge<W>>, Vec<usize>))
        requires
            self.wf(),
        ensures
            r.1@.len() == self.spec_num_nodes() + 1,
            1 <= r.1@.len() <= usize::MAX,
            r.1@[0] == 0,
            r.1@[r.1@.len() - 1] == r.0@.len(),
            forall|a: int, b: int| 0 <= a <= b < r.1@.len() ==> #[trigger] r.1@[a] <= #[trigger] r.1@[b],
            forall|i: int| 0 <= i < r.0@.len() ==> #[trigger] r.0@[i].target < self.spec_num_nodes(),
            forall|s: int| 0 <= s < self.spec_num_nodes() ==> #[trigger] self.out(s) == r.0@.subrange(
                r.1@[s] as int,
                r.1@[s + 1] as int,
            ),
            r.0@.len() == self.spec_num_edges(),
    {
        (self.target, self.partition)
    }

    /// The number of nodes.
    pub fn num_nodes(&self) -> (r: usize)
        requires
            self.wf(),
        ensures
            r == self.spec_num_nodes(),
    {
        self.partition.len() - 1
    }

    /// The number of edges.
    pub fn num_edges(&self) -> (r: usize)
        ensures
            r == self.spec_num_edges(),
    {
        self.target.len()
    }
}

impl<W, G> CSR<W, G> {
    /// Some out-edge of `s` ends at `t`.
    pub open spec fn has_edge(&self, s: int, t: int) -> bool {
        &&& 0 <= s < self.spec_num_nodes()
        &&& exists|k: int| 0 <= k < self.out(s).len() && #[trigger] self.out(s)[k].target == t
    }

    /// `walk` follows edges from node to node and returns to its first node.
    pub open spec fn is_closed_walk(&self, walk: Seq<int>) -> bool {
        &&& walk.len() > 0
        &&& forall|i: int| 0 <= i < walk.len() ==> #[trigger] self.has_edge(walk[i], walk[(i + 1) % (walk.len() as int)])
    }

    /// No walk returns to where it started.
    pub open spec fn is_acyclic(&self) -> bool {
        forall|walk: Seq<int>| !#[trigger] self.is_closed_walk(walk)
    }

    /// `c` is a cycle of edges: each one is an out-edge of the graph, each ends where the
    /// next begins, and the last ends where the first begins.
    pub open spec fn is_cycle(&self, c: Seq<Edge<&W>>) -> bool {
        &&& c.len() > 0
        &&& forall|i: int| 0 <= i < c.len() ==> 0 <= (#[trigger] c[i]).source < self.spec_num_nodes()
            && exists|k: int| 0 <= k < self.out(c[i].source as int).len()
                && #[trigger] self.out(c[i].source as int)[k] == (OutEdge { target: c[i].target, weight: *c[i].weight })
        &&& forall|i: int| 0 <= i < c.len() - 1 ==> (#[trigger] c[i]).target == c[i + 1].source
        &&& c[c.len() - 1].target == c[0].source
    }
}

/// A cycle of edges gives a closed walk, so a graph with a cycle is not acyclic.
pub proof fn lemma_cycle_not_acyclic<W, G>(g: &CSR<W, G>, c: Seq<Edge<&W>>)
    requires
        g.is_cycle(c),
    ensures
        !g.is_acyclic(),
{
    let walk = Seq::new(c.len(), |i: int| c[i].source as int);
    assert forall|i: int| 0 <= i < walk.len() implies #[trigger] g.has_edge(walk[i], walk[(i + 1) % (walk.len() as int)]) by {
        assert(0 <= c[i].source < g.spec_num_nodes());
        let k = choose|k: int| 0 <= k < g.out(c[i].source as int).len()
            && #[trigger] g.out(c[i].source as int)[k] == (OutEdge { target: c[i].target, weight: *c[i].weight });
        if i < c.len() - 1 {
            lemma_small_mod((i + 1) as nat, walk.len());
            assert(c[i].target == c[i + 1].source);
        } else {
            lemma_mod_self_0(walk.len() as int);
        }
        assert(g.out(walk[i])[k].target == walk[(i + 1) % (walk.len() as int)]);
    }
    assert(g.is_closed_walk(walk));
}

/// Along a walk on which every step lowers `rank`, the rank after `j` steps is at most the
/// first rank minus `j`.
proof fn lemma_rank_descends<W, G>(g: &CSR<W, G>, rank: Seq<int>, walk: Seq<int>, j: int)
    requires
        g.wf(),
        rank.len() == g.spec_num_nodes(),
        forall|s: int, k: int| 0 <= s < g.spec_num_nodes() && 0 <= k < g.out(s).len()
            ==> rank[#[trigger] g.out(s)[k].target as int] < rank[s],
        g.is_closed_walk(walk),
        0 <= j < walk.len(),
    ensures
        0 <= walk[j] < g.spec_num_nodes(),
        rank[walk[j]] <= rank[walk[0]] - j,
    decreases j,
{
    assert(g.has_edge(walk[j], walk[(j + 1) % (walk.len() as int)]));
    if j > 0 {
        lemma_rank_descends(g, rank, walk, j - 1);
        assert(g.has_edge(walk[j - 1], walk[(j - 1 + 1) % (walk.len() as int)]));
        lemma_small_mod(j as nat, walk.len());
        let k = choose|k: int| 0 <= k < g.out(walk[j - 1]).len() && #[trigger] g.out(walk[j - 1])[k].target == walk[j];
        assert(rank[g.out(walk[j - 1])[k].target as int] < rank[walk[j - 1]]);
    }
}

/// A ranking that every edge lowers shows that the graph is acyclic.
proof fn lemma_ranked_acyclic<W, G>(g: &CSR<W, G>, rank: Seq<int>)
    requires
        g.wf(),
        rank.len() == g.spec_num_nodes(),
        forall|s: int, k: int| 0 <= s < g.spec_num_nodes() && 0 <= k < g.out(s).len()
            ==> rank[#[trigger] g.out(s)[k].target as int] < rank[s],
    ensures
        g.is_acyclic(),
{
    assert forall|walk: Seq<int>| !#[trigger] g.is_closed_walk(walk) by {
        if g.is_closed_walk(walk) {
            let l = walk.len() as int;
            lemma_rank_descends(g, rank, walk, l - 1);
            assert(g.has_edge(walk[l - 1], walk[(l - 1 + 1) % l]));
            lemma_mod_self_0(l);
            let k = choose|k: int| 0 <= k < g.out(walk[l - 1]).len() && #[trigger] g.out(walk[l - 1])[k].target == walk[0];
            assert(rank[g.out(walk[l - 1])[k].target as int] < rank[walk[l - 1]]);
        }
    }
}

/// The number of unvisited (zero) marks.
spec fn num_white(c: Seq<u8>) -> int
    decreases c.len(),
{
    if c.len() == 0 {
        0
    } else {
        num_white(c.drop_last()) + (if c.last() == 0 { 1int } else { 0 })
    }
}

proof fn lemma_num_white_update(c: Seq<u8>, j: int, v: u8)
    requires
        0 <= j < c.len(),
    ensures
        num_white(c.update(j, v)) == num_white(c) - (if c[j] == 0 { 1int } else { 0 }) + (if v == 0 { 1int } else { 0 }),
        num_white(c) >= 0,
    decreases c.len(),
{
    if j < c.len() - 1 {
        assert(c.update(j, v).drop_last() =~= c.drop_last().update(j, v));
        lemma_num_white_update(c.drop_last(), j, v);
    } else {
        assert(c.update(j, v).drop_last() =~= c.drop_last());
        lemma_num_white_nonneg(c.drop_last());
    }
}

proof fn lemma_num_white_nonneg(c: Seq<u8>)
    ensures
        num_white(c) >= 0,
    decreases c.len(),
{
    if c.len() > 0 {
        lemma_num_white_nonneg(c.drop_last());
    }
}

impl<W, G> CSR<W, G> {
    /// The work left on a search stack: for each entry, the edges it has still to try, plus one.
    spec fn stack_load(&self, st: Seq<(usize, usize)>) -> int
        decreases st.len(),
    {
        if st.len() == 0 {
            0
        } else {
            self.stack_load(st.drop_last()) + (self.out(st.last().0 as int).len() - st.last().1 + 1)
        }
    }

    proof fn lemma_stack_load_nonneg(&self, st: Seq<(usize, usize)>)
        requires
            forall|j: int| 0 <= j < st.len() ==> (#[trigger] st[j]).1 <= self.out(st[j].0 as int).len(),
        ensures
            self.stack_load(st) >= 0,
        decreases st.len(),
    {
        if st.len() > 0 {
            assert forall|j: int| 0 <= j < st.drop_last().len() implies (#[trigger] st.drop_last()[j]).1
                <= self.out(st.drop_last()[j].0 as int).len() by {
                assert(st.drop_last()[j] == st[j]);
            }
            self.lemma_stack_load_nonneg(st.drop_last());
            assert(st.last() == st[st.len() - 1]);
        }
    }

    /// Invariant of the search in `find_cycle`: the stack is a path of distinct grey (1)
    /// nodes, each entry counting the out-edges it has tried; black (2) nodes have only
    /// black successors, of lower rank.
    spec fn search_inv(&self, color: Seq<u8>, rank: Seq<int>, time: int, st: Seq<(usize, usize)>) -> bool {
        let n = self.spec_num_nodes();
        &&& color.len() == n
        &&& rank.len() == n
        &&& forall|v: int| 0 <= v < n ==> #[trigger] color[v] <= 2
        &&& forall|j: int| 0 <= j < st.len() ==> (#[trigger] st[j]).0 < n
            && st[j].1 <= self.out(st[j].0 as int).len()
            && color[st[j].0 as int] == 1
        &&& forall|j1: int, j2: int| 0 <= j1 < j2 < st.len() ==> (#[trigger] st[j1]).0 != (#[trigger] st[j2]).0
        &&& forall|u: int| 0 <= u < n && #[trigger] color[u] == 1 ==> exists|j: int| 0 <= j < st.len() && (#[trigger] st[j]).0 == u
        &&& forall|j: int| 0 <= j < st.len() - 1 ==> (#[trigger] st[j]).1 >= 1
            && self.out(st[j].0 as int)[st[j].1 - 1].target == st[j + 1].0
        &&& forall|j: int, k: int| #![trigger self.out(st[j].0 as int)[k]]
            0 <= j < st.len() && 0 <= k < st[j].1 && (j == st.len() - 1 || k < st[j].1 - 1)
            ==> color[self.out(st[j].0 as int)[k].target as int] == 2
        &&& forall|v: int, k: int| #![trigger self.out(v)[k]]
            0 <= v < n && color[v] == 2 && 0 <= k < self.out(v).len()
            ==> color[self.out(v)[k].target as int] == 2 && rank[self.out(v)[k].target as int] < rank[v]
        &&& forall|v: int| 0 <= v < n && #[trigger] color[v] == 2 ==> rank[v] < time
    }

    /// Starting a search from the white node `s` keeps the invariant.
    proof fn lemma_start(&self, color: Seq<u8>, rank: Seq<int>, time: int, s: usize)
        requires
            self.wf(),
            self.search_inv(color, rank, time, Seq::empty()),
            s < self.spec_num_nodes(),
            color[s as int] == 0,
        ensures
            self.search_inv(color.update(s as int, 1), rank, time, seq![(s, 0usize)]),
    {
        let c2 = color.update(s as int, 1);
        let st = seq![(s, 0usize)];
        assert forall|u: int| 0 <= u < self.spec_num_nodes() && #[trigger] c2[u] == 1 implies exists|j: int|
            0 <= j < st.len() && (#[trigger] st[j]).0 == u by {
            assert(st[0].0 == u);
        }
        assert forall|v: int, k: int| #![trigger self.out(v)[k]]
            0 <= v < self.spec_num_nodes() && c2[v] == 2 && 0 <= k < self.out(v).len()
            implies c2[self.out(v)[k].target as int] == 2 && rank[self.out(v)[k].target as int] < rank[v] by {
            assert(color[v] == 2);
        }
    }

    /// Following the top's next edge to a white node and pushing it keeps the invariant.
    proof fn lemma_push_white(&self, color: Seq<u8>, rank: Seq<int>, time: int, st: Seq<(usize, usize)>, tar: usize)
        requires
            self.wf(),
            self.search_inv(color, rank, time, st),
            st.len() > 0,
            st.last().1 < self.out(st.last().0 as int).len(),
            tar == self.out(st.last().0 as int)[st.last().1 as int].target,
            color[tar as int] == 0,
        ensures
            ({
                let t = st.len() - 1;
                let st2 = st.update(t, (st[t].0, (st[t].1 + 1) as usize)).push((tar, 0usize));
                self.search_inv(color.update(tar as int, 1), rank, time, st2)
            }),
    {
        let n = self.spec_num_nodes();
        let t = st.len() - 1;
        let st2 = st.update(t, (st[t].0, (st[t].1 + 1) as usize)).push((tar, 0usize));
        let c2 = color.update(tar as int, 1);
        assert(tar < n);
        assert forall|j: int| 0 <= j < st2.len() implies (#[trigger] st2[j]).0 < n
            && st2[j].1 <= self.out(st2[j].0 as int).len() && c2[st2[j].0 as int] == 1 by {
            if j < st.len() {
                assert(st[j].0 < n && color[st[j].0 as int] == 1);
            }
        }
        assert forall|j1: int, j2: int| 0 <= j1 < j2 < st2.len() implies (#[trigger] st2[j1]).0 != (#[trigger] st2[j2]).0 by {
            assert(st[j1].0 < n && color[st[j1].0 as int] == 1);
            if j2 < st.len() {
                assert(st[j1].0 != st[j2].0);
            }
        }
        assert forall|u: int| 0 <= u < n && #[trigger] c2[u] == 1 implies exists|j: int| 0 <= j < st2.len() && (#[trigger] st2[j]).0 == u by {
            if u == tar {
                assert(st2[st2.len() - 1].0 == u);
            } else {
                assert(color[u] == 1);
                let j = choose|j: int| 0 <= j < st.len() && (#[trigger] st[j]).0 == u;
                assert(st2[j].0 == u);
            }
        }
        assert forall|j: int| 0 <= j < st2.len() - 1 implies (#[trigger] st2[j]).1 >= 1
            && self.out(st2[j].0 as int)[st2[j].1 - 1].target == st2[j + 1].0 by {
            if j < t {
                assert(st[j].1 >= 1 && self.out(st[j].0 as int)[st[j].1 - 1].target == st[j + 1].0);
            }
        }
        assert forall|j: int, k: int| #![trigger self.out(st2[j].0 as int)[k]]
            0 <= j < st2.len() && 0 <= k < st2[j].1 && (j == st2.len() - 1 || k < st2[j].1 - 1)
            implies c2[self.out(st2[j].0 as int)[k].target as int] == 2 by {
            assert(j <= t);
            assert(st2[j].0 == st[j].0);
            assert(color[self.out(st[j].0 as int)[k].target as int] == 2);
        }
        assert forall|v: int, k: int| #![trigger self.out(v)[k]]
            0 <= v < n && c2[v] == 2 && 0 <= k < self.out(v).len()
            implies c2[self.out(v)[k].target as int] == 2 && rank[self.out(v)[k].target as int] < rank[v] by {
            assert(color[v] == 2);
        }
        assert forall|v: int| 0 <= v < n && #[trigger] c2[v] == 2 implies rank[v] < time by {
            assert(color[v] == 2);
        }
    }

    /// Following the top's next edge to a black node keeps the invariant.
    proof fn lemma_skip_black(&self, color: Seq<u8>, rank: Seq<int>, time: int, st: Seq<(usize, usize)>)
        requires
            self.wf(),
            self.search_inv(color, rank, time, st),
            st.len() > 0,
            st.last().1 < self.out(st.last().0 as int).len(),
            color[self.out(st.last().0 as int)[st.last().1 as int].target as int] == 2,
        ensures
            ({
                let t = st.len() - 1;
                let st2 = st.update(t, (st[t].0, (st[t].1 + 1) as usize));
                self.search_inv(color, rank, time, st2) && self.stack_load(st2) == self.stack_load(st) - 1
            }),
    {
        let n = self.spec_num_nodes();
        let t = st.len() - 1;
        let st2 = st.update(t, (st[t].0, (st[t].1 + 1) as usize));
        assert(st2.drop_last() =~= st.drop_last());
        assert forall|u: int| 0 <= u < n && #[trigger] color[u] == 1 implies exists|j: int| 0 <= j < st2.len() && (#[trigger] st2[j]).0 == u by {
            let j = choose|j: int| 0 <= j < st.len() && (#[trigger] st[j]).0 == u;
            assert(st2[j].0 == u);
        }
        assert forall|j: int| 0 <= j < st2.len() - 1 implies (#[trigger] st2[j]).1 >= 1
            && self.out(st2[j].0 as int)[st2[j].1 - 1].target == st2[j + 1].0 by {
            assert(st[j].1 >= 1 && self.out(st[j].0 as int)[st[j].1 - 1].target == st[j + 1].0);
        }
        assert forall|j: int, k: int| #![trigger self.out(st2[j].0 as int)[k]]
            0 <= j < st2.len() && 0 <= k < st2[j].1 && (j == st2.len() - 1 || k < st2[j].1 - 1)
            implies color[self.out(st2[j].0 as int)[k].target as int] == 2 by {
            assert(st2[j].0 == st[j].0);
            if j < t || k < st[j].1 {
                assert(color[self.out(st[j].0 as int)[k].target as int] == 2);
            }
        }
        assert forall|j1: int, j2: int| 0 <= j1 < j2 < st2.len() implies (#[trigger] st2[j1]).0 != (#[trigger] st2[j2]).0 by {
            assert(st[j1].0 != st[j2].0);
        }
        assert forall|j: int| 0 <= j < st2.len() implies (#[trigger] st2[j]).0 < n
            && st2[j].1 <= self.out(st2[j].0 as int).len() && color[st2[j].0 as int] == 1 by {
            assert(st[j].0 < n && color[st[j].0 as int] == 1);
        }
    }

    /// Leaving the top node, which has tried all its edges, and colouring it black with
    /// the next rank keeps the invariant.
    proof fn lemma_finish(&self, color: Seq<u8>, rank: Seq<int>, time: int, st: Seq<(usize, usize)>)
        requires
            self.wf(),
            self.search_inv(color, rank, time, st),
            st.len() > 0,
            st.last().1 == self.out(st.last().0 as int).len(),
        ensures
            ({
                let v = st.last().0 as int;
                self.search_inv(color.update(v, 2), rank.update(v, time), time + 1, st.drop_last())
                    && self.stack_load(st.drop_last()) == self.stack_load(st) - 1
            }),
    {
        let n = self.spec_num_nodes();
        let t = st.len() - 1;
        let src = st[t].0 as int;
        let st2 = st.drop_last();
        let c2 = color.update(src, 2);
        let r2 = rank.update(src, time);
        assert(st.last() == st[t]);
        assert(src < n && color[src] == 1);
        assert forall|j: int| 0 <= j < st2.len() implies (#[trigger] st2[j]).0 < n
            && st2[j].1 <= self.out(st2[j].0 as int).len() && c2[st2[j].0 as int] == 1 by {
            assert(st2[j] == st[j]);
            assert(st[j].0 < n && color[st[j].0 as int] == 1);
            assert(st[j].0 != st[t].0);
        }
        assert forall|j1: int, j2: int| 0 <= j1 < j2 < st2.len() implies (#[trigger] st2[j1]).0 != (#[trigger] st2[j2]).0 by {
            assert(st[j1].0 != st[j2].0);
        }
        assert forall|u: int| 0 <= u < n && #[trigger] c2[u] == 1 implies exists|j: int| 0 <= j < st2.len() && (#[trigger] st2[j]).0 == u by {
            assert(color[u] == 1);
            let j = choose|j: int| 0 <= j < st.len() && (#[trigger] st[j]).0 == u;
            assert(j != t);
            assert(st2[j].0 == u);
        }
        assert forall|j: int| 0 <= j < st2.len() - 1 implies (#[trigger] st2[j]).1 >= 1
            && self.out(st2[j].0 as int)[st2[j].1 - 1].target == st2[j + 1].0 by {
            assert(st[j].1 >= 1 && self.out(st[j].0 as int)[st[j].1 - 1].target == st[j + 1].0);
        }
        assert forall|j: int, k: int| #![trigger self.out(st2[j].0 as int)[k]]
            0 <= j < st2.len() && 0 <= k < st2[j].1 && (j == st2.len() - 1 || k < st2[j].1 - 1)
            implies c2[self.out(st2[j].0 as int)[k].target as int] == 2 by {
            assert(st2[j] == st[j]);
            if k < st[j].1 - 1 {
                assert(color[self.out(st[j].0 as int)[k].target as int] == 2);
            } else {
                assert(st[j].1 >= 1 && self.out(st[j].0 as int)[st[j].1 - 1].target == st[j + 1].0);
            }
        }
        assert forall|v: int, k: int| #![trigger self.out(v)[k]]
            0 <= v < n && c2[v] == 2 && 0 <= k < self.out(v).len()
            implies c2[self.out(v)[k].target as int] == 2 && r2[self.out(v)[k].target as int] < r2[v] by {
            let w = self.out(v)[k].target as int;
            assert(self.out(v)[k] == self.target@[self.partition@[v] + k]);
            assert(w < n);
            if v == src {
                assert(color[self.out(st[t].0 as int)[k].target as int] == 2);
                assert(rank[w] < time);
            } else {
                assert(color[v] == 2);
                assert(color[w] == 2);
            }
        }
        assert forall|v: int| 0 <= v < n && #[trigger] c2[v] == 2 implies r2[v] < time + 1 by {
            if v != src {
                assert(color[v] == 2);
            }
        }
    }
}

impl<W> CSR<W, Directed> {
    /// Finds a cycle by depth-first search, or shows that there is none.
    pub fn find_cycle(&self) -> (r: Option<Vec<Edge<&W>>>)
        requires
            self.wf(),
        ensures
            match r {
                Some(c) => self.is_cycle(c@),
                None => self.is_acyclic(),
            },
    {
        let n = self.num_nodes();
        let mut color: Vec<u8> = Vec::new();
        let mut i: usize = 0;
        while i < n
            invariant
                i <= n,
                color@.len() == i,
                forall|v: int| 0 <= v < i ==> #[trigger] color@[v] == 0,
            decreases n - i,
        {
            color.push(0);
            i += 1;
        }
        let ghost mut rank: Seq<int> = Seq::new(n as nat, |v: int| 0int);
        let ghost mut time: int = 0;
        let mut stack: Vec<(usize, usize)> = Vec::new();
        let mut i: usize = 0;
        while i < n
            invariant
                self.wf(),
                n == self.spec_num_nodes(),
                i <= n,
                stack@.len() == 0,
                self.search_inv(color@, rank, time, stack@),
                forall|v: int| 0 <= v < i ==> #[trigger] color@[v] != 0,
            decreases n - i,
        {
            if color[i] != 0 {
                i += 1;
                continue;
            }
            proof {
                self.lemma_start(color@, rank, time, i);
            }
            color.set(i, 1);
            stack.push((i, 0));
            proof {
                assert(stack@ =~= seq![(i, 0usize)]);
            }
            while stack.len() > 0
                invariant
                    self.wf(),
                    n == self.spec_num_nodes(),
                    i < n,
                    self.search_inv(color@, rank, time, stack@),
                    forall|v: int| 0 <= v <= i ==> #[trigger] color@[v] != 0,
                decreases num_white(color@), self.stack_load(stack@),
            {
                let t = stack.len() - 1;
                let (src, nth) = stack[t];
                let ghost st = stack@;
                proof {
                    assert(st.last() == st[t as int]);
                    lemma_num_white_nonneg(color@);
                }
                match self.nth_edge(src, nth) {
                    Some(e) => {
                        let tar = e.target;
                        proof {
                            assert(self.out(src as int)[nth as int] == self.target@[self.partition@[src as int] + nth]);
                        }
                        if color[tar] == 0 {
                            proof {
                                self.lemma_push_white(color@, rank, time, st, tar);
                                lemma_num_white_update(color@, tar as int, 1);
                            }
                            stack.set(t, (src, nth + 1));
                            color.set(tar, 1);
                            stack.push((tar, 0));
                            proof {
                                lemma_num_white_nonneg(color@);
                            }
                        } else if color[tar] == 2 {
                            proof {
                                self.lemma_skip_black(color@, rank, time, st);
                            }
                            stack.set(t, (src, nth + 1));
                            proof {
                                self.lemma_stack_load_nonneg(stack@);
                            }
                        } else {
                            stack.set(t, (src, nth + 1));
                            return Some(self.cycle_from(&stack, tar, Ghost(color@), Ghost(rank), Ghost(time), Ghost(st)));
                        }
                    },
                    None => {
                        proof {
                            self.lemma_finish(color@, rank, time, st);
                            lemma_num_white_update(color@, src as int, 2);
                            rank = rank.update(src as int, time);
                            time = time + 1;
                        }
                        stack.pop();
                        color.set(src, 2);
                        proof {
                            assert(stack@ =~= st.drop_last());
                            self.lemma_stack_load_nonneg(stack@);
                        }
                    },
                }
            }
            i += 1;
        }
        proof {
            assert forall|s: int, k: int| 0 <= s < self.spec_num_nodes() && 0 <= k < self.out(s).len()
                implies rank[#[trigger] self.out(s)[k].target as int] < rank[s] by {
                assert(color@[s] != 0);
                if color@[s] == 1 {
                    let j = choose|j: int| 0 <= j < stack@.len() && (#[trigger] stack@[j]).0 == s;
                }
            }
            lemma_ranked_acyclic(self, rank);
        }
        None
    }

    /// The cycle closed by the edge from the top of the stack back to the grey node `tar`:
    /// the edges tried last by the stack entries from `tar` upwards.
    #[verifier::spinoff_prover]
    #[verifier::rlimit(40)]
    fn cycle_from(&self, stack: &Vec<(usize, usize)>, tar: usize, Ghost(color): Ghost<Seq<u8>>, Ghost(rank): Ghost<Seq<int>>,
        Ghost(time): Ghost<int>, Ghost(st): Ghost<Seq<(usize, usize)>>) -> (c: Vec<Edge<&W>>)
        requires
            self.wf(),
            self.search_inv(color, rank, time, st),
            st.len() > 0,
            st.last().1 < self.out(st.last().0 as int).len(),
            tar == self.out(st.last().0 as int)[st.last().1 as int].target,
            color[tar as int] == 1,
            stack@ == st.update(st.len() - 1, (st.last().0, (st.last().1 + 1) as usize)),
        ensures
            self.is_cycle(c@),
    {
        let ghost n = self.spec_num_nodes();
        let ghost t = st.len() - 1;
        proof {
            assert(st.last() == st[t]);
            assert(tar < n) by {
                assert(self.out(st[t].0 as int)[st[t].1 as int] == self.target@[self.partition@[st[t].0 as int] + st[t].1]);
            }
        }
        let len = stack.len();
        let mut p: usize = 0;
        while stack[p].0 != tar
            invariant
                len == stack@.len(),
                t == st.len() - 1,
                st.len() > 0,
                stack@ == st.update(t, (st[t].0, (st[t].1 + 1) as usize)),
                stack@.len() == st.len(),
                exists|j: int| p <= j < st.len() && (#[trigger] st[j]).0 == tar,
            decreases stack@.len() - p,
        {
            proof {
                assert(st[p as int].0 == stack@[p as int].0);
            }
            p += 1;
        }
        proof {
            assert(st[p as int].0 == tar);
        }
        let mut cycle: Vec<Edge<&W>> = Vec::new();
        let mut j: usize = p;
        while j < stack.len()
            invariant
                self.wf(),
                n == self.spec_num_nodes(),
                self.search_inv(color, rank, time, st),
                t == st.len() - 1,
                stack@ == st.update(t, (st[t].0, (st[t].1 + 1) as usize)),
                stack@.len() == st.len(),
                p <= j <= stack@.len(),
                st[t].1 < self.out(st[t].0 as int).len(),
                cycle@.len() == j - p,
                forall|m: int| 0 <= m < j - p ==> (#[trigger] cycle@[m]).source == stack@[p + m].0
                    && stack@[p + m].1 >= 1
                    && self.out(stack@[p + m].0 as int)[stack@[p + m].1 - 1] == (OutEdge { target: cycle@[m].target, weight: *cycle@[m].weight }),
            decreases stack@.len() - j,
        {
            let (v, k) = stack[j];
            proof {
                if j < t {
                    assert(st[j as int].1 >= 1);
                }
                assert(st[j as int].0 < n && st[j as int].1 <= self.out(st[j as int].0 as int).len());
            }
            let e = self.nth_edge(v, k - 1).unwrap();
            cycle.push(Edge { source: v, target: e.target, weight: e.weight });
            j += 1;
        }
        proof {
            let c = cycle@;
            assert forall|i: int| 0 <= i < c.len() implies 0 <= (#[trigger] c[i]).source < n
                && exists|k: int| 0 <= k < self.out(c[i].source as int).len()
                    && #[trigger] self.out(c[i].source as int)[k] == (OutEdge { target: c[i].target, weight: *c[i].weight }) by {
                assert(st[p + i].0 < n && st[p + i].1 <= self.out(st[p + i].0 as int).len());
                let k = stack@[p + i].1 - 1;
                assert(self.out(c[i].source as int)[k] == (OutEdge { target: c[i].target, weight: *c[i].weight }));
            }
            assert forall|i: int| 0 <= i < c.len() - 1 implies (#[trigger] c[i]).target == c[i + 1].source by {
                assert(st[p + i].1 >= 1 && self.out(st[p + i].0 as int)[st[p + i].1 - 1].target == st[p + i + 1].0);
                assert(self.out(stack@[p + i].0 as int)[stack@[p + i].1 - 1] == (OutEdge { target: c[i].target, weight: *c[i].weight }));
            }
            assert(self.out(stack@[t].0 as int)[stack@[t].1 - 1] == (OutEdge { target: c[c.len() - 1].target, weight: *c[c.len() - 1].weight }));
        }
        cycle
    }
}

} // verus!
