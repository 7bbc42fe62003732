//! Compressed sparse row graphs whose node indices are stored in a chosen unsigned type.

use vstd::prelude::*;
use vstd::pervasive::cloned;
use super::csr2;

verus! {

/// An unsigned integer type used to store node indices.
pub trait Index: Copy + Sized {
    /// The index as a number.
    spec fn spec_usize(self) -> int;

    /// The largest index the type holds.
    spec fn spec_max() -> int;

    /// The index of a number.
    spec fn spec_from(n: int) -> Self;

    proof fn lemma_index(self)
        ensures
            0 <= self.spec_usize() <= Self::spec_max() <= usize::MAX,
            Self::spec_from(self.spec_usize()) == self,
    ;

    proof fn lemma_from(n: int)
        requires
            0 <= n <= Self::spec_max(),
        ensures
            Self::spec_from(n).spec_usize() == n,
    ;

    fn into_usize(self) -> (r: usize)
        ensures
            r == self.spec_usize(),
    ;

    fn from_usize(n: usize) -> (r: Self)
        requires
            n <= Self::spec_max(),
        ensures
            r == Self::spec_from(n as int),
            r.spec_usize() == n,
    ;

    /// Whether every index up to `max_index`, and one more as a mark, fits in the type.
    fn assert_bounds(max_index: usize) -> (r: bool)
        ensures
            r == (max_index < Self::spec_max()),
    ;
}

impl Index for u8 {
    open spec fn spec_usize(self) -> int { self as int }
    open spec fn spec_max() -> int { u8::MAX as int }
    open spec fn spec_from(n: int) -> u8 { n as u8 }
    proof fn lemma_index(self) {}
    proof fn lemma_from(n: int) {}
    fn into_usize(self) -> (r: usize) { self as usize }
    fn from_usize(n: usize) -> (r: u8) { n as u8 }
    fn assert_bounds(max_index: usize) -> (r: bool) { max_index < u8::MAX as usize }
}

impl Index for u16 {
    open spec fn spec_usize(self) -> int { self as int }
    open spec fn spec_max() -> int { u16::MAX as int }
    open spec fn spec_from(n: int) -> u16 { n as u16 }
    proof fn lemma_index(self) {}
    proof fn lemma_from(n: int) {}
    fn into_usize(self) -> (r: usize) { self as usize }
    fn from_usize(n: usize) -> (r: u16) { n as u16 }
    fn assert_bounds(max_index: usize) -> (r: bool) { max_index < u16::MAX as usize }
}

impl Index for u32 {
    open spec fn spec_usize(self) -> int { self as int }
    open spec fn spec_max() -> int { if u32::MAX <= usize::MAX { u32::MAX as int } else { usize::MAX as int } }
    open spec fn spec_from(n: int) -> u32 { n as u32 }
    proof fn lemma_index(self) {
        assert(self as int <= usize::MAX) by {
            assert(usize::MAX >= u32::MAX);
        }
    }
    proof fn lemma_from(n: int) {}
    fn into_usize(self) -> (r: usize) { self as usize }
    fn from_usize(n: usize) -> (r: u32) { n as u32 }
    fn assert_bounds(max_index: usize) -> (r: bool) { (max_index as u64) < (u32::MAX as u64) }
}

impl Index for usize {
    open spec fn spec_usize(self) -> int { self as int }
    open spec fn spec_max() -> int { usize::MAX as int }
    open spec fn spec_from(n: int) -> usize { n as usize }
    proof fn lemma_index(self) {}
    proof fn lemma_from(n: int) {}
    fn into_usize(self) -> (r: usize) { self }
    fn from_usize(n: usize) -> (r: usize) { n }
    fn assert_bounds(max_index: usize) -> (r: bool) { max_index < usize::MAX }
}

/// A directed edge.
pub struct Edge<Idx: Index, W> {
    pub source: Idx,
    pub target: Idx,
    pub weight: W,
}

/// Marks a graph whose edges are directed.
#[derive(Debug, Clone, Copy, PartialEq, Eq, PartialOrd, Ord)]
pub struct Directed;

/// Marks a graph whose edges go both ways.
#[derive(Debug, Clone, Copy, PartialEq, Eq, PartialOrd, Ord)]
pub struct Undirected;

/// The edge with its endpoints as numbers.
pub open spec fn plain<Idx: Index, W>(e: Edge<Idx, W>) -> csr2::Edge<W> {
    csr2::Edge { source: e.source.spec_usize() as usize, target: e.target.spec_usize() as usize, weight: e.weight }
}

/// An out-edge with its target as an index.
pub open spec fn pair<Idx: Index, W>(o: csr2::OutEdge<W>) -> (Idx, W) {
    (Idx::spec_from(o.target as int), o.weight)
}

/// Read-only access to a graph's out-edges.
pub trait CSR<Idx: Index, W> {
    /// The out-edges of `source`: each target and weight.
    spec fn spec_out(&self, source: int) -> Seq<(Idx, W)>;

    /// The number of nodes.
    spec fn spec_len(&self) -> nat;

    /// The number of stored out-edges.
    spec fn spec_num_edges(&self) -> nat;

    spec fn csr_wf(&self) -> bool;

    /// In a well-formed graph every target is a node and the node count fits the index type.
    proof fn lemma_targets(&self)
        requires
            self.csr_wf(),
        ensures
            1 <= self.spec_len() <= usize::MAX,
            self.spec_len() - 1 <= Idx::spec_max(),
            forall|s: int, k: int| 0 <= s < self.spec_len() && 0 <= k < self.spec_out(s).len()
                ==> 0 <= (#[trigger] self.spec_out(s)[k]).0.spec_usize() < self.spec_len(),
    ;

    /// The out-edges of `source`.
    fn target(&self, source: Idx) -> (r: &[(Idx, W)])
        requires
            self.csr_wf(),
            source.spec_usize() < self.spec_len(),
        ensures
            r@ == self.spec_out(source.spec_usize()),
    ;

    /// The largest node index.
    fn max_index(&self) -> (r: usize)
        requires
            self.csr_wf(),
        ensures
            r + 1 == self.spec_len(),
    ;

    /// The number of stored out-edges (twice the number of undirected edges).
    fn num_edges(&self) -> (r: usize)
        ensures
            r == self.spec_num_edges(),
    ;
}

/// The blocks of `target` that `partition` marks are well formed over `n` nodes.
pub open spec fn blocks_ok<Idx: Index, W>(target: Seq<(Idx, W)>, partition: Seq<usize>) -> bool {
    let n = partition.len() - 1;
    &&& 2 <= partition.len() <= usize::MAX
    &&& n - 1 <= Idx::spec_max()
    &&& partition[0] == 0
    &&& partition[partition.len() - 1] == target.len()
    &&& forall|a: int, b: int| 0 <= a <= b < partition.len() ==> #[trigger] partition[a] <= #[trigger] partition[b]
    &&& forall|i: int| 0 <= i < target.len() ==> 0 <= (#[trigger] target[i]).0.spec_usize() < n
}

/// A graph whose edges were given as directed edges.
pub struct DirectedCSR<Idx: Index, W> {
    target: Vec<(Idx, W)>,
    partition: Vec<usize>,
}

/// A graph whose edges were given as undirected edges, each stored in both directions.
pub struct UndirectedCSR<Idx: Index, W> {
    target: Vec<(Idx, W)>,
    partition: Vec<usize>,
}

/// The elements of `v` in reverse order.
fn reversed<T>(v: Vec<T>) -> (r: Vec<T>)
    ensures
        r@.len() == v@.len(),
        forall|k: int| 0 <= k < v@.len() ==> #[trigger] r@[k] == v@[v@.len() - 1 - k],
{
    let ghost orig = v@;
    let mut v = v;
    let mut r: Vec<T> = Vec::new();
    while v.len() > 0
        invariant
            v@.len() + r@.len() == orig.len(),
            v@ == orig.subrange(0, v@.len() as int),
            forall|k: int| 0 <= k < r@.len() ==> #[trigger] r@[k] == orig[orig.len() - 1 - k],
        decreases v@.len(),
    {
        let ghost l = v@.len();
        let x = v.pop().unwrap();
        proof {
            assert(x == orig[l - 1]);
        }
        r.push(x);
        proof {
            assert(v@ =~= orig.subrange(0, v@.len() as int));
        }
    }
    r
}

/// Stores the out-edges of a built graph with their targets as indices.
fn into_pairs<Idx: Index, W>(t: Vec<csr2::OutEdge<W>>, Ghost(n): Ghost<nat>) -> (r: Vec<(Idx, W)>)
    requires
        n - 1 <= Idx::spec_max(),
        forall|i: int| 0 <= i < t@.len() ==> #[trigger] t@[i].target < n,
    ensures
        r@ == t@.map_values(|o: csr2::OutEdge<W>| pair::<Idx, W>(o)),
{
    let ghost orig = t@;
    let rev = reversed(t);
    let mut rev = rev;
    let mut out: Vec<(Idx, W)> = Vec::new();
    while rev.len() > 0
        invariant
            n - 1 <= Idx::spec_max(),
            forall|i: int| 0 <= i < orig.len() ==> #[trigger] orig[i].target < n,
            rev@.len() + out@.len() == orig.len(),
            forall|k: int| 0 <= k < rev@.len() ==> #[trigger] rev@[k] == orig[orig.len() - 1 - k],
            out@ == orig.subrange(0, out@.len() as int).map_values(|o: csr2::OutEdge<W>| pair::<Idx, W>(o)),
        decreases rev@.len(),
    {
        let ghost l = rev@.len();
        let o = rev.pop().unwrap();
        proof {
            assert(o == orig[out@.len() as int]);
        }
        let idx = Idx::from_usize(o.target);
        out.push((idx, o.weight));
        proof {
            assert(out@ =~= orig.subrange(0, out@.len() as int).map_values(|o: csr2::OutEdge<W>| pair::<Idx, W>(o)));
        }
    }
    proof {
        assert(orig.subrange(0, orig.len() as int) =~= orig);
    }
    out
}

impl<Idx: Index, W> DirectedCSR<Idx, W> {
    pub closed spec fn wf(&self) -> bool {
        blocks_ok(self.target@, self.partition@)
    }

    /// Builds the graph on the nodes `0..=max_index`; the out-edges of each node are its
    /// edges in reverse order of insertion.
    pub fn new(edges: Vec<Edge<Idx, W>>, max_index: Idx) -> (r: Self)
        requires
            max_index.spec_usize() + 1 < usize::MAX,
            forall|j: int| 0 <= j < edges@.len() ==> (#[trigger] edges@[j]).source.spec_usize() <= max_index.spec_usize()
                && edges@[j].target.spec_usize() <= max_index.spec_usize(),
        ensures
            r.csr_wf(),
            r.spec_len() == max_index.spec_usize() + 1,
            forall|s: int| 0 <= s <= max_index.spec_usize() ==> #[trigger] r.spec_out(s) == csr2::out_list(
                edges@.map_values(|e: Edge<Idx, W>| plain(e)),
                s,
            ).map_values(|o: csr2::OutEdge<W>| pair::<Idx, W>(o)),
    {
        let ghost pe = edges@.map_values(|e: Edge<Idx, W>| plain(e));
        let n = max_index.into_usize() + 1;
        proof {
            max_index.lemma_index();
        }
        let mut builder = csr2::CSRBuilder::<W, csr2::Directed>::with_capacity(edges.len(), n);
        let ghost orig = edges@;
        let mut rev = reversed(edges);
        while rev.len() > 0
            invariant
                builder.wf(),
                builder.num_node() == n,
                n == max_index.spec_usize() + 1,
                forall|j: int| 0 <= j < orig.len() ==> (#[trigger] orig[j]).source.spec_usize() <= max_index.spec_usize()
                    && orig[j].target.spec_usize() <= max_index.spec_usize(),
                rev@.len() + builder.edges().len() == orig.len(),
                forall|k: int| 0 <= k < rev@.len() ==> #[trigger] rev@[k] == orig[orig.len() - 1 - k],
                builder.edges() == orig.subrange(0, builder.edges().len() as int).map_values(|e: Edge<Idx, W>| plain(e)),
            decreases rev@.len(),
        {
            let e = rev.pop().unwrap();
            proof {
                assert(e == orig[builder.edges().len() as int]);
            }
            let s = e.source.into_usize();
            let t = e.target.into_usize();
            builder.push_edge(csr2::Edge { source: s, target: t, weight: e.weight });
            proof {
                assert(builder.edges() =~= orig.subrange(0, builder.edges().len() as int).map_values(|e: Edge<Idx, W>| plain(e)));
            }
        }
        proof {
            assert(orig.subrange(0, orig.len() as int) =~= orig);
        }
        let g = builder.build();
        let ghost gg = g;
        let (t, p) = g.into_parts();
        let target = into_pairs::<Idx, W>(t, Ghost(n as nat));
        let r = DirectedCSR { target, partition: p };
        proof {
            assert forall|s: int| 0 <= s <= max_index.spec_usize() implies #[trigger] r.spec_out(s) == csr2::out_list(pe, s).map_values(
                |o: csr2::OutEdge<W>| pair::<Idx, W>(o),
            ) by {
                assert(gg.out(s) == t@.subrange(p@[s] as int, p@[s + 1] as int));
                assert(r.target@.subrange(p@[s] as int, p@[s + 1] as int) =~= t@.subrange(p@[s] as int, p@[s + 1] as int).map_values(
                    |o: csr2::OutEdge<W>| pair::<Idx, W>(o),
                ));
            }
            assert forall|i: int| 0 <= i < r.target@.len() implies 0 <= (#[trigger] r.target@[i]).0.spec_usize() < n by {
                Idx::lemma_from(t@[i].target as int);
            }
        }
        r
    }
}

impl<Idx: Index, W> UndirectedCSR<Idx, W> {
    pub closed spec fn wf(&self) -> bool {
        blocks_ok(self.target@, self.partition@)
    }

    /// Builds the graph on the nodes `0..=max_index`, each edge stored from its source
    /// (with a clone of the weight) and from its target.
    ///
    /// The stored out-edges are those of the directed edges `pushed`, listed in reverse
    /// order of insertion; `pushed` holds each given edge, with a clone of its weight,
    /// followed by its reverse.
    pub fn new(edges: Vec<Edge<Idx, W>>, max_index: Idx) -> (r: (Self, Ghost<Seq<csr2::Edge<W>>>))
        where W: Clone,
        requires
            max_index.spec_usize() + 1 < usize::MAX,
            forall|j: int| 0 <= j < edges@.len() ==> (#[trigger] edges@[j]).source.spec_usize() <= max_index.spec_usize()
                && edges@[j].target.spec_usize() <= max_index.spec_usize(),
        ensures
            r.0.csr_wf(),
            r.0.spec_len() == max_index.spec_usize() + 1,
            r.1@.len() == 2 * edges@.len(),
            forall|j: int| 0 <= j < edges@.len() ==> {
                let e = plain(#[trigger] edges@[j]);
                let a = r.1@[2 * j];
                let b = r.1@[2 * j + 1];
                &&& a.source == e.source && a.target == e.target && cloned(e.weight, a.weight)
                &&& b == (csr2::Edge { source: e.target, target: e.source, weight: e.weight })
            },
            forall|s: int| 0 <= s <= max_index.spec_usize() ==> #[trigger] r.0.spec_out(s) == csr2::out_list(r.1@, s).map_values(
                |o: csr2::OutEdge<W>| pair::<Idx, W>(o),
            ),
    {
        let n = max_index.into_usize() + 1;
        proof {
            max_index.lemma_index();
        }
        let mut builder = csr2::CSRBuilder::<W, csr2::Undirected>::with_capacity(edges.len(), n);
        let ghost orig = edges@;
        let mut rev = reversed(edges);
        while rev.len() > 0
            invariant
                builder.wf(),
                builder.num_node() == n,
                n == max_index.spec_usize() + 1,
                forall|j: int| 0 <= j < orig.len() ==> (#[trigger] orig[j]).source.spec_usize() <= max_index.spec_usize()
                    && orig[j].target.spec_usize() <= max_index.spec_usize(),
                rev@.len() + builder.edges().len() / 2 == orig.len(),
                builder.edges().len() % 2 == 0,
                forall|k: int| 0 <= k < rev@.len() ==> #[trigger] rev@[k] == orig[orig.len() - 1 - k],
                forall|j: int| 0 <= j < builder.edges().len() / 2 ==> {
                    let e = plain(#[trigger] orig[j]);
                    let a = builder.edges()[2 * j];
                    let b = builder.edges()[2 * j + 1];
                    &&& a.source == e.source && a.target == e.target && cloned(e.weight, a.weight)
                    &&& b == (csr2::Edge { source: e.target, target: e.source, weight: e.weight })
                },
            decreases rev@.len(),
        {
            let ghost m = builder.edges().len() / 2;
            let ghost before = builder.edges();
            let e = rev.pop().unwrap();
            proof {
                assert(e == orig[m as int]);
            }
            let s = e.source.into_usize();
            let t = e.target.into_usize();
            builder.push_edge(csr2::Edge { source: s, target: t, weight: e.weight });
            proof {
                assert forall|j: int| 0 <= j < builder.edges().len() / 2 implies {
                    let e = plain(#[trigger] orig[j]);
                    let a = builder.edges()[2 * j];
                    let b = builder.edges()[2 * j + 1];
                    &&& a.source == e.source && a.target == e.target && cloned(e.weight, a.weight)
                    &&& b == (csr2::Edge { source: e.target, target: e.source, weight: e.weight })
                } by {
                    if j < m {
                        assert(builder.edges()[2 * j] == before[2 * j]);
                        assert(builder.edges()[2 * j + 1] == before[2 * j + 1]);
                    }
                }
            }
        }
        let ghost pushed = builder.edges();
        let g = builder.build();
        let ghost gg = g;
        let (t, p) = g.into_parts();
        let target = into_pairs::<Idx, W>(t, Ghost(n as nat));
        let r = UndirectedCSR { target, partition: p };
        proof {
            assert forall|s: int| 0 <= s <= max_index.spec_usize() implies #[trigger] r.spec_out(s) == csr2::out_list(pushed, s).map_values(
                |o: csr2::OutEdge<W>| pair::<Idx, W>(o),
            ) by {
                assert(gg.out(s) == t@.subrange(p@[s] as int, p@[s + 1] as int));
                assert(r.target@.subrange(p@[s] as int, p@[s + 1] as int) =~= t@.subrange(p@[s] as int, p@[s + 1] as int).map_values(
                    |o: csr2::OutEdge<W>| pair::<Idx, W>(o),
                ));
            }
            assert forall|i: int| 0 <= i < r.target@.len() implies 0 <= (#[trigger] r.target@[i]).0.spec_usize() < n by {
                Idx::lemma_from(t@[i].target as int);
            }
        }
        (r, Ghost(pushed))
    }
}

impl<Idx: Index, W> CSR<Idx, W> for DirectedCSR<Idx, W> {
    closed spec fn spec_out(&self, source: int) -> Seq<(Idx, W)> {
        self.target@.subrange(self.partition@[source] as int, self.partition@[source + 1] as int)
    }

    closed spec fn spec_len(&self) -> nat {
        (self.partition@.len() - 1) as nat
    }

    closed spec fn spec_num_edges(&self) -> nat {
        self.target@.len()
    }

    closed spec fn csr_wf(&self) -> bool {
        blocks_ok(self.target@, self.partition@)
    }

    proof fn lemma_targets(&self) {
        assert forall|s: int, k: int| 0 <= s < self.spec_len() && 0 <= k < self.spec_out(s).len()
            implies 0 <= (#[trigger] self.spec_out(s)[k]).0.spec_usize() < self.spec_len() by {
            assert(self.partition@[s] <= self.partition@[s + 1]);
            assert(self.spec_out(s)[k] == self.target@[self.partition@[s] + k]);
        }
    }

    fn target(&self, source: Idx) -> (r: &[(Idx, W)]) {
        let i = source.into_usize();
        vstd::slice::slice_subrange(self.target.as_slice(), self.partition[i], self.partition[i + 1])
    }

    fn max_index(&self) -> (r: usize) {
        self.partition.len() - 2
    }

    fn num_edges(&self) -> (r: usize) {
        self.target.len()
    }
}

impl<Idx: Index, W> CSR<Idx, W> for UndirectedCSR<Idx, W> {
    closed spec fn spec_out(&self, source: int) -> Seq<(Idx, W)> {
        self.target@.subrange(self.partition@[source] as int, self.partition@[source + 1] as int)
    }

    closed spec fn spec_len(&self) -> nat {
        (self.partition@.len() - 1) as nat
    }

    closed spec fn spec_num_edges(&self) -> nat {
        self.target@.len()
    }

    closed spec fn csr_wf(&self) -> bool {
        blocks_ok(self.target@, self.partition@)
    }

    proof fn lemma_targets(&self) {
        assert forall|s: int, k: int| 0 <= s < self.spec_len() && 0 <= k < self.spec_out(s).len()
            implies 0 <= (#[trigger] self.spec_out(s)[k]).0.spec_usize() < self.spec_len() by {
            assert(self.partition@[s] <= self.partition@[s + 1]);
            assert(self.spec_out(s)[k] == self.target@[self.partition@[s] + k]);
        }
    }

    fn target(&self, source: Idx) -> (r: &[(Idx, W)]) {
        let i = source.into_usize();
        vstd::slice::slice_subrange(self.target.as_slice(), self.partition[i], self.partition[i + 1])
    }

    fn max_index(&self) -> (r: usize) {
        self.partition.len() - 2
    }

    fn num_edges(&self) -> (r: usize) {
        self.target.len()
    }
}

} // verus!
