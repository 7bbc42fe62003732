//! Depth-first and breadth-first traversals that use every edge at most once, one step at a
//! time.

use vstd::prelude::*;
use super::csr2::{CSR, Edge, EdgeType, OutEdge, Undirected};
use core::ops::ControlFlow;

verus! {

/// One step of a depth-first traversal.
#[derive(Debug, Clone, PartialEq, Eq, Hash)]
pub enum DFSTraversal<W> {
    /// Goes down an unused edge to a node not visited before.
    Descend(Edge<W>),
    /// Goes back up the tree edge into a node whose edges are all used.
    Ascend(Edge<W>),
    /// Looks along an unused edge at a node visited before, without moving.
    Glance(Edge<W>),
}

/// One step of a breadth-first traversal.
#[derive(Debug, Clone, PartialEq, Eq, Hash)]
pub enum BFSTraversal<W> {
    /// Finds a node not visited before along an unused edge.
    Discover(Edge<W>),
    /// Looks along an unused edge at a node visited before.
    Glance(Edge<W>),
}

/// `e` is an out-edge of `g`, as stored from its source.
pub open spec fn is_out_edge<W, E: EdgeType>(g: CSR<W, E>, e: Edge<&W>) -> bool {
    &&& 0 <= e.source < g.spec_num_nodes()
    &&& exists|k: int| 0 <= k < g.out(e.source as int).len() && #[trigger] g.out(e.source as int)[k] == (OutEdge {
        target: e.target,
        weight: *e.weight,
        index: e.index,
    })
}

/// The marks of visited nodes and used edges of a traversal of `csr`, with the traversal's
/// stack or queue: entries `(node, edges of it tried)`.
pub struct Visitor<'a, W, E> where E: EdgeType {
    csr: &'a CSR<W, E>,
    buf: Vec<(usize, usize)>,
    head: usize,
    used_node: Vec<bool>,
    used_edge: Vec<bool>,
}

impl<'a, W, E: EdgeType> Visitor<'a, W, E> {
    /// The graph traversed.
    pub closed spec fn graph(&self) -> CSR<W, E> {
        *self.csr
    }

    /// Which nodes have been visited.
    pub closed spec fn seen(&self) -> Seq<bool> {
        self.used_node@
    }

    /// Which edges (by number) have been used.
    pub closed spec fn used(&self) -> Seq<bool> {
        self.used_edge@
    }

    /// The entries of the stack (depth-first) or queue (breadth-first).
    pub closed spec fn pending(&self) -> Seq<(usize, usize)> {
        self.buf@
    }

    pub closed spec fn wf(&self) -> bool {
        &&& self.csr.wf()
        &&& self.used_node@.len() == self.csr.spec_num_nodes()
        &&& self.used_edge@.len() == self.csr.spec_num_edges()
        &&& self.head <= self.buf@.len()
        &&& forall|j: int| 0 <= j < self.buf@.len() ==> (#[trigger] self.buf@[j]).0 < self.csr.spec_num_nodes()
            && self.buf@[j].1 <= self.csr.out(self.buf@[j].0 as int).len()
    }

    /// Below the top of a depth-first stack, every entry has tried an edge, which is used.
    pub closed spec fn dfs_ok(&self) -> bool {
        &&& self.head == 0
        &&& forall|j: int| 0 <= j < self.buf@.len() - 1 ==> (#[trigger] self.buf@[j]).1 >= 1 && self.used_edge@[self.csr.out(
            self.buf@[j].0 as int,
        )[self.buf@[j].1 - 1].index as int]
    }

    /// Edge `k` of the node of queue entry `j` is still to be tried by a breadth-first
    /// traversal: the entry is not done, the entry has not tried that edge yet, and the edge
    /// is unused.
    pub closed spec fn bfs_open(&self, j: int, k: int) -> bool {
        &&& self.head <= j < self.buf@.len()
        &&& self.buf@[j].1 <= k < self.csr.out(self.buf@[j].0 as int).len()
        &&& !self.used_edge@[self.csr.out(self.buf@[j].0 as int)[k].index as int]
    }

    /// Some edge is still to be tried by the breadth-first traversal.
    pub closed spec fn bfs_has_work(&self) -> bool {
        exists|j: int, k: int| self.bfs_open(j, k)
    }

    /// `e` is the first edge still to be tried, in queue order and then in the order of the
    /// out-edges of each node.
    pub closed spec fn bfs_next_edge(&self, e: Edge<&W>) -> bool {
        exists|j: int, k: int| {
            &&& #[trigger] self.bfs_open(j, k)
            &&& forall|j2: int, k2: int| #[trigger] self.bfs_open(j2, k2) ==> j < j2 || (j == j2 && k <= k2)
            &&& e.source == self.buf@[j].0
            &&& self.csr.out(e.source as int)[k] == (OutEdge { target: e.target, weight: *e.weight, index: e.index })
        }
    }

    /// A traversal of `csr` that has visited nothing.
    pub fn new(csr: &'a CSR<W, E>) -> (r: Self)
        requires
            csr.wf(),
        ensures
            r.wf(),
            r.graph() == *csr,
            r.seen() == Seq::new(csr.spec_num_nodes(), |i: int| false),
            r.used() == Seq::new(csr.spec_num_edges(), |i: int| false),
            r.pending() == Seq::<(usize, usize)>::empty(),
    {
        let n = csr.num_nodes();
        let m = csr.num_edges();
        let mut used_node: Vec<bool> = Vec::with_capacity(n);
        let mut i: usize = 0;
        while i < n
            invariant
                i <= n,
                used_node@ == Seq::new(i as nat, |j: int| false),
            decreases n - i,
        {
            used_node.push(false);
            i += 1;
        }
        let mut used_edge: Vec<bool> = Vec::with_capacity(m);
        let mut i: usize = 0;
        while i < m
            invariant
                i <= m,
                used_edge@ == Seq::new(i as nat, |j: int| false),
            decreases m - i,
        {
            used_edge.push(false);
            i += 1;
        }
        Visitor { csr, buf: Vec::with_capacity(n), head: 0, used_node, used_edge }
    }

    /// Whether node `i` has already been visited.
    pub fn visited(&self, i: usize) -> (r: bool)
        requires
            self.wf(),
            i < self.graph().spec_num_nodes(),
        ensures
            r == self.seen()[i as int],
    {
        self.used_node[i]
    }

    /// Forgets every visited node and used edge, for a brand-new traversal.
    pub fn reset(&mut self)
        requires
            old(self).wf(),
        ensures
            final(self).wf(),
            final(self).graph() == old(self).graph(),
            final(self).seen() == Seq::new(old(self).seen().len(), |i: int| false),
            final(self).used() == Seq::new(old(self).used().len(), |i: int| false),
            final(self).pending() == old(self).pending(),
    {
        let n = self.used_node.len();
        let mut i: usize = 0;
        while i < n
            invariant
                n == self.used_node@.len(),
                i <= n,
                forall|j: int| 0 <= j < i ==> !#[trigger] self.used_node@[j],
                self.csr == old(self).csr,
                self.buf == old(self).buf,
                self.head == old(self).head,
                self.used_edge == old(self).used_edge,
            decreases n - i,
        {
            self.used_node.set(i, false);
            i += 1;
        }
        let m = self.used_edge.len();
        let mut i: usize = 0;
        while i < m
            invariant
                m == self.used_edge@.len(),
                i <= m,
                forall|j: int| 0 <= j < i ==> !#[trigger] self.used_edge@[j],
                n == self.used_node@.len(),
                forall|j: int| 0 <= j < n ==> !#[trigger] self.used_node@[j],
                self.csr == old(self).csr,
                self.buf == old(self).buf,
                self.head == old(self).head,
            decreases m - i,
        {
            self.used_edge.set(i, false);
            i += 1;
        }
        proof {
            assert(self.used_node@ =~= Seq::new(old(self).seen().len(), |i: int| false));
            assert(self.used_edge@ =~= Seq::new(old(self).used().len(), |i: int| false));
        }
    }

    /// The graph traversed.
    pub fn csr(&self) -> (r: &CSR<W, E>)
        ensures
            *r == self.graph(),
    {
        self.csr
    }

    /// Starts a depth-first traversal from `root`, which is marked visited.
    pub fn dfs_start(&mut self, root: usize)
        requires
            old(self).wf(),
            root < old(self).graph().spec_num_nodes(),
        ensures
            final(self).wf(),
            final(self).graph() == old(self).graph(),
            final(self).seen() == old(self).seen().update(root as int, true),
            final(self).used() == old(self).used(),
            final(self).pending() == seq![(root, 0usize)],
            final(self).dfs_ok(),
    {
        self.used_node.set(root, true);
        self.buf.clear();
        self.buf.push((root, 0));
        self.head = 0;
    }

    /// The next step of the depth-first traversal, or `None` when it is over.
    pub fn dfs_next(&mut self) -> (r: Option<DFSTraversal<&'a W>>)
        requires
            old(self).wf(),
            old(self).dfs_ok(),
        ensures
            final(self).wf(),
            final(self).dfs_ok(),
            final(self).graph() == old(self).graph(),
            forall|i: int| 0 <= i < old(self).seen().len() && #[trigger] old(self).seen()[i] ==> final(self).seen()[i],
            forall|i: int| 0 <= i < old(self).used().len() && #[trigger] old(self).used()[i] ==> final(self).used()[i],
            match r {
                None => final(self).pending().len() == 0 && final(self).seen() == old(self).seen()
                    && final(self).used() == old(self).used(),
                Some(DFSTraversal::Descend(e)) => {
                    &&& is_out_edge(old(self).graph(), e)
                    &&& !old(self).used()[e.index as int]
                    &&& final(self).used() == old(self).used().update(e.index as int, true)
                    &&& !old(self).seen()[e.target as int]
                    &&& final(self).seen() == old(self).seen().update(e.target as int, true)
                },
                Some(DFSTraversal::Glance(e)) => {
                    &&& is_out_edge(old(self).graph(), e)
                    &&& !old(self).used()[e.index as int]
                    &&& final(self).used() == old(self).used().update(e.index as int, true)
                    &&& old(self).seen()[e.target as int]
                    &&& final(self).seen() == old(self).seen()
                },
                Some(DFSTraversal::Ascend(e)) => {
                    &&& is_out_edge(old(self).graph(), e)
                    &&& old(self).used()[e.index as int]
                    &&& final(self).used() == old(self).used()
                    &&& final(self).seen() == old(self).seen()
                },
            },
    {
        let csr = self.csr;
        let n = csr.num_nodes();
        if self.buf.len() == 0 {
            return None;
        }
        let (source, nth0) = self.buf.pop().unwrap();
        let mut nth = nth0;
        let ghost g = *csr;
        proof {
            assert(self.buf@.len() < old(self).buf@.len());
            assert forall|k: int| 0 <= k < g.out(source as int).len() implies #[trigger] g.out(source as int)[k].index
                < g.spec_num_edges() by {
                csr.lemma_out_bounds(source as int, k);
            }
        }
        while nth < csr.out_edges(source).len() && self.used_edge[csr.out_edges(source)[nth].index]
            invariant
                self.wf(),
                self.csr == csr,
                g == *csr,
                source < g.spec_num_nodes(),
                nth <= g.out(source as int).len(),
                forall|k: int| 0 <= k < g.out(source as int).len() ==> #[trigger] g.out(source as int)[k].index
                    < g.spec_num_edges(),
                self.used_edge == old(self).used_edge,
                self.used_node == old(self).used_node,
                self.buf@ == old(self).buf@.drop_last(),
                self.head == old(self).head,
                old(self).csr == csr,
            decreases g.out(source as int).len() - nth,
        {
            proof {
                csr.lemma_out_bounds(source as int, nth as int);
            }
            nth += 1;
        }
        if nth < csr.out_edges(source).len() {
            let e = csr.nth_edge(source, nth).unwrap();
            proof {
                csr.lemma_out_bounds(source as int, nth as int);
            }
            self.used_edge.set(e.index, true);
            self.buf.push((source, nth + 1));
            let full = e.set_source(source);
            proof {
                assert(g.out(source as int)[nth as int] == (OutEdge { target: full.target, weight: *full.weight, index: full.index }));
            }
            proof {
                assert forall|j: int| 0 <= j < self.buf@.len() - 1 implies (#[trigger] self.buf@[j]).1 >= 1
                    && self.used_edge@[self.csr.out(self.buf@[j].0 as int)[self.buf@[j].1 - 1].index as int] by {
                    let bj = old(self).buf@[j];
                    assert(old(self).dfs_ok());
                    assert(j < old(self).buf@.len() - 1);
                    assert(bj.1 >= 1);
                    assert(old(self).used_edge@[old(self).csr.out(bj.0 as int)[bj.1 - 1].index as int]);
                    assert(old(self).csr.out(bj.0 as int) == g.out(bj.0 as int));
                    assert(old(self).used_edge@[g.out(bj.0 as int)[bj.1 - 1].index as int]);
                    let idx = g.out(bj.0 as int)[bj.1 - 1].index as int;
                    csr.lemma_out_bounds(bj.0 as int, bj.1 - 1);
                    assert(self.used_edge@ == old(self).used_edge@.update(e.index as int, true));
                    assert(self.used_edge@[idx]);
                    assert(self.buf@[j] == bj);
                    assert(self.csr.out(bj.0 as int) == g.out(bj.0 as int));
                }
            }
            if !self.used_node[e.target] {
                self.used_node.set(e.target, true);
                let ghost before = self.buf@;
                self.buf.push((e.target, 0));
                proof {
                    assert forall|j: int| 0 <= j < self.buf@.len() - 1 implies (#[trigger] self.buf@[j]).1 >= 1
                        && self.used_edge@[self.csr.out(self.buf@[j].0 as int)[self.buf@[j].1 - 1].index as int] by {
                        assert(self.buf@[j] == before[j]);
                        if j < before.len() - 1 {
                            assert(before[j] == old(self).buf@[j]);
                        }
                    }
                }
                Some(DFSTraversal::Descend(full))
            } else {
                Some(DFSTraversal::Glance(full))
            }
        } else if self.buf.len() > 0 {
            let (parent, pnth) = self.buf[self.buf.len() - 1];
            proof {
                assert(self.buf@[self.buf@.len() - 1] == (parent, pnth));
            }
            proof {
                assert(old(self).buf@[self.buf@.len() - 1] == (parent, pnth));
                assert forall|j: int| 0 <= j < self.buf@.len() - 1 implies (#[trigger] self.buf@[j]).1 >= 1
                    && self.used_edge@[self.csr.out(self.buf@[j].0 as int)[self.buf@[j].1 - 1].index as int] by {
                    assert(self.buf@[j] == old(self).buf@[j]);
                }
            }
            let e = csr.nth_edge(parent, pnth - 1).unwrap();
            proof {
                csr.lemma_out_bounds(parent as int, pnth - 1);
            }
            let full = e.set_source(parent);
            proof {
                assert(g.out(parent as int)[pnth - 1] == (OutEdge { target: full.target, weight: *full.weight, index: full.index }));
            }
            Some(DFSTraversal::Ascend(full))
        } else {
            None
        }
    }

    /// Starts a breadth-first traversal from `root`, which is marked visited.
    pub fn bfs_start(&mut self, root: usize)
        requires
            old(self).wf(),
            root < old(self).graph().spec_num_nodes(),
        ensures
            final(self).wf(),
            final(self).graph() == old(self).graph(),
            final(self).seen() == old(self).seen().update(root as int, true),
            final(self).used() == old(self).used(),
            final(self).pending() == seq![(root, 0usize)],
    {
        self.used_node.set(root, true);
        self.buf.clear();
        self.buf.push((root, 0));
        self.head = 0;
    }

    /// The next step of the breadth-first traversal, or `None` when it is over.
    pub fn bfs_next(&mut self) -> (r: Option<BFSTraversal<&'a W>>)
        requires
            old(self).wf(),
        ensures
            final(self).wf(),
            final(self).graph() == old(self).graph(),
            forall|i: int| 0 <= i < old(self).seen().len() && #[trigger] old(self).seen()[i] ==> final(self).seen()[i],
            forall|i: int| 0 <= i < old(self).used().len() && #[trigger] old(self).used()[i] ==> final(self).used()[i],
            r is None <==> !old(self).bfs_has_work(),
            match r {
                None => final(self).seen() == old(self).seen() && final(self).used() == old(self).used(),
                Some(BFSTraversal::Discover(e)) => {
                    &&& old(self).bfs_next_edge(e)
                    &&& is_out_edge(old(self).graph(), e)
                    &&& !old(self).used()[e.index as int]
                    &&& final(self).used() == old(self).used().update(e.index as int, true)
                    &&& !old(self).seen()[e.target as int]
                    &&& final(self).seen() == old(self).seen().update(e.target as int, true)
                },
                Some(BFSTraversal::Glance(e)) => {
                    &&& old(self).bfs_next_edge(e)
                    &&& is_out_edge(old(self).graph(), e)
                    &&& !old(self).used()[e.index as int]
                    &&& final(self).used() == old(self).used().update(e.index as int, true)
                    &&& old(self).seen()[e.target as int]
                    &&& final(self).seen() == old(self).seen()
                },
            },
    {
        let csr = self.csr;
        let ghost g = *csr;
        let ghost ob = old(self).buf@;
        loop
            invariant
                self.wf(),
                self.csr == csr,
                g == *csr,
                old(self).csr == csr,
                self.used_edge == old(self).used_edge,
                self.used_node == old(self).used_node,
                ob == old(self).buf@,
                self.buf@.len() == ob.len(),
                old(self).head <= self.head,
                forall|j: int| 0 <= j < ob.len() ==> (#[trigger] self.buf@[j]).0 == ob[j].0,
                forall|j: int| self.head < j < ob.len() ==> #[trigger] self.buf@[j] == ob[j],
                self.head < ob.len() ==> self.buf@[self.head as int].1 >= ob[self.head as int].1,
                forall|j: int, k: int| #[trigger] old(self).bfs_open(j, k) ==> j > self.head || (j == self.head
                    && k >= self.buf@[self.head as int].1),
            decreases self.buf@.len() - self.head, g.out(self.buf@[self.head as int].0 as int).len() - self.buf@[self.head as int].1,
        {
            if self.head >= self.buf.len() {
                proof {
                    assert forall|j: int, k: int| !old(self).bfs_open(j, k) by {
                        if old(self).bfs_open(j, k) {
                            assert(j > self.head || j == self.head);
                        }
                    }
                }
                return None;
            }
            let (source, nth) = self.buf[self.head];
            proof {
                assert(self.buf@[self.head as int] == (source, nth));
            }
            if nth < csr.out_edges(source).len() {
                let e = csr.nth_edge(source, nth).unwrap();
                proof {
                    csr.lemma_out_bounds(source as int, nth as int);
                }
                let ghost before = self.buf@;
                self.buf.set(self.head, (source, nth + 1));
                proof {
                    assert forall|j: int| 0 <= j < self.buf@.len() implies (#[trigger] self.buf@[j]).0 < g.spec_num_nodes()
                        && self.buf@[j].1 <= g.out(self.buf@[j].0 as int).len() by {
                        if j != self.head {
                            assert(self.buf@[j] == before[j]);
                        }
                    }
                }
                if !self.used_edge[e.index] {
                    proof {
                        assert(old(self).bfs_open(self.head as int, nth as int));
                    }
                    self.used_edge.set(e.index, true);
                    let full = e.set_source(source);
                    proof {
                        assert(g.out(source as int)[nth as int] == (OutEdge { target: full.target, weight: *full.weight, index: full.index }));
                    }
                    if !self.used_node[e.target] {
                        self.used_node.set(e.target, true);
                        self.buf.push((e.target, 0));
                        return Some(BFSTraversal::Discover(full));
                    } else {
                        return Some(BFSTraversal::Glance(full));
                    }
                }
            } else {
                self.head += 1;
            }
        }
    }
}

impl<'a, W> Visitor<'a, W, Undirected> {
    /// Low links are not computed by the visitor itself: this does nothing and lets a
    /// traversal go on.
    pub fn lowlink<B>(&mut self) -> (r: ControlFlow<B>)
        ensures
            r == ControlFlow::<B, ()>::Continue(()),
            *final(self) == *old(self),
    {
        ControlFlow::Continue(())
    }
}

} // verus!
