//! Step-by-step depth-first search over a directed graph.

use vstd::prelude::*;
use super::{CSR, Directed, Edge, OutEdge};

verus! {

/// One step of a depth-first search.
#[derive(Debug, Clone)]
pub enum Traverse<W> {
    /// The edge leads to a node not yet marked visited; the search goes down it.
    Visit(Edge<W>),
    /// The search returns along the edge to its source.
    Leave(Edge<W>),
    /// The edge leads to a node already marked visited.
    Revisit(Edge<W>),
}

/// A depth-first search that yields one edge at a time.
pub struct DFS<W, G> {
    pub graph: CSR<W, G>,
    stack: Vec<(usize, usize)>,
    visited: Vec<bool>,
}

impl<W> DFS<W, Directed> {
    /// The search path: each entry is a node and the number of its out-edges taken so far.
    pub closed spec fn path(&self) -> Seq<(usize, usize)> {
        self.stack@
    }

    /// The graph searched.
    pub closed spec fn spec_graph(&self) -> CSR<W, Directed> {
        self.graph
    }

    /// The visited marks.
    pub closed spec fn marks(&self) -> Seq<bool> {
        self.visited@
    }

    pub closed spec fn wf(&self) -> bool {
        let n = self.graph.spec_num_nodes();
        &&& self.graph.wf()
        &&& self.visited@.len() == n
        &&& forall|j: int| 0 <= j < self.stack@.len() ==> (#[trigger] self.stack@[j]).0 < n
            && self.stack@[j].1 <= self.graph.out(self.stack@[j].0 as int).len()
            && (j < self.stack@.len() - 1 ==> self.stack@[j].1 >= 1)
    }

    /// A search over `graph` with nothing visited and no source yet.
    pub fn new(graph: CSR<W, Directed>) -> (r: Self)
        requires
            graph.wf(),
        ensures
            r.wf(),
            r.spec_graph() == graph,
            r.path().len() == 0,
            r.marks() == Seq::new(graph.spec_num_nodes(), |i: int| false),
    {
        let n = graph.num_nodes();
        let mut visited: Vec<bool> = Vec::new();
        let mut i: usize = 0;
        while i < n
            invariant
                i <= n,
                visited@ == Seq::new(i as nat, |j: int| false),
            decreases n - i,
        {
            visited.push(false);
            i += 1;
        }
        DFS { graph, stack: Vec::new(), visited }
    }

    /// Restarts the search from `source`, which is marked visited.
    pub fn set_source(&mut self, source: usize)
        requires
            old(self).wf(),
            source < old(self).spec_graph().spec_num_nodes(),
        ensures
            final(self).wf(),
            final(self).spec_graph() == old(self).spec_graph(),
            final(self).path() == seq![(source, 0usize)],
            final(self).marks() == old(self).marks().update(source as int, true),
    {
        self.stack.clear();
        self.stack.push((source, 0));
        self.visited.set(source, true);
        proof {
            assert(self.stack@ =~= seq![(source, 0usize)]);
        }
    }

    /// Whether node `i` is marked visited.
    pub fn is_visited(&self, i: usize) -> (r: bool)
        requires
            self.wf(),
            i < self.spec_graph().spec_num_nodes(),
        ensures
            r == self.marks()[i as int],
    {
        self.visited[i]
    }

    /// The next step of the search, or `None` when it is over.
    ///
    /// At the top node of the path: if it has an out-edge left, the edge is taken; if its
    /// target is marked the step is a revisit, else the top node is marked and the target
    /// pushed. If no edge is left, the node is popped and the step is the edge back from its
    /// parent, if there is one.
    pub fn next(&mut self) -> (r: Option<Traverse<&mut W>>)
        requires
            old(self).wf(),
        ensures
            final(self).wf(),
            final(self).spec_graph().spec_num_nodes() == old(self).spec_graph().spec_num_nodes(),
            ({
                let st = old(self).path();
                let t = st.len() - 1;
                if st.len() == 0 {
                    r is None && *final(self) == *old(self)
                } else if st[t].1 < old(self).spec_graph().out(st[t].0 as int).len() {
                    let s = st[t].0;
                    let e = old(self).spec_graph().out(s as int)[st[t].1 as int];
                    let st2 = st.update(t, (s, (st[t].1 + 1) as usize));
                    if old(self).marks()[e.target as int] {
                        r matches Some(Traverse::Revisit(x)) && x.source == s && x.target == e.target && *x.weight == e.weight
                            && final(self).path() == st2 && final(self).marks() == old(self).marks()
                            && final(self).spec_graph().written(old(self).spec_graph(), s as int, st[t].1 as int, *final(x.weight))
                    } else {
                        r matches Some(Traverse::Visit(x)) && x.source == s && x.target == e.target && *x.weight == e.weight
                            && final(self).path() == st2.push((e.target, 0usize))
                            && final(self).marks() == old(self).marks().update(s as int, true)
                            && final(self).spec_graph().written(old(self).spec_graph(), s as int, st[t].1 as int, *final(x.weight))
                    }
                } else if st.len() == 1 {
                    r is None && final(self).path().len() == 0 && final(self).marks() == old(self).marks()
                        && final(self).spec_graph() == old(self).spec_graph()
                } else {
                    let (p, k) = st[t - 1];
                    let e = old(self).spec_graph().out(p as int)[k - 1];
                    r matches Some(Traverse::Leave(x)) && x.source == p && x.target == e.target && *x.weight == e.weight
                        && final(self).path() == st.drop_last() && final(self).marks() == old(self).marks()
                        && final(self).spec_graph().written(old(self).spec_graph(), p as int, k - 1, *final(x.weight))
                }
            }),
    {
        if self.stack.len() == 0 {
            return None;
        }
        let t = self.stack.len() - 1;
        let (source, nth) = self.stack[t];
        let n = self.graph.num_nodes();
        if nth < self.graph.out_edges(source).len() {
            self.stack.set(t, (source, nth + 1));
            let e = self.graph.nth_edge_mut(source, nth).unwrap();
            let target = e.target;
            let edge = Edge { source, target, weight: e.weight };
            if self.visited[target] {
                Some(Traverse::Revisit(edge))
            } else {
                self.visited.set(source, true);
                self.stack.push((target, 0));
                Some(Traverse::Visit(edge))
            }
        } else {
            self.stack.pop();
            if self.stack.len() == 0 {
                return None;
            }
            let (parent, k) = self.stack[t - 1];
            let e = self.graph.nth_edge_mut(parent, k - 1).unwrap();
            let edge = Edge { source: parent, target: e.target, weight: e.weight };
            Some(Traverse::Leave(edge))
        }
    }
}

} // verus!
