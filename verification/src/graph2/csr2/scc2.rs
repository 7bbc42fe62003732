//! Strongly connected components of a graph with numbered edges, by Tarjan's algorithm.

use vstd::prelude::*;
use vstd::set_lib::{set_int_range, lemma_int_range, lemma_len_subset};
use super::{CSR, Directed};

verus! {

/// The mark of a node not yet reached.
pub const UNSEEN: usize = usize::MAX;

/// The strongly connected components of a directed graph, stored one block after another.
pub struct SCC {
    scc: Vec<usize>,
    partition: Vec<usize>,
}

/// The state of the search in `SCC::new`.
///
/// `ord` and `low` are the visiting order and the low-link of each reached node; `tstack`
/// holds the reached nodes not yet assigned to a component, in visiting order; `out[cursor..]`
/// holds the assigned ones; `stack` is the search path `(node, parent, edges tried)` from
/// `root`. `vis` and `rem` are the sets of reached and of assigned nodes.
pub struct Search {
    pub ord: Seq<usize>,
    pub low: Seq<usize>,
    pub removed: Seq<bool>,
    pub tstack: Seq<usize>,
    pub out: Seq<usize>,
    pub cursor: int,
    pub order: int,
    pub vis: Set<int>,
    pub rem: Set<int>,
    pub stack: Seq<(usize, usize, usize)>,
}

impl SCC {
    /// The nodes, component after component.
    pub closed spec fn nodes(&self) -> Seq<usize> {
        self.scc@
    }

    /// The component boundaries, from the end of `nodes` down to zero.
    pub closed spec fn bounds(&self) -> Seq<usize> {
        self.partition@
    }

    /// `nodes` lists each of the `n` nodes once, and `bounds` falls strictly from `n` to
    /// zero, cutting it into non-empty blocks.
    pub open spec fn is_partition_of(&self, n: nat) -> bool {
        &&& self.nodes().len() == n
        &&& self.nodes().no_duplicates()
        &&& forall|j: int| 0 <= j < n ==> #[trigger] self.nodes()[j] < n
        &&& forall|v: usize| v < n ==> #[trigger] self.nodes().contains(v)
        &&& self.bounds().len() >= 1
        &&& self.bounds()[0] == n
        &&& self.bounds()[self.bounds().len() - 1] == 0
        &&& forall|a: int, b: int| 0 <= a < b < self.bounds().len() ==> #[trigger] self.bounds()[a] > #[trigger] self.bounds()[b]
    }
}

/// Every edge of `g` goes forward through the blocks that `bounds` cuts from `nodes`: from a
/// node in block `b`, the nodes from `bounds[b]` up to `bounds[b - 1]`, it leads to a node at
/// or after `bounds[b]`, so in the same block or a later one.
pub open spec fn forward_blocks<W>(g: &CSR<W, Directed>, nodes: Seq<usize>, bounds: Seq<usize>) -> bool {
    forall|q: int, e: int| #![trigger nodes[q], g.out(nodes[q] as int)[e]]
        0 <= q < nodes.len() && 0 <= e < g.out(nodes[q] as int).len()
            ==> exists|b: int, q2: int| #![trigger bounds[b], nodes[q2]] 1 <= b < bounds.len() && bounds[b] <= q < bounds[b - 1]
                && bounds[b] <= q2 < nodes.len() && nodes[q2] == g.out(nodes[q] as int)[e].target
}

/// `p` is a walk of `g` along the out-edges numbered `es`: nodes of it, each with its edge
/// `es[i]` leading to the next.
pub open spec fn is_walk<W>(g: &CSR<W, Directed>, p: Seq<int>, es: Seq<int>) -> bool {
    &&& es.len() + 1 == p.len()
    &&& forall|i: int| 0 <= i < p.len() ==> 0 <= #[trigger] p[i] < g.spec_num_nodes()
    &&& forall|i: int| 0 <= i < es.len() ==> 0 <= #[trigger] es[i] < g.out(p[i]).len()
        && g.out(p[i])[es[i]].target == p[i + 1]
}

/// Sizes, and the sets of reached and assigned nodes.
pub open spec fn sc_sets<W>(g: &CSR<W, Directed>, s: Search) -> bool {
    let n = g.spec_num_nodes() as int;
    &&& g.wf()
    &&& s.ord.len() == n && s.low.len() == n && s.removed.len() == n && s.out.len() == n
    &&& 0 <= s.order <= n
    &&& 0 <= s.cursor <= n
    &&& s.vis.finite() && s.rem.finite()
    &&& s.vis.len() == s.order
    &&& s.rem.len() + s.cursor == n
    &&& forall|v: int| #[trigger] s.vis.contains(v) ==> 0 <= v < n
    &&& forall|v: int| #[trigger] s.rem.contains(v) ==> s.vis.contains(v)
    &&& forall|v: int| 0 <= v < n ==> (#[trigger] s.vis.contains(v) <==> s.ord[v] != UNSEEN)
    &&& forall|v: int| 0 <= v < n ==> (#[trigger] s.rem.contains(v) <==> s.removed[v])
    &&& forall|v: int| #[trigger] s.vis.contains(v) ==> s.ord[v] < s.order && s.low[v] <= s.ord[v]
}

/// The unassigned reached nodes are those on `tstack`, in increasing order, and their
/// low-links do not fall below the root's order.
pub open spec fn sc_tstack(s: Search, root: int, n: int) -> bool {
    &&& forall|j: int| 0 <= j < s.tstack.len() ==> (#[trigger] s.tstack[j]) < n
        && s.vis.contains(s.tstack[j] as int) && !s.rem.contains(s.tstack[j] as int)
    &&& forall|v: int| s.vis.contains(v) && !s.rem.contains(v) ==> exists|j: int| 0 <= j < s.tstack.len() && #[trigger] s.tstack[j] == v
    &&& forall|a: int, b: int| 0 <= a < b < s.tstack.len() ==> s.ord[#[trigger] s.tstack[a] as int] < s.ord[#[trigger] s.tstack[b] as int]
    &&& forall|v: int| s.vis.contains(v) && !s.rem.contains(v) ==> s.ord[root] <= s.ord[v] && s.ord[root] <= #[trigger] s.low[v]
}

/// `out[cursor..]` lists the assigned nodes once each.
pub open spec fn sc_out(s: Search, n: int) -> bool {
    &&& forall|j: int| s.cursor <= j < n ==> (#[trigger] s.out[j]) < n && s.rem.contains(s.out[j] as int)
    &&& forall|a: int, b: int| s.cursor <= a < b < n ==> #[trigger] s.out[a] != #[trigger] s.out[b]
    &&& forall|v: int| #[trigger] s.rem.contains(v) ==> exists|j: int| s.cursor <= j < n && #[trigger] s.out[j] == v
}

/// The search path runs from `root` through reached, unassigned nodes of increasing order,
/// each the parent of the next.
pub open spec fn sc_stack<W>(g: &CSR<W, Directed>, s: Search, root: int) -> bool {
    let n = g.spec_num_nodes() as int;
    &&& forall|j: int| 0 <= j < s.stack.len() ==> (#[trigger] s.stack[j]).0 < n && s.stack[j].1 < n
        && s.stack[j].2 <= g.out(s.stack[j].0 as int).len()
        && s.vis.contains(s.stack[j].0 as int) && !s.rem.contains(s.stack[j].0 as int)
    &&& forall|a: int, b: int| 0 <= a < b < s.stack.len() ==> s.ord[(#[trigger] s.stack[a]).0 as int] < s.ord[(#[trigger] s.stack[b]).0 as int]
    &&& s.stack.len() > 0 ==> s.stack[0].0 == root && s.stack[0].1 == root
    &&& forall|j: int| 0 < j < s.stack.len() ==> (#[trigger] s.stack[j]).1 == s.stack[j - 1].0
}

/// The search invariant, for a search from `root` (or between searches when `stack` is empty),
/// but for how the path and the unassigned nodes meet at the bottom.
pub open spec fn search_core<W>(g: &CSR<W, Directed>, s: Search, root: int) -> bool {
    let n = g.spec_num_nodes() as int;
    &&& sc_sets(g, s)
    &&& sc_tstack(s, root, n)
    &&& sc_out(s, n)
    &&& sc_stack(g, s, root)
}

/// The search invariant, with the bottom of the unassigned nodes tied to the search path.
pub open spec fn search_ok<W>(g: &CSR<W, Directed>, s: Search, root: int) -> bool {
    &&& search_core(g, s, root)
    &&& s.stack.len() > 0 ==> 0 <= root < g.spec_num_nodes() && s.tstack.len() > 0 && s.tstack[0] == root
    &&& s.stack.len() == 0 ==> s.tstack.len() == 0
}

/// The work left on the search path: for each entry, the edges it has still to try, plus one.
pub open spec fn path_load<W>(g: &CSR<W, Directed>, st: Seq<(usize, usize, usize)>) -> int
    decreases st.len(),
{
    if st.len() == 0 {
        0
    } else {
        path_load(g, st.drop_last()) + (g.out(st.last().0 as int).len() - st.last().2 + 1)
    }
}

proof fn lemma_path_load_nonneg<W>(g: &CSR<W, Directed>, st: Seq<(usize, usize, usize)>)
    requires
        forall|j: int| 0 <= j < st.len() ==> (#[trigger] st[j]).2 <= g.out(st[j].0 as int).len(),
    ensures
        path_load(g, st) >= 0,
    decreases st.len(),
{
    if st.len() > 0 {
        assert forall|j: int| 0 <= j < st.drop_last().len() implies (#[trigger] st.drop_last()[j]).2
            <= g.out(st.drop_last()[j].0 as int).len() by {
            assert(st.drop_last()[j] == st[j]);
        }
        lemma_path_load_nonneg(g, st.drop_last());
        assert(st.last() == st[st.len() - 1]);
    }
}

/// The reached nodes are at most all the nodes.
proof fn lemma_vis_bound(vis: Set<int>, n: int)
    requires
        n >= 0,
        vis.finite(),
        forall|v: int| #[trigger] vis.contains(v) ==> 0 <= v < n,
    ensures
        vis.len() <= n,
{
    lemma_int_range(0, n);
    assert(vis.subset_of(set_int_range(0, n)));
    lemma_len_subset(vis, set_int_range(0, n));
}


/// Starting a search from the unreached node `i` keeps the invariant.
#[verifier::spinoff_prover]
#[verifier::rlimit(100)]
proof fn lemma_start<W>(g: &CSR<W, Directed>, s: Search, i: int)
    requires
        search_ok(g, s, i),
        s.stack.len() == 0,
        0 <= i < g.spec_num_nodes(),
        s.ord[i] == UNSEEN,
    ensures
        s.order < g.spec_num_nodes(),
        search_ok(g, Search {
            ord: s.ord.update(i, s.order as usize),
            low: s.low.update(i, s.order as usize),
            tstack: seq![i as usize],
            order: s.order + 1,
            vis: s.vis.insert(i),
            stack: seq![(i as usize, i as usize, 0usize)],
            ..s
        }, i),
{
    let n = g.spec_num_nodes() as int;
    assert(!s.vis.contains(i));
    lemma_vis_bound(s.vis.insert(i), n);
    let s2 = Search {
        ord: s.ord.update(i, s.order as usize),
        low: s.low.update(i, s.order as usize),
        tstack: seq![i as usize],
        order: s.order + 1,
        vis: s.vis.insert(i),
        stack: seq![(i as usize, i as usize, 0usize)],
        ..s
    };
    assert forall|v: int| s2.vis.contains(v) && !s2.rem.contains(v) implies exists|j: int| 0 <= j < s2.tstack.len() && #[trigger] s2.tstack[j] == v by {
        if v != i {
            assert(s.vis.contains(v) && !s.rem.contains(v));
            let j = choose|j: int| 0 <= j < s.tstack.len() && #[trigger] s.tstack[j] == v;
        }
        assert(s2.tstack[0] == i);
    }
    assert forall|v: int| s2.vis.contains(v) && !s2.rem.contains(v) implies s2.ord[i] <= s2.ord[v] && s2.ord[i] <= #[trigger] s2.low[v] by {
        if v != i {
            assert(s.vis.contains(v) && !s.rem.contains(v));
            let j = choose|j: int| 0 <= j < s.tstack.len() && #[trigger] s.tstack[j] == v;
        }
    }
    assert forall|v: int| #[trigger] s2.vis.contains(v) implies s2.ord[v] < s2.order && s2.low[v] <= s2.ord[v] by {
        if v != i {
            assert(s.vis.contains(v));
        }
    }
    assert forall|v: int| 0 <= v < n implies (#[trigger] s2.vis.contains(v) <==> s2.ord[v] != UNSEEN) by {
        if v != i {
            assert(s.vis.contains(v) <==> s.ord[v] != UNSEEN);
        }
    }
    assert(sc_sets(g, s2));
    assert(sc_tstack(s2, i, n));
    assert(sc_out(s2, n));
    assert(sc_stack(g, s2, i));
}


/// Taking the top node's next edge to an unreached node, and pushing that node, keeps the
/// invariant.
#[verifier::spinoff_prover]
#[verifier::rlimit(100)]
proof fn lemma_visit_new<W>(g: &CSR<W, Directed>, s: Search, root: int, c: int)
    requires
        search_ok(g, s, root),
        s.stack.len() > 0,
        s.stack.last().2 < g.out(s.stack.last().0 as int).len(),
        c == g.out(s.stack.last().0 as int)[s.stack.last().2 as int].target,
        s.ord[c] == UNSEEN,
    ensures
        0 <= c < g.spec_num_nodes(),
        s.order < g.spec_num_nodes(),
        ({
            let t = s.stack.len() - 1;
            let (v, p, k) = s.stack[t];
            search_ok(g, Search {
                ord: s.ord.update(c, s.order as usize),
                low: s.low.update(c, s.order as usize),
                tstack: s.tstack.push(c as usize),
                order: s.order + 1,
                vis: s.vis.insert(c),
                stack: s.stack.update(t, (v, p, (k + 1) as usize)).push((c as usize, v, 0usize)),
                ..s
            }, root)
        }),
{
    let n = g.spec_num_nodes() as int;
    let t = s.stack.len() - 1;
    let (v, p, k) = s.stack[t];
    assert(s.stack.last() == s.stack[t]);
    assert(g.out(v as int)[k as int] == g.out_edges@[g.partition@[v as int] + k]);
    assert(0 <= c < n);
    assert(!s.vis.contains(c));
    lemma_vis_bound(s.vis.insert(c), n);
    assert(s.vis.contains(root)) by {
        assert(s.tstack[0] == root);
    }
    let s2 = Search {
        ord: s.ord.update(c, s.order as usize),
        low: s.low.update(c, s.order as usize),
        tstack: s.tstack.push(c as usize),
        order: s.order + 1,
        vis: s.vis.insert(c),
        stack: s.stack.update(t, (v, p, (k + 1) as usize)).push((c as usize, v, 0usize)),
        ..s
    };
    assert forall|j: int| 0 <= j < s2.tstack.len() implies (#[trigger] s2.tstack[j]) < n
        && s2.vis.contains(s2.tstack[j] as int) && !s2.rem.contains(s2.tstack[j] as int) by {
        if j < s.tstack.len() {
            assert(s.tstack[j] < n && s.vis.contains(s.tstack[j] as int));
        }
    }
    assert forall|w: int| s2.vis.contains(w) && !s2.rem.contains(w) implies exists|j: int| 0 <= j < s2.tstack.len() && #[trigger] s2.tstack[j] == w by {
        if w != c {
            assert(s.vis.contains(w) && !s.rem.contains(w));
            let j = choose|j: int| 0 <= j < s.tstack.len() && #[trigger] s.tstack[j] == w;
            assert(s2.tstack[j] == w);
        } else {
            assert(s2.tstack[s.tstack.len() as int] == w);
        }
    }
    assert forall|a: int, b: int| 0 <= a < b < s2.tstack.len() implies s2.ord[#[trigger] s2.tstack[a] as int] < s2.ord[#[trigger] s2.tstack[b] as int] by {
        assert(s.tstack[a] < n && s.vis.contains(s.tstack[a] as int));
        if b < s.tstack.len() {
            assert(s.tstack[b] < n && s.vis.contains(s.tstack[b] as int));
            assert(s.ord[s.tstack[a] as int] < s.ord[s.tstack[b] as int]);
        }
    }
    assert forall|w: int| s2.vis.contains(w) && !s2.rem.contains(w) implies s2.ord[root] <= s2.ord[w] && s2.ord[root] <= #[trigger] s2.low[w] by {
        if w != c {
            assert(s.vis.contains(w) && !s.rem.contains(w));
            assert(s.ord[root] <= s.low[w]);
        }
    }
    assert forall|w: int| #[trigger] s2.vis.contains(w) implies s2.ord[w] < s2.order && s2.low[w] <= s2.ord[w] by {
        if w != c {
            assert(s.vis.contains(w));
        }
    }
    assert forall|w: int| 0 <= w < n implies (#[trigger] s2.vis.contains(w) <==> s2.ord[w] != UNSEEN) by {
        if w != c {
            assert(s.vis.contains(w) <==> s.ord[w] != UNSEEN);
        }
    }
    assert forall|j: int| 0 <= j < s2.stack.len() implies (#[trigger] s2.stack[j]).0 < n && s2.stack[j].1 < n
        && s2.stack[j].2 <= g.out(s2.stack[j].0 as int).len()
        && s2.vis.contains(s2.stack[j].0 as int) && !s2.rem.contains(s2.stack[j].0 as int) by {
        if j < s.stack.len() {
            assert(s.stack[j].0 < n && s.vis.contains(s.stack[j].0 as int));
        }
    }
    assert forall|a: int, b: int| 0 <= a < b < s2.stack.len() implies s2.ord[(#[trigger] s2.stack[a]).0 as int] < s2.ord[(#[trigger] s2.stack[b]).0 as int] by {
        assert(s.stack[a].0 < n && s.vis.contains(s.stack[a].0 as int));
        if b < s.stack.len() {
            assert(s.stack[b].0 < n && s.vis.contains(s.stack[b].0 as int));
            assert(s.ord[s.stack[a].0 as int] < s.ord[s.stack[b].0 as int]);
        }
    }
    assert forall|j: int| 0 < j < s2.stack.len() implies (#[trigger] s2.stack[j]).1 == s2.stack[j - 1].0 by {
        if j < s.stack.len() {
            assert(s.stack[j].1 == s.stack[j - 1].0);
        }
    }
    assert(sc_sets(g, s2));
    assert(sc_tstack(s2, root, n));
    assert(sc_out(s2, n));
    assert(sc_stack(g, s2, root));
}

/// Taking the top node's next edge to a reached node keeps the invariant; if that node is
/// not yet assigned, its order bounds the top node's low-link.
#[verifier::spinoff_prover]
#[verifier::rlimit(100)]
proof fn lemma_visit_seen<W>(g: &CSR<W, Directed>, s: Search, root: int, c: int, low2: Seq<usize>)
    requires
        search_ok(g, s, root),
        s.stack.len() > 0,
        s.stack.last().2 < g.out(s.stack.last().0 as int).len(),
        c == g.out(s.stack.last().0 as int)[s.stack.last().2 as int].target,
        s.ord[c] != UNSEEN,
        low2 == (if !s.removed[c] {
            let v = s.stack.last().0 as int;
            s.low.update(v, if s.low[v] <= s.ord[c] { s.low[v] } else { s.ord[c] })
        } else {
            s.low
        }),
    ensures
        0 <= c < g.spec_num_nodes(),
        ({
            let t = s.stack.len() - 1;
            let (v, p, k) = s.stack[t];
            let st2 = s.stack.update(t, (v, p, (k + 1) as usize));
            &&& search_ok(g, Search { low: low2, stack: st2, ..s }, root)
            &&& path_load(g, st2) == path_load(g, s.stack) - 1
        }),
{
    let n = g.spec_num_nodes() as int;
    let t = s.stack.len() - 1;
    let (v, p, k) = s.stack[t];
    let st2 = s.stack.update(t, (v, p, (k + 1) as usize));
    assert(s.stack.last() == s.stack[t]);
    assert(g.out(v as int)[k as int] == g.out_edges@[g.partition@[v as int] + k]);
    assert(st2.drop_last() =~= s.stack.drop_last());
    assert(s.vis.contains(v as int) && !s.rem.contains(v as int));
    let s2 = Search { low: low2, stack: st2, ..s };
    assert(sc_tstack(s, root, n));
    assert(s2.tstack == s.tstack && s2.vis == s.vis && s2.rem == s.rem && s2.ord == s.ord);
    assert forall|w: int| s2.vis.contains(w) && !s2.rem.contains(w) implies s2.ord[root] <= s2.ord[w] && s2.ord[root] <= #[trigger] s2.low[w] by {
        assert(s.ord[root] <= s.low[w]);
        if !s.removed[c] && w == v {
            assert(s.vis.contains(c) && !s.rem.contains(c));
        }
    }
    assert forall|w: int| #[trigger] s2.vis.contains(w) implies s2.ord[w] < s2.order && s2.low[w] <= s2.ord[w] by {
        assert(s.vis.contains(w));
    }
    assert forall|j: int| 0 <= j < s2.stack.len() implies (#[trigger] s2.stack[j]).0 < n && s2.stack[j].1 < n
        && s2.stack[j].2 <= g.out(s2.stack[j].0 as int).len()
        && s2.vis.contains(s2.stack[j].0 as int) && !s2.rem.contains(s2.stack[j].0 as int) by {
        assert(s.stack[j].0 < n && s.vis.contains(s.stack[j].0 as int));
    }
    assert forall|a: int, b: int| 0 <= a < b < s2.stack.len() implies s2.ord[(#[trigger] s2.stack[a]).0 as int] < s2.ord[(#[trigger] s2.stack[b]).0 as int] by {
        assert(s.ord[s.stack[a].0 as int] < s.ord[s.stack[b].0 as int]);
    }
    assert forall|j: int| 0 < j < s2.stack.len() implies (#[trigger] s2.stack[j]).1 == s2.stack[j - 1].0 by {
        assert(s.stack[j].1 == s.stack[j - 1].0);
    }
    assert(sc_sets(g, s2));
    assert(sc_tstack(s2, root, n));
    assert(sc_out(s2, n));
    assert(sc_stack(g, s2, root));
}


/// Leaving the top node `v`, whose edges are all tried, and passing its low-link to its
/// parent keeps the invariant but for the bottom of the path; `v` is then the root exactly
/// when the path is left empty, and the root's low-link equals its order.
#[verifier::spinoff_prover]
#[verifier::rlimit(100)]
proof fn lemma_finish<W>(g: &CSR<W, Directed>, s: Search, root: int, low2: Seq<usize>)
    requires
        search_ok(g, s, root),
        s.stack.len() > 0,
        s.stack.last().2 >= g.out(s.stack.last().0 as int).len(),
        ({
            let (v, p, k) = s.stack.last();
            low2 == s.low.update(p as int, if s.low[p as int] <= s.low[v as int] { s.low[p as int] } else { s.low[v as int] })
        }),
    ensures
        ({
            let (v, p, k) = s.stack.last();
            let s2 = Search { low: low2, stack: s.stack.drop_last(), ..s };
            &&& search_core(g, s2, root)
            &&& path_load(g, s2.stack) == path_load(g, s.stack) - 1
            &&& v < g.spec_num_nodes() && s.vis.contains(v as int) && !s.rem.contains(v as int)
            &&& forall|j: int| 0 <= j < s2.stack.len() ==> s.ord[(#[trigger] s2.stack[j]).0 as int] < s.ord[v as int]
            &&& (s2.stack.len() == 0 <==> v == root)
            &&& (v == root ==> low2[v as int] == s.ord[v as int])
            &&& (s2.stack.len() > 0 ==> search_ok(g, s2, root))
            &&& 0 <= root < g.spec_num_nodes() && s.tstack.len() > 0 && s.tstack[0] == root
        }),
{
    let n = g.spec_num_nodes() as int;
    let t = s.stack.len() - 1;
    let (v, p, k) = s.stack[t];
    assert(s.stack.last() == s.stack[t]);
    let s2 = Search { low: low2, stack: s.stack.drop_last(), ..s };
    assert(s2.tstack == s.tstack && s2.vis == s.vis && s2.rem == s.rem && s2.ord == s.ord);
    assert(sc_sets(g, s));
    assert(sc_tstack(s, root, n));
    assert(sc_out(s, n));
    assert(sc_stack(g, s, root));
    assert(v < n && s.vis.contains(v as int) && !s.rem.contains(v as int));
    if t > 0 {
        assert(s.stack[t].1 == s.stack[t - 1].0);
        assert(s.stack[t - 1].0 < n && s.vis.contains(s.stack[t - 1].0 as int));
        assert(s.ord[s.stack[0].0 as int] < s.ord[s.stack[t].0 as int]);
    }
    assert(p < n && s.vis.contains(p as int) && !s.rem.contains(p as int));
    assert forall|w: int| s2.vis.contains(w) && !s2.rem.contains(w) implies s2.ord[root] <= s2.ord[w] && s2.ord[root] <= #[trigger] s2.low[w] by {
        assert(s.ord[root] <= s.low[w]);
        assert(s.ord[root] <= s.low[v as int]);
    }
    assert forall|w: int| #[trigger] s2.vis.contains(w) implies s2.ord[w] < s2.order && s2.low[w] <= s2.ord[w] by {
        assert(s.vis.contains(w));
    }
    assert forall|j: int| 0 <= j < s2.stack.len() implies (#[trigger] s2.stack[j]).0 < n && s2.stack[j].1 < n
        && s2.stack[j].2 <= g.out(s2.stack[j].0 as int).len()
        && s2.vis.contains(s2.stack[j].0 as int) && !s2.rem.contains(s2.stack[j].0 as int) by {
        assert(s2.stack[j] == s.stack[j]);
        assert(s.stack[j].0 < n && s.vis.contains(s.stack[j].0 as int));
    }
    assert forall|a: int, b: int| 0 <= a < b < s2.stack.len() implies s2.ord[(#[trigger] s2.stack[a]).0 as int] < s2.ord[(#[trigger] s2.stack[b]).0 as int] by {
        assert(s.ord[s.stack[a].0 as int] < s.ord[s.stack[b].0 as int]);
    }
    assert forall|j: int| 0 < j < s2.stack.len() implies (#[trigger] s2.stack[j]).1 == s2.stack[j - 1].0 by {
        assert(s.stack[j].1 == s.stack[j - 1].0);
    }
    assert forall|j: int| 0 <= j < s2.stack.len() implies s.ord[(#[trigger] s2.stack[j]).0 as int] < s.ord[v as int] by {
        assert(s2.stack[j] == s.stack[j]);
        assert(s.ord[s.stack[j].0 as int] < s.ord[s.stack[t].0 as int]);
    }
    if v == root {
        assert(s.ord[root] <= s.low[root]);
    }
    assert(s.stack.drop_last().len() > 0 ==> s.stack.drop_last()[0] == s.stack[0]);
    assert(sc_sets(g, s2));
    assert(sc_tstack(s2, root, n));
    assert(sc_out(s2, n));
    assert(sc_stack(g, s2, root));
}

/// Assigning the last unassigned node `u` to the component of `v` keeps the invariant,
/// as long as `v` is unassigned and comes after every node of the path.
#[verifier::spinoff_prover]
#[verifier::rlimit(100)]
proof fn lemma_assign<W>(g: &CSR<W, Directed>, s: Search, root: int, v: int)
    requires
        search_core(g, s, root),
        s.vis.contains(v),
        !s.rem.contains(v),
        forall|j: int| 0 <= j < s.stack.len() ==> s.ord[(#[trigger] s.stack[j]).0 as int] < s.ord[v],
    ensures
        s.tstack.len() > 0,
        s.cursor >= 1,
        ({
            let u = s.tstack.last();
            let s2 = Search {
                tstack: s.tstack.drop_last(),
                removed: s.removed.update(u as int, true),
                out: s.out.update(s.cursor - 1, u),
                cursor: s.cursor - 1,
                rem: s.rem.insert(u as int),
                ..s
            };
            &&& u < g.spec_num_nodes()
            &&& search_core(g, s2, root)
            &&& s.ord[v] <= s.ord[u as int]
            &&& (u != v ==> exists|j: int| 0 <= j < s2.tstack.len() && #[trigger] s2.tstack[j] == v)
        }),
{
    let n = g.spec_num_nodes() as int;
    assert(sc_sets(g, s));
    assert(sc_tstack(s, root, n));
    assert(sc_out(s, n));
    assert(sc_stack(g, s, root));
    let jv = choose|j: int| 0 <= j < s.tstack.len() && #[trigger] s.tstack[j] == v;
    let last = s.tstack.len() - 1;
    let u = s.tstack.last();
    assert(u == s.tstack[last]);
    assert(u < n && s.vis.contains(u as int) && !s.rem.contains(u as int));
    if jv < last {
        assert(s.ord[s.tstack[jv] as int] < s.ord[s.tstack[last] as int]);
    }
    // fewer assigned than reached nodes
    assert(s.rem.subset_of(s.vis.remove(u as int)));
    lemma_len_subset(s.rem, s.vis.remove(u as int));
    let s2 = Search {
        tstack: s.tstack.drop_last(),
        removed: s.removed.update(u as int, true),
        out: s.out.update(s.cursor - 1, u),
        cursor: s.cursor - 1,
        rem: s.rem.insert(u as int),
        ..s
    };
    assert forall|j: int| 0 <= j < s2.tstack.len() implies (#[trigger] s2.tstack[j]) < n
        && s2.vis.contains(s2.tstack[j] as int) && !s2.rem.contains(s2.tstack[j] as int) by {
        assert(s2.tstack[j] == s.tstack[j]);
        assert(s.tstack[j] < n && s.vis.contains(s.tstack[j] as int) && !s.rem.contains(s.tstack[j] as int));
        assert(s.ord[s.tstack[j] as int] < s.ord[s.tstack[last] as int]);
    }
    assert forall|w: int| s2.vis.contains(w) && !s2.rem.contains(w) implies exists|j: int| 0 <= j < s2.tstack.len() && #[trigger] s2.tstack[j] == w by {
        let j = choose|j: int| 0 <= j < s.tstack.len() && #[trigger] s.tstack[j] == w;
        assert(j != last);
        assert(s2.tstack[j] == w);
    }
    assert forall|a: int, b: int| 0 <= a < b < s2.tstack.len() implies s2.ord[#[trigger] s2.tstack[a] as int] < s2.ord[#[trigger] s2.tstack[b] as int] by {
        assert(s2.tstack[a] == s.tstack[a] && s2.tstack[b] == s.tstack[b]);
        assert(s.ord[s.tstack[a] as int] < s.ord[s.tstack[b] as int]);
    }
    assert forall|w: int| s2.vis.contains(w) && !s2.rem.contains(w) implies s2.ord[root] <= s2.ord[w] && s2.ord[root] <= #[trigger] s2.low[w] by {
        assert(s.ord[root] <= s.low[w]);
    }
    assert forall|j: int| s2.cursor <= j < n implies (#[trigger] s2.out[j]) < n && s2.rem.contains(s2.out[j] as int) by {
        if j > s2.cursor {
            assert(s.out[j] < n && s.rem.contains(s.out[j] as int));
        }
    }
    assert forall|a: int, b: int| s2.cursor <= a < b < n implies #[trigger] s2.out[a] != #[trigger] s2.out[b] by {
        assert(s.out[b] < n && s.rem.contains(s.out[b] as int));
        if a > s2.cursor {
            assert(s.out[a] != s.out[b]);
        }
    }
    assert forall|w: int| #[trigger] s2.rem.contains(w) implies exists|j: int| s2.cursor <= j < n && #[trigger] s2.out[j] == w by {
        if w == u {
            assert(s2.out[s2.cursor] == w);
        } else {
            let j = choose|j: int| s.cursor <= j < n && #[trigger] s.out[j] == w;
            assert(s2.out[j] == w);
        }
    }
    assert forall|j: int| 0 <= j < s2.stack.len() implies (#[trigger] s2.stack[j]).0 < n && s2.stack[j].1 < n
        && s2.stack[j].2 <= g.out(s2.stack[j].0 as int).len()
        && s2.vis.contains(s2.stack[j].0 as int) && !s2.rem.contains(s2.stack[j].0 as int) by {
        assert(s.stack[j].0 < n && s.vis.contains(s.stack[j].0 as int));
        assert(s.ord[s.stack[j].0 as int] < s.ord[v]);
    }
    assert forall|w: int| 0 <= w < n implies (#[trigger] s2.rem.contains(w) <==> s2.removed[w]) by {
        assert(s.rem.contains(w) <==> s.removed[w]);
    }
    if u != v {
        assert(s2.tstack[jv] == v);
    }
    assert(sc_sets(g, s2));
    assert(sc_tstack(s2, root, n));
    assert(sc_out(s2, n));
    assert(sc_stack(g, s2, root));
}


/// The node that out-edge `e` of `u` leads to.
pub open spec fn tgt<W>(g: &CSR<W, Directed>, u: int, e: int) -> int {
    g.out(u)[e].target as int
}

/// `u` is on the search path.
pub open spec fn on_path(s: Search, u: int) -> bool {
    exists|j: int| 0 <= j < s.stack.len() && (#[trigger] s.stack[j]).0 == u
}

/// What the low-links record. A tried edge of an unassigned node leads to a reached node
/// that is assigned, or whose order bounds the low-link of the edge's source, or that is the
/// next node of the path (the edge last taken down). A path node's low-link bounds those of
/// the unassigned nodes off the path reached after it and before the next path node.
#[verifier::opaque]
pub open spec fn sc_low<W>(g: &CSR<W, Directed>, s: Search) -> bool {
    let n = g.spec_num_nodes() as int;
    &&& forall|u: int, e: int| #![trigger tgt(g, u, e)]
        0 <= u < n && s.vis.contains(u) && !s.rem.contains(u) && !on_path(s, u) && 0 <= e < g.out(u).len()
            ==> s.vis.contains(tgt(g, u, e)) && (s.rem.contains(tgt(g, u, e)) || s.low[u] <= s.ord[tgt(g, u, e)])
    &&& forall|j: int, e: int| #![trigger s.stack[j], tgt(g, s.stack[j].0 as int, e)]
        0 <= j < s.stack.len() && 0 <= e < s.stack[j].2 ==> s.vis.contains(tgt(g, s.stack[j].0 as int, e)) && (
            s.rem.contains(tgt(g, s.stack[j].0 as int, e))
            || s.low[s.stack[j].0 as int] <= s.ord[tgt(g, s.stack[j].0 as int, e)]
            || (j + 1 < s.stack.len() && e == s.stack[j].2 - 1 && s.stack[j + 1].0 == tgt(g, s.stack[j].0 as int, e)))
    &&& forall|j: int, u: int| #![trigger s.stack[j], s.low[u]]
        0 <= j < s.stack.len() && s.vis.contains(u) && !s.rem.contains(u) && !on_path(s, u)
            && s.ord[s.stack[j].0 as int] < s.ord[u]
            && (j + 1 < s.stack.len() ==> s.ord[u] < s.ord[s.stack[j + 1].0 as int])
            ==> s.low[s.stack[j].0 as int] <= s.low[u]
}

/// The assigned nodes by block. `comp` numbers each assigned node's block in the order in
/// which the blocks were completed, `part` holds the upper ends of the blocks begun, and
/// each `out[q]` lies within the block it is numbered with. Every edge from an assigned node
/// of a block numbered below `cur` leads to an assigned node of that block or an earlier one.
#[verifier::opaque]
pub open spec fn sc_blocks<W>(g: &CSR<W, Directed>, s: Search, comp: Seq<int>, part: Seq<usize>, cur: int) -> bool {
    let n = g.spec_num_nodes() as int;
    &&& comp.len() == n
    &&& forall|u: int| #[trigger] s.rem.contains(u) ==> 1 <= comp[u] <= part.len()
    &&& forall|q: int| s.cursor <= q < n ==> q < part[comp[#[trigger] s.out[q] as int] - 1]
        && (comp[s.out[q] as int] < part.len() ==> part[comp[s.out[q] as int]] <= q)
    &&& forall|u: int, e: int| #![trigger tgt(g, u, e)]
        0 <= u < n && s.rem.contains(u) && comp[u] < cur && 0 <= e < g.out(u).len()
            ==> s.rem.contains(tgt(g, u, e)) && comp[tgt(g, u, e)] <= comp[u]
}

/// The records of the blocks speak only of the assigned nodes and where they lie.
proof fn lemma_blocks_frame<W>(g: &CSR<W, Directed>, s: Search, s2: Search, comp: Seq<int>, part: Seq<usize>, cur: int)
    requires
        sc_blocks(g, s, comp, part, cur),
        s2.rem == s.rem,
        s2.out == s.out,
        s2.cursor == s.cursor,
    ensures
        sc_blocks(g, s2, comp, part, cur),
{
    reveal(sc_blocks);
}

/// Among unassigned reached nodes, the order tells nodes apart.
proof fn lemma_ord_injective(s: Search, root: int, n: int, u: int, w: int)
    requires
        sc_tstack(s, root, n),
        s.vis.contains(u) && !s.rem.contains(u),
        s.vis.contains(w) && !s.rem.contains(w),
        s.ord[u] == s.ord[w],
    ensures
        u == w,
{
    let a = choose|j: int| 0 <= j < s.tstack.len() && #[trigger] s.tstack[j] == u;
    let b = choose|j: int| 0 <= j < s.tstack.len() && #[trigger] s.tstack[j] == w;
    if a < b {
        assert(s.ord[s.tstack[a] as int] < s.ord[s.tstack[b] as int]);
    } else if b < a {
        assert(s.ord[s.tstack[b] as int] < s.ord[s.tstack[a] as int]);
    }
}

/// Pushing an unreached node keeps what the low-links record.
proof fn lemma_low_visit_new<W>(g: &CSR<W, Directed>, s: Search, root: int, c: int, s2: Search)
    requires
        search_ok(g, s, root),
        sc_low(g, s),
        s.stack.len() > 0,
        s.stack.last().2 < g.out(s.stack.last().0 as int).len(),
        c == g.out(s.stack.last().0 as int)[s.stack.last().2 as int].target,
        s.ord[c] == UNSEEN,
        ({
            let t = s.stack.len() - 1;
            let (v, p, k) = s.stack[t];
            s2 == Search {
                ord: s.ord.update(c, s.order as usize),
                low: s.low.update(c, s.order as usize),
                tstack: s.tstack.push(c as usize),
                order: s.order + 1,
                vis: s.vis.insert(c),
                stack: s.stack.update(t, (v, p, (k + 1) as usize)).push((c as usize, v, 0usize)),
                ..s
            }
        }),
    ensures
        sc_low(g, s2),
{
    reveal(sc_low);
    let n = g.spec_num_nodes() as int;
    let t = s.stack.len() - 1;
    let (v, p, k) = s.stack[t];
    assert(s.stack.last() == s.stack[t]);
    assert(sc_sets(g, s));
    assert(sc_stack(g, s, root));
    g.lemma_out_bounds(v as int, k as int);
    assert(!s.vis.contains(c));
    assert(s2.stack[t + 1].0 == c);
    assert(on_path(s2, c));
    assert forall|j: int| 0 <= j <= t implies (#[trigger] s2.stack[j]).0 == s.stack[j].0 && s2.stack[j].1 == s.stack[j].1 by {}
    assert forall|u: int| !on_path(s2, u) implies !on_path(s, u) by {
        if on_path(s, u) {
            let j = choose|j: int| 0 <= j < s.stack.len() && (#[trigger] s.stack[j]).0 == u;
            assert(s2.stack[j].0 == u);
        }
    }
    assert forall|u: int, e: int| #![trigger tgt(g, u, e)]
        0 <= u < n && s2.vis.contains(u) && !s2.rem.contains(u) && !on_path(s2, u) && 0 <= e < g.out(u).len()
        implies s2.vis.contains(tgt(g, u, e)) && (s2.rem.contains(tgt(g, u, e)) || s2.low[u] <= s2.ord[tgt(g, u, e)]) by {
        assert(u != c);
        assert(!on_path(s, u));
        assert(s.vis.contains(tgt(g, u, e)));
    }
    assert forall|j: int, e: int| #![trigger s2.stack[j], tgt(g, s2.stack[j].0 as int, e)]
        0 <= j < s2.stack.len() && 0 <= e < s2.stack[j].2 implies s2.vis.contains(tgt(g, s2.stack[j].0 as int, e)) && (
            s2.rem.contains(tgt(g, s2.stack[j].0 as int, e))
            || s2.low[s2.stack[j].0 as int] <= s2.ord[tgt(g, s2.stack[j].0 as int, e)]
            || (j + 1 < s2.stack.len() && e == s2.stack[j].2 - 1 && s2.stack[j + 1].0 == tgt(g, s2.stack[j].0 as int, e))) by {
        if j < t {
            assert(s2.stack[j] == s.stack[j]);
            assert(s2.stack[j + 1].0 == s.stack[j + 1].0);
            let x = s.stack[j].0 as int;
            assert(s.stack[j].0 < n && s.vis.contains(x));
            assert(s.ord[x] < s.ord[s.stack[t].0 as int]);
            assert(x != c);
            assert(s.vis.contains(tgt(g, x, e)));
        } else if j == t {
            if e < k {
                assert(s.vis.contains(tgt(g, v as int, e)));
            } else {
                assert(tgt(g, v as int, e) == c);
            }
        }
    }
    assert forall|j: int, u: int| #![trigger s2.stack[j], s2.low[u]]
        0 <= j < s2.stack.len() && s2.vis.contains(u) && !s2.rem.contains(u) && !on_path(s2, u)
            && s2.ord[s2.stack[j].0 as int] < s2.ord[u]
            && (j + 1 < s2.stack.len() ==> s2.ord[u] < s2.ord[s2.stack[j + 1].0 as int])
        implies s2.low[s2.stack[j].0 as int] <= s2.low[u] by {
        assert(u != c);
        assert(!on_path(s, u));
        assert(s.vis.contains(u));
        if j <= t {
            let x = s.stack[j].0 as int;
            assert(s.stack[j].0 < n && s.vis.contains(x));
            assert(x != c);
            if j < t {
                assert(s2.stack[j + 1].0 == s.stack[j + 1].0);
                assert(s.stack[j + 1].0 < n && s.vis.contains(s.stack[j + 1].0 as int));
            }
            assert(s.low[x] <= s.low[u]);
        }
    }
}

/// Taking an edge to a reached node keeps what the low-links record.
#[verifier::spinoff_prover]
#[verifier::rlimit(100)]
proof fn lemma_low_visit_seen<W>(g: &CSR<W, Directed>, s: Search, root: int, c: int, low2: Seq<usize>, s2: Search)
    requires
        search_ok(g, s, root),
        sc_low(g, s),
        s.stack.len() > 0,
        s.stack.last().2 < g.out(s.stack.last().0 as int).len(),
        c == g.out(s.stack.last().0 as int)[s.stack.last().2 as int].target,
        s.ord[c] != UNSEEN,
        low2.len() == s.low.len(),
        forall|x: int| 0 <= x < s.low.len() && x != s.stack.last().0 ==> #[trigger] low2[x] == s.low[x],
        low2[s.stack.last().0 as int] <= s.low[s.stack.last().0 as int],
        !s.rem.contains(c) ==> low2[s.stack.last().0 as int] <= s.ord[c],
        ({
            let t = s.stack.len() - 1;
            let (v, p, k) = s.stack[t];
            s2 == Search { low: low2, stack: s.stack.update(t, (v, p, (k + 1) as usize)), ..s }
        }),
    ensures
        sc_low(g, s2),
{
    reveal(sc_low);
    let n = g.spec_num_nodes() as int;
    let t = s.stack.len() - 1;
    let (v, p, k) = s.stack[t];
    assert(s.stack.last() == s.stack[t]);
    assert(sc_sets(g, s));
    assert(sc_stack(g, s, root));
    g.lemma_out_bounds(v as int, k as int);
    assert(s.vis.contains(c));
    assert(s.vis.contains(v as int));
    assert forall|j: int| 0 <= j < s.stack.len() implies (#[trigger] s2.stack[j]).0 == s.stack[j].0 by {}
    assert forall|u: int| !on_path(s2, u) implies !on_path(s, u) && u != v by {
        if on_path(s, u) {
            let j = choose|j: int| 0 <= j < s.stack.len() && (#[trigger] s.stack[j]).0 == u;
            assert(s2.stack[j].0 == u);
        }
        assert(s2.stack[t].0 == v);
    }
    assert forall|u: int, e: int| #![trigger tgt(g, u, e)]
        0 <= u < n && s2.vis.contains(u) && !s2.rem.contains(u) && !on_path(s2, u) && 0 <= e < g.out(u).len()
        implies s2.vis.contains(tgt(g, u, e)) && (s2.rem.contains(tgt(g, u, e)) || s2.low[u] <= s2.ord[tgt(g, u, e)]) by {
        assert(!on_path(s, u) && u != v);
    }
    assert forall|j: int, e: int| #![trigger s2.stack[j], tgt(g, s2.stack[j].0 as int, e)]
        0 <= j < s2.stack.len() && 0 <= e < s2.stack[j].2 implies s2.vis.contains(tgt(g, s2.stack[j].0 as int, e)) && (
            s2.rem.contains(tgt(g, s2.stack[j].0 as int, e))
            || s2.low[s2.stack[j].0 as int] <= s2.ord[tgt(g, s2.stack[j].0 as int, e)]
            || (j + 1 < s2.stack.len() && e == s2.stack[j].2 - 1 && s2.stack[j + 1].0 == tgt(g, s2.stack[j].0 as int, e))) by {
        if j < t {
            assert(s2.stack[j] == s.stack[j]);
            assert(s2.stack[j + 1].0 == s.stack[j + 1].0);
            let x = s.stack[j].0 as int;
            assert(s.ord[x] < s.ord[s.stack[t].0 as int]);
            assert(x != v);
            assert(s.vis.contains(tgt(g, x, e)));
        } else {
            if e < k {
                assert(s.vis.contains(tgt(g, v as int, e)));
            } else {
                assert(tgt(g, v as int, e) == c);
            }
        }
    }
    assert forall|j: int, u: int| #![trigger s2.stack[j], s2.low[u]]
        0 <= j < s2.stack.len() && s2.vis.contains(u) && !s2.rem.contains(u) && !on_path(s2, u)
            && s2.ord[s2.stack[j].0 as int] < s2.ord[u]
            && (j + 1 < s2.stack.len() ==> s2.ord[u] < s2.ord[s2.stack[j + 1].0 as int])
        implies s2.low[s2.stack[j].0 as int] <= s2.low[u] by {
        assert(!on_path(s, u) && u != v);
        let x = s.stack[j].0 as int;
        if j + 1 < s.stack.len() {
            assert(s2.stack[j + 1].0 == s.stack[j + 1].0);
        }
        assert(s.low[x] <= s.low[u]);
    }
}

/// Leaving the finished top node: the tried edges.
#[verifier::spinoff_prover]
#[verifier::rlimit(100)]
proof fn lemma_low_finish_edges<W>(g: &CSR<W, Directed>, s: Search, root: int, low2: Seq<usize>, s2: Search)
    requires
        search_ok(g, s, root),
        sc_low(g, s),
        s.stack.len() > 0,
        s.stack.last().2 >= g.out(s.stack.last().0 as int).len(),
        ({
            let (v, p, k) = s.stack.last();
            low2 == s.low.update(p as int, if s.low[p as int] <= s.low[v as int] { s.low[p as int] } else { s.low[v as int] })
        }),
        s2 == (Search { low: low2, stack: s.stack.drop_last(), ..s }),
    ensures
        forall|u: int, e: int| #![trigger tgt(g, u, e)]
            0 <= u < g.spec_num_nodes() && s2.vis.contains(u) && !s2.rem.contains(u) && !on_path(s2, u) && 0 <= e < g.out(u).len()
            ==> s2.vis.contains(tgt(g, u, e)) && (s2.rem.contains(tgt(g, u, e)) || s2.low[u] <= s2.ord[tgt(g, u, e)]),
        forall|j: int, e: int| #![trigger s2.stack[j], tgt(g, s2.stack[j].0 as int, e)]
            0 <= j < s2.stack.len() && 0 <= e < s2.stack[j].2 ==> s2.vis.contains(tgt(g, s2.stack[j].0 as int, e)) && (
                s2.rem.contains(tgt(g, s2.stack[j].0 as int, e))
                || s2.low[s2.stack[j].0 as int] <= s2.ord[tgt(g, s2.stack[j].0 as int, e)]
                || (j + 1 < s2.stack.len() && e == s2.stack[j].2 - 1 && s2.stack[j + 1].0 == tgt(g, s2.stack[j].0 as int, e))),
{
    reveal(sc_low);
    let n = g.spec_num_nodes() as int;
    let t = s.stack.len() - 1;
    let (v, p, k) = s.stack[t];
    assert(s.stack.last() == s.stack[t]);
    assert(sc_sets(g, s));
    assert(sc_tstack(s, root, n));
    assert(sc_stack(g, s, root));
    assert(s.vis.contains(v as int) && !s.rem.contains(v as int));
    if t > 0 {
        assert(s.stack[t].1 == s.stack[t - 1].0);
        assert(s2.stack[t - 1].0 == p);
        assert(on_path(s2, p as int));
    } else {
        assert(s.stack[0].0 == root && s.stack[0].1 == root);
    }
    assert(p < n && s.vis.contains(p as int));
    assert forall|x: int| 0 <= x < n && x != p implies #[trigger] low2[x] == s.low[x] by {}
    assert forall|x: int| 0 <= x < n implies #[trigger] low2[x] <= s.low[x] by {}
    assert(low2[v as int] == s.low[v as int]);
    assert(low2[p as int] <= s.low[v as int]);
    assert forall|j: int| 0 <= j < t implies (#[trigger] s2.stack[j]) == s.stack[j] by {}
    assert forall|j: int| 0 <= j <= t implies s.ord[(#[trigger] s.stack[j]).0 as int] <= s.ord[v as int] by {
        if j < t {
            assert(s.ord[s.stack[j].0 as int] < s.ord[s.stack[t].0 as int]);
        }
    }
    assert forall|u: int| !on_path(s2, u) && u != v implies !on_path(s, u) by {
        if on_path(s, u) {
            let j = choose|j: int| 0 <= j < s.stack.len() && (#[trigger] s.stack[j]).0 == u;
            assert(j != t);
            assert(s2.stack[j].0 == u);
        }
    }
    assert forall|u: int| s.vis.contains(u) && !s.rem.contains(u) && s.ord[v as int] < s.ord[u] implies !on_path(s, u) by {
        if on_path(s, u) {
            let j = choose|j: int| 0 <= j < s.stack.len() && (#[trigger] s.stack[j]).0 == u;
            assert(s.ord[s.stack[j].0 as int] <= s.ord[v as int]);
        }
    }
    assert forall|u: int, e: int| #![trigger tgt(g, u, e)]
        0 <= u < n && s2.vis.contains(u) && !s2.rem.contains(u) && !on_path(s2, u) && 0 <= e < g.out(u).len()
        implies s2.vis.contains(tgt(g, u, e)) && (s2.rem.contains(tgt(g, u, e)) || s2.low[u] <= s2.ord[tgt(g, u, e)]) by {
        if u == v {
            assert(s.vis.contains(tgt(g, s.stack[t].0 as int, e)));
        } else {
            assert(!on_path(s, u));
            assert(u != p);
        }
    }
    assert forall|j: int, e: int| #![trigger s2.stack[j], tgt(g, s2.stack[j].0 as int, e)]
        0 <= j < s2.stack.len() && 0 <= e < s2.stack[j].2 implies s2.vis.contains(tgt(g, s2.stack[j].0 as int, e)) && (
            s2.rem.contains(tgt(g, s2.stack[j].0 as int, e))
            || s2.low[s2.stack[j].0 as int] <= s2.ord[tgt(g, s2.stack[j].0 as int, e)]
            || (j + 1 < s2.stack.len() && e == s2.stack[j].2 - 1 && s2.stack[j + 1].0 == tgt(g, s2.stack[j].0 as int, e))) by {
        let x = s.stack[j].0 as int;
        assert(s.vis.contains(tgt(g, x, e)));
        if j + 1 < t {
            assert(s2.stack[j + 1] == s.stack[j + 1]);
        } else {
            assert(j + 1 == t);
            assert(x == p);
            assert(s.low[v as int] <= s.ord[v as int]);
        }
    }
}

/// Leaving the finished top node: the low-links along the path.
#[verifier::spinoff_prover]
#[verifier::rlimit(100)]
proof fn lemma_low_finish_links<W>(g: &CSR<W, Directed>, s: Search, root: int, low2: Seq<usize>, s2: Search)
    requires
        search_ok(g, s, root),
        sc_low(g, s),
        s.stack.len() > 0,
        s.stack.last().2 >= g.out(s.stack.last().0 as int).len(),
        ({
            let (v, p, k) = s.stack.last();
            low2 == s.low.update(p as int, if s.low[p as int] <= s.low[v as int] { s.low[p as int] } else { s.low[v as int] })
        }),
        s2 == (Search { low: low2, stack: s.stack.drop_last(), ..s }),
    ensures
        forall|j: int, u: int| #![trigger s2.stack[j], s2.low[u]]
            0 <= j < s2.stack.len() && s2.vis.contains(u) && !s2.rem.contains(u) && !on_path(s2, u)
                && s2.ord[s2.stack[j].0 as int] < s2.ord[u]
                && (j + 1 < s2.stack.len() ==> s2.ord[u] < s2.ord[s2.stack[j + 1].0 as int])
                ==> s2.low[s2.stack[j].0 as int] <= s2.low[u],
        ({
            let v = s.stack.last().0 as int;
            &&& low2[v] == s.low[v]
            &&& forall|u: int| #![trigger s2.low[u]] s.vis.contains(u) && !s.rem.contains(u) && s.ord[v] < s.ord[u]
                ==> low2[v] <= low2[u] && !on_path(s2, u)
        }),
{
    reveal(sc_low);
    let n = g.spec_num_nodes() as int;
    let t = s.stack.len() - 1;
    let (v, p, k) = s.stack[t];
    assert(s.stack.last() == s.stack[t]);
    assert(sc_sets(g, s));
    assert(sc_tstack(s, root, n));
    assert(sc_stack(g, s, root));
    assert(s.vis.contains(v as int) && !s.rem.contains(v as int));
    if t > 0 {
        assert(s.stack[t].1 == s.stack[t - 1].0);
        assert(s2.stack[t - 1].0 == p);
        assert(on_path(s2, p as int));
    } else {
        assert(s.stack[0].0 == root && s.stack[0].1 == root);
    }
    assert(p < n && s.vis.contains(p as int));
    assert forall|x: int| 0 <= x < n && x != p implies #[trigger] low2[x] == s.low[x] by {}
    assert forall|x: int| 0 <= x < n implies #[trigger] low2[x] <= s.low[x] by {}
    assert(low2[v as int] == s.low[v as int]);
    assert(low2[p as int] <= s.low[v as int]);
    assert forall|j: int| 0 <= j < t implies (#[trigger] s2.stack[j]) == s.stack[j] by {}
    assert forall|j: int| 0 <= j <= t implies s.ord[(#[trigger] s.stack[j]).0 as int] <= s.ord[v as int] by {
        if j < t {
            assert(s.ord[s.stack[j].0 as int] < s.ord[s.stack[t].0 as int]);
        }
    }
    assert forall|u: int| !on_path(s2, u) && u != v implies !on_path(s, u) by {
        if on_path(s, u) {
            let j = choose|j: int| 0 <= j < s.stack.len() && (#[trigger] s.stack[j]).0 == u;
            assert(j != t);
            assert(s2.stack[j].0 == u);
        }
    }
    assert forall|u: int| s.vis.contains(u) && !s.rem.contains(u) && s.ord[v as int] < s.ord[u] implies !on_path(s, u) by {
        if on_path(s, u) {
            let j = choose|j: int| 0 <= j < s.stack.len() && (#[trigger] s.stack[j]).0 == u;
            assert(s.ord[s.stack[j].0 as int] <= s.ord[v as int]);
        }
    }
    assert forall|j: int, u: int| #![trigger s2.stack[j], s2.low[u]]
        0 <= j < s2.stack.len() && s2.vis.contains(u) && !s2.rem.contains(u) && !on_path(s2, u)
            && s2.ord[s2.stack[j].0 as int] < s2.ord[u]
            && (j + 1 < s2.stack.len() ==> s2.ord[u] < s2.ord[s2.stack[j + 1].0 as int])
        implies s2.low[s2.stack[j].0 as int] <= s2.low[u] by {
        let x = s.stack[j].0 as int;
        assert(u != p);
        if j + 1 < t {
            assert(s2.stack[j + 1] == s.stack[j + 1]);
            assert(s.ord[s.stack[j + 1].0 as int] <= s.ord[v as int]);
            assert(u != v);
            assert(!on_path(s, u));
            assert(s.low[x] <= s.low[u]);
        } else {
            assert(x == p);
            if u == v {
            } else if s.ord[u] < s.ord[v as int] {
                assert(!on_path(s, u));
                assert(s.stack[j + 1].0 == v);
                assert(s.low[x] <= s.low[u]);
            } else if s.ord[u] > s.ord[v as int] {
                assert(!on_path(s, u));
                assert(s.low[s.stack[t].0 as int] <= s.low[u]);
            } else {
                lemma_ord_injective(s, root, n, u, v as int);
            }
        }
    }
    assert forall|u: int| #![trigger s2.low[u]] s.vis.contains(u) && !s.rem.contains(u) && s.ord[v as int] < s.ord[u]
        implies low2[v as int] <= low2[u] && !on_path(s2, u) by {
        assert(!on_path(s, u));
        assert(s.low[s.stack[t].0 as int] <= s.low[u]);
        assert(s.ord[p as int] <= s.ord[v as int]) by {
            if t > 0 {
                assert(s.ord[s.stack[t - 1].0 as int] <= s.ord[v as int]);
            }
        }
        if on_path(s2, u) {
            let j = choose|j: int| 0 <= j < s2.stack.len() && (#[trigger] s2.stack[j]).0 == u;
            assert(s.stack[j].0 == u);
        }
    }
}

/// Leaving the finished top node `v` keeps what the low-links record; the low-link of `v`
/// then bounds those of the unassigned nodes reached after it, none of them on the path.
proof fn lemma_low_finish<W>(g: &CSR<W, Directed>, s: Search, root: int, low2: Seq<usize>, s2: Search)
    requires
        search_ok(g, s, root),
        sc_low(g, s),
        s.stack.len() > 0,
        s.stack.last().2 >= g.out(s.stack.last().0 as int).len(),
        ({
            let (v, p, k) = s.stack.last();
            low2 == s.low.update(p as int, if s.low[p as int] <= s.low[v as int] { s.low[p as int] } else { s.low[v as int] })
        }),
        s2 == (Search { low: low2, stack: s.stack.drop_last(), ..s }),
    ensures
        sc_low(g, s2),
        ({
            let v = s.stack.last().0 as int;
            &&& low2[v] == s.low[v]
            &&& forall|u: int| #![trigger s2.low[u]] s.vis.contains(u) && !s.rem.contains(u) && s.ord[v] < s.ord[u]
                ==> low2[v] <= low2[u] && !on_path(s2, u)
        }),
{
    reveal(sc_low);
    lemma_low_finish_edges(g, s, root, low2, s2);
    lemma_low_finish_links(g, s, root, low2, s2);
}

/// Starting a search from an unreached node keeps what the low-links record.
proof fn lemma_low_start<W>(g: &CSR<W, Directed>, s: Search, i: int, s2: Search)
    requires
        search_ok(g, s, i),
        s.stack.len() == 0,
        0 <= i < g.spec_num_nodes(),
        s2 == (Search {
            ord: s.ord.update(i, s.order as usize),
            low: s.low.update(i, s.order as usize),
            tstack: seq![i as usize],
            order: s.order + 1,
            vis: s.vis.insert(i),
            stack: seq![(i as usize, i as usize, 0usize)],
            ..s
        }),
    ensures
        sc_low(g, s2),
{
    reveal(sc_low);
    let n = g.spec_num_nodes() as int;
    assert(sc_tstack(s, i, n));
    assert forall|u: int| s.vis.contains(u) implies s.rem.contains(u) by {
        if !s.rem.contains(u) {
            let j = choose|j: int| 0 <= j < s.tstack.len() && #[trigger] s.tstack[j] == u;
        }
    }
    assert(s2.stack[0].0 == i);
    assert(on_path(s2, i));
}

/// Every unassigned node reached at or after `v` is off the path, with a low-link not below
/// the order of `v`.
#[verifier::opaque]
pub open spec fn sc_above(s: Search, v: int) -> bool {
    forall|u: int| #![trigger s.low[u]] s.vis.contains(u) && !s.rem.contains(u) && s.ord[v] <= s.ord[u]
        ==> s.ord[v] <= s.low[u] && !on_path(s, u)
}

/// The edges from the assigned nodes of block `b` lead to assigned nodes of that block or an
/// earlier one, or to unassigned nodes reached at or after `v`.
#[verifier::opaque]
pub open spec fn sc_open_block<W>(g: &CSR<W, Directed>, s: Search, comp: Seq<int>, b: int, v: int) -> bool {
    let n = g.spec_num_nodes() as int;
    forall|u: int, e: int| #![trigger tgt(g, u, e)]
        0 <= u < n && s.rem.contains(u) && comp[u] == b && 0 <= e < g.out(u).len()
            ==> (s.rem.contains(tgt(g, u, e)) && comp[tgt(g, u, e)] <= b)
            || (s.vis.contains(tgt(g, u, e)) && !s.rem.contains(tgt(g, u, e)) && s.ord[v] <= s.ord[tgt(g, u, e)])
}

/// Beginning a block at the finished node `v`, whose low-link is its order.
proof fn lemma_low_open_block<W>(g: &CSR<W, Directed>, s: Search, root: int, v: int, comp: Seq<int>, part: Seq<usize>)
    requires
        search_core(g, s, root),
        sc_blocks(g, s, comp, part, part.len() + 1int),
        s.vis.contains(v),
        !s.rem.contains(v),
        s.low[v] == s.ord[v],
        forall|u: int| #![trigger s.low[u]] s.vis.contains(u) && !s.rem.contains(u) && s.ord[v] < s.ord[u]
            ==> s.low[v] <= s.low[u] && !on_path(s, u),
        forall|j: int| 0 <= j < s.stack.len() ==> s.ord[(#[trigger] s.stack[j]).0 as int] < s.ord[v],
        0 <= s.cursor,
    ensures
        sc_blocks(g, s, comp, part.push(s.cursor as usize), part.len() + 1int),
        sc_above(s, v),
        sc_open_block(g, s, comp, part.len() + 1int, v),
{
    reveal(sc_blocks);
    reveal(sc_above);
    reveal(sc_open_block);
    let n = g.spec_num_nodes() as int;
    let part2 = part.push(s.cursor as usize);
    assert(sc_tstack(s, root, n));
    assert forall|q: int| s.cursor <= q < n implies q < part2[comp[#[trigger] s.out[q] as int] - 1]
        && (comp[s.out[q] as int] < part2.len() ==> part2[comp[s.out[q] as int]] <= q) by {
        assert(sc_out(s, n));
        assert(s.out[q] < n && s.rem.contains(s.out[q] as int));
    }
    assert forall|u: int| #![trigger s.low[u]] s.vis.contains(u) && !s.rem.contains(u) && s.ord[v] <= s.ord[u]
        implies s.ord[v] <= s.low[u] && !on_path(s, u) by {
        if u == v {
            if on_path(s, u) {
                let j = choose|j: int| 0 <= j < s.stack.len() && (#[trigger] s.stack[j]).0 == u;
            }
        } else if s.ord[v] == s.ord[u] {
            lemma_ord_injective(s, root, n, u, v);
        }
    }
}

/// Assigning the last unassigned node to the open block keeps the records.
#[verifier::spinoff_prover]
#[verifier::rlimit(100)]
proof fn lemma_low_assign<W>(
    g: &CSR<W, Directed>,
    s: Search,
    v: int,
    comp: Seq<int>,
    part: Seq<usize>,
    u: int,
    s2: Search,
)
    requires
        sc_low(g, s),
        sc_blocks(g, s, comp, part, part.len() as int),
        sc_above(s, v),
        sc_open_block(g, s, comp, part.len() as int, v),
        sc_out(s, g.spec_num_nodes() as int),
        s.out.len() == g.spec_num_nodes(),
        s.cursor <= g.spec_num_nodes(),
        part.len() >= 1,
        1 <= s.cursor <= part[part.len() - 1],
        0 <= u < g.spec_num_nodes(),
        u <= usize::MAX,
        s.vis.contains(u),
        !s.rem.contains(u),
        s.ord[v] <= s.ord[u],
        s2 == (Search {
            tstack: s.tstack.drop_last(),
            removed: s.removed.update(u, true),
            out: s.out.update(s.cursor - 1, u as usize),
            cursor: s.cursor - 1,
            rem: s.rem.insert(u),
            ..s
        }),
    ensures
        sc_low(g, s2),
        sc_blocks(g, s2, comp.update(u, part.len() as int), part, part.len() as int),
        sc_above(s2, v),
        sc_open_block(g, s2, comp.update(u, part.len() as int), part.len() as int, v),
{
    reveal(sc_low);
    reveal(sc_blocks);
    reveal(sc_above);
    reveal(sc_open_block);
    let n = g.spec_num_nodes() as int;
    let b = part.len() as int;
    let comp2 = comp.update(u, b);
    assert(s.ord[v] <= s.low[u]);
    assert(!on_path(s, u));
    assert forall|q: int| s.cursor <= q < n implies #[trigger] s.out[q] != u by {
        assert(s.rem.contains(s.out[q] as int));
    }
    assert forall|q: int| s2.cursor <= q < n implies q < part[comp2[#[trigger] s2.out[q] as int] - 1]
        && (comp2[s2.out[q] as int] < part.len() ==> part[comp2[s2.out[q] as int]] <= q) by {
        if q > s2.cursor {
            assert(s2.out[q] == s.out[q]);
            assert(q < part[comp[s.out[q] as int] - 1]);
        } else {
            assert(s2.out[q] == u);
            assert(comp2[u] == b);
        }
    }
    assert forall|x: int, e: int| #![trigger tgt(g, x, e)]
        0 <= x < n && s2.rem.contains(x) && comp2[x] < b && 0 <= e < g.out(x).len()
        implies s2.rem.contains(tgt(g, x, e)) && comp2[tgt(g, x, e)] <= comp2[x] by {
        assert(x != u);
    }
    assert forall|x: int, e: int| #![trigger tgt(g, x, e)]
        0 <= x < n && s2.rem.contains(x) && comp2[x] == b && 0 <= e < g.out(x).len()
        implies (s2.rem.contains(tgt(g, x, e)) && comp2[tgt(g, x, e)] <= b)
            || (s2.vis.contains(tgt(g, x, e)) && !s2.rem.contains(tgt(g, x, e)) && s2.ord[v] <= s2.ord[tgt(g, x, e)]) by {
        let w = tgt(g, x, e);
        if x == u {
            assert(s.vis.contains(w));
            if s.rem.contains(w) {
                assert(1 <= comp[w] <= b);
            } else if w != u {
                assert(s.low[u] <= s.ord[w]);
                assert(s.ord[v] <= s.low[u]);
            }
        }
    }
    assert forall|x: int, e: int| #![trigger tgt(g, x, e)]
        0 <= x < n && s2.vis.contains(x) && !s2.rem.contains(x) && !on_path(s2, x) && 0 <= e < g.out(x).len()
        implies s2.vis.contains(tgt(g, x, e)) && (s2.rem.contains(tgt(g, x, e)) || s2.low[x] <= s2.ord[tgt(g, x, e)]) by {
        assert(s2.stack == s.stack);
        assert(on_path(s2, x) == on_path(s, x));
        assert(!s.rem.contains(x));
        assert(s.vis.contains(tgt(g, x, e)));
    }
}

/// Closing the block begun at `v` once every node reached at or after `v` is assigned.
proof fn lemma_low_close_block<W>(
    g: &CSR<W, Directed>,
    s: Search,
    root: int,
    v: int,
    comp: Seq<int>,
    part: Seq<usize>,
    t0: Seq<usize>,
    iv: int,
)
    requires
        sc_blocks(g, s, comp, part, part.len() as int),
        sc_open_block(g, s, comp, part.len() as int, v),
        sc_tstack(s, root, g.spec_num_nodes() as int),
        0 <= iv < t0.len(),
        t0[iv] == v,
        s.tstack == t0.take(iv),
        forall|a: int, b: int| 0 <= a < b < t0.len() ==> s.ord[#[trigger] t0[a] as int] < s.ord[#[trigger] t0[b] as int],
    ensures
        sc_blocks(g, s, comp, part, part.len() + 1int),
{
    reveal(sc_blocks);
    reveal(sc_open_block);
    let n = g.spec_num_nodes() as int;
    assert forall|x: int, e: int| #![trigger tgt(g, x, e)]
        0 <= x < n && s.rem.contains(x) && comp[x] < part.len() + 1 && 0 <= e < g.out(x).len()
        implies s.rem.contains(tgt(g, x, e)) && comp[tgt(g, x, e)] <= comp[x] by {
        let w = tgt(g, x, e);
        if comp[x] == part.len() && !s.rem.contains(w) {
            assert(s.vis.contains(w) && s.ord[v] <= s.ord[w]);
            let j = choose|j: int| 0 <= j < s.tstack.len() && #[trigger] s.tstack[j] == w;
            assert(s.tstack[j] == t0[j]);
            assert(s.ord[t0[j] as int] < s.ord[t0[iv] as int]);
        }
    }
}

/// Once every node is assigned, the blocks cut from `out` by `part` and a last bound of
/// zero keep every edge going forward.
proof fn lemma_low_final<W>(g: &CSR<W, Directed>, s: Search, comp: Seq<int>, part: Seq<usize>)
    requires
        sc_sets(g, s),
        sc_out(s, g.spec_num_nodes() as int),
        s.cursor == 0,
        sc_blocks(g, s, comp, part, part.len() + 1int),
        forall|a: int, b: int| 0 <= a < b < part.len() ==> #[trigger] part[a] > #[trigger] part[b],
    ensures
        forward_blocks(g, s.out, part.push(0usize)),
{
    reveal(sc_blocks);
    let n = g.spec_num_nodes() as int;
    let bounds = part.push(0usize);
    assert forall|a: int, b: int| 0 <= a <= b < bounds.len() implies #[trigger] bounds[a] >= #[trigger] bounds[b] by {
        if a < b && b < part.len() {
            assert(part[a] > part[b]);
        }
    }
    assert forall|q: int| 0 <= q < n implies 1 <= comp[#[trigger] s.out[q] as int] < bounds.len()
        && bounds[comp[s.out[q] as int]] <= q < bounds[comp[s.out[q] as int] - 1] by {
        assert(s.out[q] < n && s.rem.contains(s.out[q] as int));
    }
    assert forall|q: int, e: int| #![trigger s.out[q], g.out(s.out[q] as int)[e]]
        0 <= q < s.out.len() && 0 <= e < g.out(s.out[q] as int).len()
        implies exists|b: int, q2: int| #![trigger bounds[b], s.out[q2]] 1 <= b < bounds.len() && bounds[b] <= q < bounds[b - 1]
            && bounds[b] <= q2 < s.out.len() && s.out[q2] == g.out(s.out[q] as int)[e].target by {
        let u = s.out[q] as int;
        assert(u < n && s.rem.contains(u));
        let w = tgt(g, u, e);
        assert(s.rem.contains(w) && comp[w] <= comp[u]);
        let q2 = choose|j: int| s.cursor <= j < n && #[trigger] s.out[j] == w;
        assert(s.out[q2] as int == w);
        assert(bounds[comp[w]] <= q2);
        assert(bounds[comp[u]] <= bounds[comp[w]]);
        assert(s.out[q2] == g.out(s.out[q] as int)[e].target);
    }
}

/// The search state held by the variables of `SCC::new`.
pub open spec fn state(
    ord: Seq<usize>,
    low: Seq<usize>,
    removed: Seq<bool>,
    tstack: Seq<usize>,
    out: Seq<usize>,
    cursor: usize,
    order: usize,
    vis: Set<int>,
    rem: Set<int>,
    stack: Seq<(usize, usize, usize)>,
) -> Search {
    Search { ord, low, removed, tstack, out, cursor: cursor as int, order: order as int, vis, rem, stack }
}

/// The boundaries pushed so far fall strictly from `n`, and all lie above `cursor`.
pub open spec fn bounds_ok(partition: Seq<usize>, cursor: usize, n: usize) -> bool {
    &&& partition.len() == 0 ==> cursor == n
    &&& partition.len() > 0 ==> partition[0] == n && partition[partition.len() - 1] > cursor
    &&& forall|a: int, b: int| 0 <= a < b < partition.len() ==> #[trigger] partition[a] > #[trigger] partition[b]
}

impl SCC {
    /// Finds the strongly connected components of `csr` by Tarjan's algorithm, with an
    /// explicit search stack. The components are laid out from the end of `nodes`
    /// backwards, in the order in which they are completed.
    #[verifier::spinoff_prover]
    #[verifier::rlimit(100)]
    pub fn new<W>(csr: &CSR<W, Directed>) -> (r: Self)
        requires
            csr.wf(),
        ensures
            r.is_partition_of(csr.spec_num_nodes()),
            r.edges_forward(csr),
    {
        let n = csr.num_nodes();
        let mut ord: Vec<usize> = Vec::new();
        let mut low: Vec<usize> = Vec::new();
        let mut removed: Vec<bool> = Vec::new();
        let mut out: Vec<usize> = Vec::new();
        let mut i: usize = 0;
        while i < n
            invariant
                i <= n,
                ord@ == Seq::new(i as nat, |j: int| UNSEEN),
                low@ == Seq::new(i as nat, |j: int| UNSEEN),
                removed@ == Seq::new(i as nat, |j: int| false),
                out@ == Seq::new(i as nat, |j: int| 0usize),
            decreases n - i,
        {
            ord.push(UNSEEN);
            low.push(UNSEEN);
            removed.push(false);
            out.push(0);
            i += 1;
        }
        let mut tstack: Vec<usize> = Vec::new();
        let mut stack: Vec<(usize, usize, usize)> = Vec::new();
        let mut partition: Vec<usize> = Vec::new();
        let mut order: usize = 0;
        let mut cursor: usize = n;
        let ghost mut vis: Set<int> = Set::empty();
        let ghost mut rem: Set<int> = Set::empty();
        let ghost mut comp: Seq<int> = Seq::new(n as nat, |j: int| 0int);
        proof {
            let s0 = state(ord@, low@, removed@, tstack@, out@, cursor, order, vis, rem, stack@);
            reveal(sc_low);
            reveal(sc_blocks);
            assert(sc_low(csr, s0));
            assert(sc_blocks(csr, s0, comp, partition@, partition@.len() + 1int));
            assert(sc_sets(csr, s0));
            assert(sc_tstack(s0, 0, n as int));
            assert(sc_out(s0, n as int));
            assert(sc_stack(csr, s0, 0));
        }
        let mut i: usize = 0;
        while i < n
            invariant
                csr.wf(),
                n == csr.spec_num_nodes(),
                i <= n,
                stack@.len() == 0,
                search_ok(csr, state(ord@, low@, removed@, tstack@, out@, cursor, order, vis, rem, stack@), i as int),
                forall|v: int| 0 <= v < i ==> #[trigger] vis.contains(v),
                bounds_ok(partition@, cursor, n),
                sc_low(csr, state(ord@, low@, removed@, tstack@, out@, cursor, order, vis, rem, stack@)),
                sc_blocks(csr, state(ord@, low@, removed@, tstack@, out@, cursor, order, vis, rem, stack@), comp, partition@, partition@.len() + 1int),
            decreases n - i,
        {
            if ord[i] != UNSEEN {
                proof {
                    assert(vis.contains(i as int));
                }
                i += 1;
                continue;
            }
            let ghost s_pre = state(ord@, low@, removed@, tstack@, out@, cursor, order, vis, rem, stack@);
            proof {
                lemma_start(csr, s_pre, i as int);
            }
            ord.set(i, order);
            low.set(i, order);
            tstack.push(i);
            stack.push((i, i, 0));
            proof {
                vis = vis.insert(i as int);
                assert(tstack@ =~= seq![i]);
                assert(stack@ =~= seq![(i, i, 0usize)]);
            }
            order += 1;
            proof {
                lemma_low_start(csr, s_pre, i as int, state(ord@, low@, removed@, tstack@, out@, cursor, order, vis, rem, stack@));
                lemma_blocks_frame(csr, s_pre, state(ord@, low@, removed@, tstack@, out@, cursor, order, vis, rem, stack@), comp, partition@, partition@.len() + 1int);
            }
            while stack.len() > 0
                invariant
                    csr.wf(),
                    n == csr.spec_num_nodes(),
                    i < n,
                    search_ok(csr, state(ord@, low@, removed@, tstack@, out@, cursor, order, vis, rem, stack@), i as int),
                    forall|v: int| 0 <= v <= i ==> #[trigger] vis.contains(v),
                    bounds_ok(partition@, cursor, n),
                    sc_low(csr, state(ord@, low@, removed@, tstack@, out@, cursor, order, vis, rem, stack@)),
                    sc_blocks(csr, state(ord@, low@, removed@, tstack@, out@, cursor, order, vis, rem, stack@), comp, partition@, partition@.len() + 1int),
                decreases n - order, path_load(csr, stack@),
            {
                let ghost s = state(ord@, low@, removed@, tstack@, out@, cursor, order, vis, rem, stack@);
                let t = stack.len() - 1;
                let (v, p, k) = stack[t];
                proof {
                    assert(stack@.last() == stack@[t as int]);
                    assert(sc_sets(csr, s));
                    assert(sc_stack(csr, s, i as int));
                    assert(v < n && p < n && k <= csr.out(v as int).len());
                    lemma_path_load_nonneg(csr, stack@);
                }
                match csr.nth_edge(v, k) {
                    Some(e) => {
                        let c = e.target;
                        stack.set(t, (v, p, k + 1));
                        if ord[c] == UNSEEN {
                            proof {
                                lemma_visit_new(csr, s, i as int, c as int);
                            }
                            ord.set(c, order);
                            low.set(c, order);
                            tstack.push(c);
                            stack.push((c, v, 0));
                            proof {
                                vis = vis.insert(c as int);
                            }
                            order += 1;
                            proof {
                                lemma_low_visit_new(csr, s, i as int, c as int, state(ord@, low@, removed@, tstack@, out@, cursor, order, vis, rem, stack@));
                                lemma_blocks_frame(csr, s, state(ord@, low@, removed@, tstack@, out@, cursor, order, vis, rem, stack@), comp, partition@, partition@.len() + 1int);
                            }
                        } else {
                            let ghost low2 = if !s.removed[c as int] {
                                s.low.update(v as int, if s.low[v as int] <= s.ord[c as int] { s.low[v as int] } else { s.ord[c as int] })
                            } else {
                                s.low
                            };
                            proof {
                                lemma_visit_seen(csr, s, i as int, c as int, low2);
                            }
                            if !removed[c] {
                                let m = if low[v] <= ord[c] { low[v] } else { ord[c] };
                                low.set(v, m);
                            }
                            proof {
                                assert(low@ == low2);
                                lemma_path_load_nonneg(csr, stack@);
                                assert(sc_sets(csr, s));
                                assert(s.rem.contains(c as int) <==> s.removed[c as int]);
                                assert(stack@.last() == stack@[t as int]);
                                lemma_low_visit_seen(csr, s, i as int, c as int, low2, state(ord@, low@, removed@, tstack@, out@, cursor, order, vis, rem, stack@));
                                lemma_blocks_frame(csr, s, state(ord@, low@, removed@, tstack@, out@, cursor, order, vis, rem, stack@), comp, partition@, partition@.len() + 1int);
                            }
                        }
                    },
                    None => {
                        let m = if low[p] <= low[v] { low[p] } else { low[v] };
                        let ghost low2 = s.low.update(p as int, m);
                        proof {
                            lemma_finish(csr, s, i as int, low2);
                        }
                        stack.pop();
                        low.set(p, m);
                        proof {
                            assert(stack@ =~= s.stack.drop_last());
                            assert(low@ == low2);
                            lemma_path_load_nonneg(csr, stack@);
                            lemma_low_finish(csr, s, i as int, low2, state(ord@, low@, removed@, tstack@, out@, cursor, order, vis, rem, stack@));
                            lemma_blocks_frame(csr, s, state(ord@, low@, removed@, tstack@, out@, cursor, order, vis, rem, stack@), comp, partition@, partition@.len() + 1int);
                        }
                        if !removed[v] && ord[v] == low[v] {
                            let c0 = cursor;
                            let ghost part0 = partition@;
                            proof {
                                lemma_low_open_block(csr, state(ord@, low@, removed@, tstack@, out@, cursor, order, vis, rem, stack@), i as int, v as int, comp, part0);
                            }
                            partition.push(cursor);
                            let ghost t0 = tstack@;
                            let ghost iv = choose|j: int| 0 <= j < t0.len() && #[trigger] t0[j] == v;
                            proof {
                                let s1 = state(ord@, low@, removed@, tstack@, out@, cursor, order, vis, rem, stack@);
                                assert(sc_tstack(s1, i as int, n as int));
                                assert(exists|j: int| 0 <= j < t0.len() && #[trigger] t0[j] == v);
                            }
                            let mut done = false;
                            while !done
                                invariant
                                    csr.wf(),
                                    n == csr.spec_num_nodes(),
                                    i < n,
                                    v < n,
                                    search_core(csr, state(ord@, low@, removed@, tstack@, out@, cursor, order, vis, rem, stack@), i as int),
                                    forall|w: int| 0 <= w <= i ==> #[trigger] vis.contains(w),
                                    vis.contains(v as int),
                                    forall|j: int| 0 <= j < stack@.len() ==> ord@[(#[trigger] stack@[j]).0 as int] < ord@[v as int],
                                    0 <= iv < t0.len(),
                                    t0[iv] == v,
                                    tstack@ == t0.take(tstack@.len() as int),
                                    tstack@.len() <= t0.len(),
                                    !done ==> iv < tstack@.len() && !rem.contains(v as int),
                                    done ==> tstack@.len() == iv,
                                    partition@.len() > 0,
                                    partition@[partition@.len() - 1] == c0,
                                    partition@[0] == n,
                                    forall|a: int, b: int| 0 <= a < b < partition@.len() ==> #[trigger] partition@[a] > #[trigger] partition@[b],
                                    cursor <= c0,
                                    done ==> cursor < c0,
                                    sc_low(csr, state(ord@, low@, removed@, tstack@, out@, cursor, order, vis, rem, stack@)),
                                    sc_blocks(csr, state(ord@, low@, removed@, tstack@, out@, cursor, order, vis, rem, stack@), comp, partition@, partition@.len() as int),
                                    sc_above(state(ord@, low@, removed@, tstack@, out@, cursor, order, vis, rem, stack@), v as int),
                                    sc_open_block(csr, state(ord@, low@, removed@, tstack@, out@, cursor, order, vis, rem, stack@), comp, partition@.len() as int, v as int),
                                    forall|a: int, b: int| 0 <= a < b < t0.len() ==> ord@[#[trigger] t0[a] as int] < ord@[#[trigger] t0[b] as int],
                                decreases tstack@.len() + (if done { 0int } else { 1 }),
                            {
                                let ghost s3 = state(ord@, low@, removed@, tstack@, out@, cursor, order, vis, rem, stack@);
                                proof {
                                    assert(s3.tstack[iv] == v);
                                    lemma_assign(csr, s3, i as int, v as int);
                                    assert(sc_tstack(s3, i as int, n as int));
                                }
                                let u = tstack.pop().unwrap();
                                cursor -= 1;
                                removed.set(u, true);
                                out.set(cursor, u);
                                proof {
                                    rem = rem.insert(u as int);
                                    let l = s3.tstack.len() - 1;
                                    assert(u == s3.tstack[l]);
                                    if u == v && iv != l {
                                        assert(s3.ord[s3.tstack[iv] as int] < s3.ord[s3.tstack[l] as int]);
                                    }
                                    assert(tstack@ =~= t0.take(tstack@.len() as int));
                                    lemma_low_assign(csr, s3, v as int, comp, partition@, u as int, state(ord@, low@, removed@, tstack@, out@, cursor, order, vis, rem, stack@));
                                    comp = comp.update(u as int, partition@.len() as int);
                                }
                                if u == v {
                                    done = true;
                                }
                            }
                            proof {
                                let s4 = state(ord@, low@, removed@, tstack@, out@, cursor, order, vis, rem, stack@);
                                let s1 = state(ord@, low@, removed@, t0, out@, cursor, order, vis, rem, stack@);
                                assert(tstack@ =~= t0.take(iv));
                                lemma_low_close_block(csr, s4, i as int, v as int, comp, partition@, t0, iv);
                                if v == i {
                                    if iv != 0 {
                                        assert(t0[0] == i);
                                        assert(sc_tstack(s, i as int, n as int));
                                        assert(s.ord[s.tstack[0] as int] < s.ord[s.tstack[iv] as int]);
                                    }
                                } else {
                                    assert(iv != 0);
                                    assert(tstack@[0] == t0[0]);
                                }
                            }
                        }
                    },
                }
            }
            i += 1;
        }
        proof {
            let s = state(ord@, low@, removed@, tstack@, out@, cursor, order, vis, rem, stack@);
            assert(sc_sets(csr, s));
            assert(sc_tstack(s, i as int, n as int));
            assert(sc_out(s, n as int));
            lemma_int_range(0, n as int);
            assert(vis =~= set_int_range(0, n as int));
            assert(rem =~= vis) by {
                assert forall|v: int| vis.contains(v) implies rem.contains(v) by {
                    if !rem.contains(v) {
                        let j = choose|j: int| 0 <= j < tstack@.len() && #[trigger] tstack@[j] == v;
                    }
                }
            }
            assert(cursor == 0);
        }
        let ghost part_end = partition@;
        proof {
            lemma_low_final(csr, state(ord@, low@, removed@, tstack@, out@, cursor, order, vis, rem, stack@), comp, part_end);
        }
        partition.push(0);
        let r = SCC { scc: out, partition };
        proof {
            let s = state(ord@, low@, removed@, tstack@, r.scc@, cursor, order, vis, rem, stack@);
            assert(sc_out(s, n as int));
            assert forall|v: usize| v < n implies #[trigger] r.nodes().contains(v) by {
                assert(rem.contains(v as int));
                let j = choose|j: int| 0 <= j < n && #[trigger] r.scc@[j] == v;
            }
            assert forall|a: int, b: int| 0 <= a < b < r.nodes().len() implies r.nodes()[a] != r.nodes()[b] by {
                assert(s.out[a] != s.out[b]);
            }
        }
        r
    }

    /// Every edge of `g` leads within its block or to a later one.
    pub open spec fn edges_forward<W>(&self, g: &CSR<W, Directed>) -> bool {
        forward_blocks(g, self.nodes(), self.bounds())
    }

    /// A walk that starts in block `b` never leaves the nodes from `bounds[b]` on.
    pub proof fn lemma_walk_forward<W>(&self, g: &CSR<W, Directed>, p: Seq<int>, es: Seq<int>, q0: int, b: int)
        requires
            self.is_partition_of(g.spec_num_nodes()),
            self.edges_forward(g),
            is_walk(g, p, es),
            1 <= b < self.bounds().len(),
            self.bounds()[b] <= q0 < self.bounds()[b - 1],
            self.nodes()[q0] == p[0],
        ensures
            forall|i: int| #![trigger p[i]] 0 <= i < p.len() ==> exists|q: int| #![trigger self.nodes()[q]]
                self.bounds()[b] <= q < self.nodes().len() && self.nodes()[q] == p[i],
        decreases p.len(),
    {
        let nodes = self.nodes();
        let bounds = self.bounds();
        if p.len() > 1 {
            let pre = p.drop_last();
            let pes = es.drop_last();
            assert forall|i: int| 0 <= i < pre.len() implies 0 <= #[trigger] pre[i] < g.spec_num_nodes() by {
                assert(pre[i] == p[i]);
            }
            assert forall|i: int| 0 <= i < pes.len() implies 0 <= #[trigger] pes[i] < g.out(pre[i]).len()
                && g.out(pre[i])[pes[i]].target == pre[i + 1] by {
                assert(pre[i] == p[i] && pre[i + 1] == p[i + 1] && pes[i] == es[i]);
            }
            self.lemma_walk_forward(g, pre, pes, q0, b);
            let m = p.len() - 2;
            assert(pre[m] == p[m]);
            let q = choose|q: int| #![trigger nodes[q]] bounds[b] <= q < nodes.len() && nodes[q] == pre[m];
            let e = es[m];
            assert(g.out(nodes[q] as int)[e].target == p[m + 1]);
            let (b2, q2) = choose|b2: int, q2: int| #![trigger bounds[b2], nodes[q2]] 1 <= b2 < bounds.len()
                && bounds[b2] <= q < bounds[b2 - 1] && bounds[b2] <= q2 < nodes.len()
                && nodes[q2] == g.out(nodes[q] as int)[e].target;
            if b2 > b {
                assert(bounds[b2 - 1] <= bounds[b]) by {
                    if b2 - 1 > b {
                        assert(bounds[b] > bounds[b2 - 1]);
                    }
                }
            } else if b2 < b {
                assert(bounds[b2] > bounds[b]);
            }
            assert(nodes[q2] == p[p.len() - 1]);
            assert forall|i: int| #![trigger p[i]] 0 <= i < p.len() implies exists|q: int| #![trigger nodes[q]]
                bounds[b] <= q < nodes.len() && nodes[q] == p[i] by {
                if i < p.len() - 1 {
                    assert(pre[i] == p[i]);
                } else {
                    assert(nodes[q2] == p[i]);
                }
            }
        } else {
            assert(nodes[q0] == p[0]);
        }
    }

    /// Two nodes that reach each other lie in the same block: no block splits a strongly
    /// connected component.
    pub proof fn lemma_mutual_reach_same_block<W>(
        &self,
        g: &CSR<W, Directed>,
        there: Seq<int>,
        there_edges: Seq<int>,
        back: Seq<int>,
        back_edges: Seq<int>,
        q0: int,
        b0: int,
        q1: int,
        b1: int,
    )
        requires
            self.is_partition_of(g.spec_num_nodes()),
            self.edges_forward(g),
            is_walk(g, there, there_edges),
            is_walk(g, back, back_edges),
            1 <= b0 < self.bounds().len(),
            self.bounds()[b0] <= q0 < self.bounds()[b0 - 1],
            1 <= b1 < self.bounds().len(),
            self.bounds()[b1] <= q1 < self.bounds()[b1 - 1],
            there[0] == self.nodes()[q0],
            there.last() == self.nodes()[q1],
            back[0] == self.nodes()[q1],
            back.last() == self.nodes()[q0],
        ensures
            b0 == b1,
    {
        let nodes = self.nodes();
        let bounds = self.bounds();
        self.lemma_walk_forward(g, there, there_edges, q0, b0);
        self.lemma_walk_forward(g, back, back_edges, q1, b1);
        let qa = choose|q: int| #![trigger nodes[q]] bounds[b0] <= q < nodes.len() && nodes[q] == there[there.len() - 1];
        let qb = choose|q: int| #![trigger nodes[q]] bounds[b1] <= q < nodes.len() && nodes[q] == back[back.len() - 1];
        assert(qa == q1) by {
            if qa != q1 {
                assert(nodes.no_duplicates());
            }
        }
        assert(qb == q0) by {
            if qb != q0 {
                assert(nodes.no_duplicates());
            }
        }
        if b0 < b1 {
            assert(bounds[b1 - 1] <= bounds[b0]) by {
                if b1 - 1 > b0 {
                    assert(bounds[b0] > bounds[b1 - 1]);
                }
            }
        } else if b1 < b0 {
            assert(bounds[b0 - 1] <= bounds[b1]) by {
                if b0 - 1 > b1 {
                    assert(bounds[b1] > bounds[b0 - 1]);
                }
            }
        }
    }

    /// The number of components.
    pub fn len(&self) -> (r: usize)
        requires
            self.bounds().len() >= 1,
        ensures
            r == self.bounds().len() - 1,
    {
        self.partition.len() - 1
    }

    /// The components in topological order: a component comes before those it has edges
    /// to. Each is a block of `nodes`, the blocks taken from the front.
    pub fn topological_iter(&self) -> (r: Vec<&[usize]>)
        requires
            self.is_partition_of(self.nodes().len()),
        ensures
            r@.len() == self.bounds().len() - 1,
            forall|j: int| 0 <= j < r@.len() ==> (#[trigger] r@[j])@ == self.nodes().subrange(
                self.bounds()[self.bounds().len() - 1 - j] as int,
                self.bounds()[self.bounds().len() - 2 - j] as int,
            ),
    {
        let m = self.partition.len() - 1;
        let mut r: Vec<&[usize]> = Vec::new();
        let mut j: usize = 0;
        while j < m
            invariant
                self.is_partition_of(self.nodes().len()),
                m == self.bounds().len() - 1,
                j <= m,
                r@.len() == j,
                forall|q: int| 0 <= q < j ==> (#[trigger] r@[q])@ == self.nodes().subrange(
                    self.bounds()[m - q] as int,
                    self.bounds()[m - q - 1] as int,
                ),
            decreases m - j,
        {
            let a = self.partition[m - j];
            let b = self.partition[m - j - 1];
            proof {
                assert(self.bounds()[m - j - 1] > self.bounds()[m - j as int]);
                assert(self.bounds()[0] >= self.bounds()[m - j - 1]) by {
                    if m - j - 1 > 0 {
                        assert(self.bounds()[0] > self.bounds()[m - j - 1]);
                    }
                }
            }
            r.push(vstd::slice::slice_subrange(self.scc.as_slice(), a, b));
            j += 1;
        }
        r
    }
}

} // verus!
