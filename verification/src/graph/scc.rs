//! Strongly connected components of a graph with compact node indices, by Tarjan's
//! algorithm.

use vstd::prelude::*;
use vstd::set_lib::{set_int_range, lemma_int_range, lemma_len_subset};
use super::csr::{Index, CSR};

verus! {

/// The state of the search in `tarjan_scc`.
///
/// `ord` and `low` are the visiting order and the low-link of each node (`n` when not yet
/// reached); `on` marks the nodes on `tstack`, the reached nodes not yet assigned to a
/// component, in visiting order; `out` lists the assigned nodes; `stack` holds the search
/// entries `(node, parent)` from `root`, the parent `n` for the root. `vis` and `rem` are
/// the sets of reached and of assigned nodes.
pub struct TState {
    pub ord: Seq<usize>,
    pub low: Seq<usize>,
    pub on: Seq<bool>,
    pub tstack: Seq<usize>,
    pub out: Seq<usize>,
    pub order: int,
    pub vis: Set<int>,
    pub rem: Set<int>,
    pub stack: Seq<(usize, usize)>,
}

/// Sizes, and the sets of reached and assigned nodes.
pub open spec fn ts_sets(s: TState, n: int) -> bool {
    &&& s.ord.len() == n && s.low.len() == n && s.on.len() == n
    &&& 0 <= s.order <= n
    &&& s.vis.finite() && s.rem.finite()
    &&& s.vis.len() == s.order
    &&& s.rem.len() == s.out.len()
    &&& forall|v: int| #[trigger] s.vis.contains(v) ==> 0 <= v < n
    &&& forall|v: int| #[trigger] s.rem.contains(v) ==> s.vis.contains(v) && !s.on[v]
    &&& forall|v: int| 0 <= v < n ==> (#[trigger] s.vis.contains(v) <==> s.ord[v] != n)
    &&& forall|v: int| 0 <= v < n && s.vis.contains(v) && !#[trigger] s.on[v] ==> s.rem.contains(v)
    &&& forall|v: int| 0 <= v < n && #[trigger] s.on[v] ==> s.vis.contains(v)
    &&& forall|v: int| #[trigger] s.vis.contains(v) ==> s.ord[v] < s.order && s.low[v] <= s.ord[v]
}

/// The unassigned reached nodes are those on `tstack`, in increasing order; the nodes
/// reached from `root` have low-links no lower than the root's order.
pub open spec fn ts_tstack(s: TState, root: int, n: int) -> bool {
    &&& forall|j: int| 0 <= j < s.tstack.len() ==> (#[trigger] s.tstack[j]) < n && s.on[s.tstack[j] as int]
    &&& forall|v: int| 0 <= v < n && #[trigger] s.on[v] ==> exists|j: int| 0 <= j < s.tstack.len() && #[trigger] s.tstack[j] == v
    &&& forall|a: int, b: int| 0 <= a < b < s.tstack.len() ==> s.ord[#[trigger] s.tstack[a] as int] < s.ord[#[trigger] s.tstack[b] as int]
    &&& forall|v: int| 0 <= v < n && #[trigger] s.on[v] ==> s.ord[root] <= s.ord[v]
    &&& forall|v: int| #[trigger] s.vis.contains(v) && s.ord[root] <= s.ord[v] ==> s.ord[root] <= s.low[v]
}

/// `out` lists the assigned nodes once each.
pub open spec fn ts_out(s: TState, n: int) -> bool {
    &&& forall|j: int| 0 <= j < s.out.len() ==> (#[trigger] s.out[j]) < n && s.rem.contains(s.out[j] as int)
    &&& forall|a: int, b: int| 0 <= a < b < s.out.len() ==> #[trigger] s.out[a] != #[trigger] s.out[b]
    &&& forall|v: int| #[trigger] s.rem.contains(v) ==> exists|j: int| 0 <= j < s.out.len() && #[trigger] s.out[j] == v
}

/// The search entries: the root's at the bottom, then nodes pushed as children of nodes
/// reached from the root.
pub open spec fn ts_stack(s: TState, root: int, n: int) -> bool {
    &&& forall|j: int| 0 <= j < s.stack.len() ==> (#[trigger] s.stack[j]).0 < n
        && (s.vis.contains(s.stack[j].0 as int) ==> s.ord[root] <= s.ord[s.stack[j].0 as int])
        && (j == 0 ==> s.stack[j].0 == root && s.stack[j].1 == n)
        && (j > 0 ==> s.stack[j].1 < n && s.vis.contains(s.stack[j].1 as int) && s.ord[root] <= s.ord[s.stack[j].1 as int]
            && s.stack[j].0 != root)
    &&& s.stack.len() > 0 ==> 0 <= root < n
    &&& s.stack.len() > 0 && s.vis.contains(root) ==> s.on[root] && s.tstack.len() > 0 && s.tstack[0] == root
    &&& s.stack.len() > 0 && !s.vis.contains(root) ==> s.tstack.len() == 0
    &&& s.stack.len() == 0 ==> s.tstack.len() == 0
}

pub open spec fn ts_ok(s: TState, root: int, n: int) -> bool {
    &&& ts_sets(s, n)
    &&& ts_tstack(s, root, n)
    &&& ts_out(s, n)
    &&& ts_stack(s, root, n)
}

proof fn lemma_vis_bound(vis: Set<int>, n: int)
    requires
        n >= 0,
        vis.finite(),
        forall|v: int| #[trigger] vis.contains(v) ==> 0 <= v < n,
    ensures
        vis.len() <= n,
{
    lemma_int_range(0, n);
    assert(vis.subset_of(set_int_range(0, n)));
    lemma_len_subset(vis, set_int_range(0, n));
}

/// Indices as numbers.
pub open spec fn nums<Idx: Index>(v: Seq<Idx>) -> Seq<int> {
    v.map_values(|x: Idx| x.spec_usize())
}

/// Machine integers as numbers.
pub open spec fn ints(v: Seq<usize>) -> Seq<int> {
    v.map_values(|u: usize| u as int)
}

/// The components, listed one after another.
pub struct SCC<Idx: Index> {
    scc: Vec<Idx>,
    partition: Vec<Idx>,
}

impl<Idx: Index> SCC<Idx> {
    /// The nodes, component after component, as numbers.
    pub closed spec fn nodes(&self) -> Seq<int> {
        nums(self.scc@)
    }

    /// The nodes, component after component.
    pub closed spec fn items(&self) -> Seq<Idx> {
        self.scc@
    }

    /// The component boundaries, from zero up to the number of nodes.
    pub closed spec fn bounds(&self) -> Seq<int> {
        nums(self.partition@)
    }

    /// `nodes` lists each of the `n` nodes once, and `bounds` rises strictly from zero to
    /// `n`, cutting it into non-empty blocks.
    pub open spec fn is_partition_of(&self, n: nat) -> bool {
        &&& self.nodes().len() == n
        &&& self.nodes().no_duplicates()
        &&& forall|j: int| 0 <= j < n ==> 0 <= #[trigger] self.nodes()[j] < n
        &&& forall|v: int| 0 <= v < n ==> #[trigger] self.nodes().contains(v)
        &&& self.bounds().len() >= 1
        &&& self.bounds()[0] == 0
        &&& self.bounds()[self.bounds().len() - 1] == n
        &&& forall|a: int, b: int| 0 <= a < b < self.bounds().len() ==> #[trigger] self.bounds()[a] < #[trigger] self.bounds()[b]
    }

    /// The components in topological order, each a block of `nodes`, the last block first.
    pub fn iter_in_topological_order(&self) -> (r: Vec<&[Idx]>)
        requires
            self.is_partition_of(self.nodes().len()),
        ensures
            r@.len() == self.bounds().len() - 1,
            forall|j: int| 0 <= j < r@.len() ==> (#[trigger] r@[j])@ == self.items().subrange(
                self.bounds()[self.bounds().len() - 2 - j],
                self.bounds()[self.bounds().len() - 1 - j],
            ),
    {
        let m = self.partition.len() - 1;
        let mut r: Vec<&[Idx]> = Vec::new();
        let mut j: usize = 0;
        while j < m
            invariant
                self.is_partition_of(self.nodes().len()),
                m == self.bounds().len() - 1,
                j <= m,
                r@.len() == j,
                forall|q: int| 0 <= q < j ==> (#[trigger] r@[q])@ == self.items().subrange(
                    self.bounds()[m - 1 - q],
                    self.bounds()[m - q],
                ),
            decreases m - j,
        {
            let a = self.partition[m - 1 - j].into_usize();
            let b = self.partition[m - j].into_usize();
            proof {
                assert(self.bounds()[m - 1 - j] < self.bounds()[m - j as int]);
                assert(self.bounds()[m - j as int] <= self.bounds()[m as int]) by {
                    if j > 0 {
                        assert(self.bounds()[m - j as int] < self.bounds()[m as int]);
                    }
                }
                assert(self.nodes().len() == self.scc@.len());
            }
            r.push(vstd::slice::slice_subrange(self.scc.as_slice(), a, b));
            j += 1;
        }
        r
    }
}

/// Visiting the entry on top, a node not yet reached, keeps the invariant.
proof fn lemma_visit(s: TState, root: int, n: int)
    requires
        ts_ok(s, root, n),
        s.stack.len() > 0,
        s.ord[s.stack.last().0 as int] == n,
    ensures
        s.order < n,
        ({
            let i = s.stack.last().0 as int;
            ts_ok(TState {
                ord: s.ord.update(i, s.order as usize),
                low: s.low.update(i, s.order as usize),
                on: s.on.update(i, true),
                tstack: s.tstack.push(i as usize),
                order: s.order + 1,
                vis: s.vis.insert(i),
                ..s
            }, root, n)
        }),
{
    let t = s.stack.len() - 1;
    let i = s.stack[t].0 as int;
    assert(s.stack.last() == s.stack[t]);
    assert(i < n);
    assert(!s.vis.contains(i));
    lemma_vis_bound(s.vis.insert(i), n);
    let s2 = TState {
        ord: s.ord.update(i, s.order as usize),
        low: s.low.update(i, s.order as usize),
        on: s.on.update(i, true),
        tstack: s.tstack.push(i as usize),
        order: s.order + 1,
        vis: s.vis.insert(i),
        ..s
    };
    assert(s.vis.contains(root) || i == root) by {
        if !s.vis.contains(root) {
            assert(s.stack[0].0 == root);
            if t > 0 {
                assert(s.stack[t].0 != root);
            }
        }
    }
    if !s.vis.contains(root) {
        assert(i == root);
        assert(s.tstack.len() == 0);
    }
    assert forall|v: int| #[trigger] s2.vis.contains(v) implies s2.ord[v] < s2.order && s2.low[v] <= s2.ord[v] by {
        if v != i {
            assert(s.vis.contains(v));
        }
    }
    assert forall|v: int| 0 <= v < n implies (#[trigger] s2.vis.contains(v) <==> s2.ord[v] != n) by {
        if v != i {
            assert(s.vis.contains(v) <==> s.ord[v] != n);
        }
    }
    assert forall|v: int| 0 <= v < n && s2.vis.contains(v) && !#[trigger] s2.on[v] implies s2.rem.contains(v) by {
        assert(s.vis.contains(v) && !s.on[v]);
    }
    assert forall|v: int| #[trigger] s2.rem.contains(v) implies s2.vis.contains(v) && !s2.on[v] by {
        assert(s.vis.contains(v) && !s.on[v]);
    }
    assert forall|v: int| 0 <= v < n && #[trigger] s2.on[v] implies s2.vis.contains(v) by {
        if v != i {
            assert(s.on[v]);
        }
    }
    assert(ts_sets(s2, n));
    assert forall|j: int| 0 <= j < s2.tstack.len() implies (#[trigger] s2.tstack[j]) < n && s2.on[s2.tstack[j] as int] by {
        if j < s.tstack.len() {
            assert(s.tstack[j] < n && s.on[s.tstack[j] as int]);
        }
    }
    assert forall|v: int| 0 <= v < n && #[trigger] s2.on[v] implies exists|j: int| 0 <= j < s2.tstack.len() && #[trigger] s2.tstack[j] == v by {
        if v == i {
            assert(s2.tstack[s.tstack.len() as int] == v);
        } else {
            assert(s.on[v]);
            let j = choose|j: int| 0 <= j < s.tstack.len() && #[trigger] s.tstack[j] == v;
            assert(s2.tstack[j] == v);
        }
    }
    assert forall|a: int, b: int| 0 <= a < b < s2.tstack.len() implies s2.ord[#[trigger] s2.tstack[a] as int] < s2.ord[#[trigger] s2.tstack[b] as int] by {
        assert(s.tstack[a] < n && s.on[s.tstack[a] as int]);
        assert(s.vis.contains(s.tstack[a] as int));
        if b < s.tstack.len() {
            assert(s.tstack[b] < n && s.on[s.tstack[b] as int]);
            assert(s.ord[s.tstack[a] as int] < s.ord[s.tstack[b] as int]);
        }
    }
    assert forall|v: int| 0 <= v < n && #[trigger] s2.on[v] implies s2.ord[root] <= s2.ord[v] by {
        if v != i {
            assert(s.on[v]);
            assert(s.vis.contains(v));
        }
        if i != root {
            assert(s.vis.contains(root));
        }
    }
    assert forall|v: int| #[trigger] s2.vis.contains(v) && s2.ord[root] <= s2.ord[v] implies s2.ord[root] <= s2.low[v] by {
        if v != i {
            assert(s.vis.contains(v));
            if i != root {
                assert(s.vis.contains(root));
            }
        }
    }
    assert(ts_tstack(s2, root, n));
    assert forall|j: int| 0 <= j < s2.out.len() implies (#[trigger] s2.out[j]) < n && s2.rem.contains(s2.out[j] as int) by {
        assert(s.out[j] < n && s.rem.contains(s.out[j] as int));
    }
    assert(ts_out(s2, n));
    assert forall|j: int| 0 <= j < s2.stack.len() implies (#[trigger] s2.stack[j]).0 < n
        && (s2.vis.contains(s2.stack[j].0 as int) ==> s2.ord[root] <= s2.ord[s2.stack[j].0 as int])
        && (j == 0 ==> s2.stack[j].0 == root && s2.stack[j].1 == n)
        && (j > 0 ==> s2.stack[j].1 < n && s2.vis.contains(s2.stack[j].1 as int) && s2.ord[root] <= s2.ord[s2.stack[j].1 as int]
            && s2.stack[j].0 != root) by {
        assert(s.stack[j].0 < n);
        if i != root {
            assert(s.vis.contains(root));
        }
        if j > 0 {
            assert(s.vis.contains(s.stack[j].1 as int));
        }
    }
    assert(ts_stack(s2, root, n));
}


/// While visiting `i`, a neighbour `j` not yet reached is pushed as `i`'s child, and a
/// neighbour on `tstack` bounds `i`'s low-link; both keep the invariant.
proof fn lemma_child(s: TState, root: int, n: int, i: int, j: int, s2: TState)
    requires
        ts_ok(s, root, n),
        0 <= i < n,
        0 <= j < n,
        s.on[i],
        s.vis.contains(root),
        s.stack.len() > 0,
        s2 == (if s.ord[j] == n {
            TState { stack: s.stack.push((j as usize, i as usize)), ..s }
        } else if s.on[j] {
            TState { low: s.low.update(i, if s.low[i] <= s.low[j] { s.low[i] } else { s.low[j] }), ..s }
        } else {
            s
        }),
    ensures
        ts_ok(s2, root, n),
        s2.stack.len() >= s.stack.len(),
{
    assert(ts_sets(s, n));
    assert(ts_tstack(s, root, n));
    assert(ts_out(s, n));
    assert(ts_stack(s, root, n));
    assert(s.vis.contains(i));
    assert(s.ord[root] <= s.ord[i]);
    if s.ord[j] == n {
        assert(!s.vis.contains(j));
        assert forall|q: int| 0 <= q < s2.stack.len() implies (#[trigger] s2.stack[q]).0 < n
            && (s2.vis.contains(s2.stack[q].0 as int) ==> s2.ord[root] <= s2.ord[s2.stack[q].0 as int])
            && (q == 0 ==> s2.stack[q].0 == root && s2.stack[q].1 == n)
            && (q > 0 ==> s2.stack[q].1 < n && s2.vis.contains(s2.stack[q].1 as int) && s2.ord[root] <= s2.ord[s2.stack[q].1 as int]
                && s2.stack[q].0 != root) by {
            if q < s.stack.len() {
                assert(s2.stack[q] == s.stack[q]);
            }
        }
        assert(ts_stack(s2, root, n));
    } else if s.on[j] {
        assert(s.ord[root] <= s.ord[j]);
        assert(s.vis.contains(j));
        assert(s.ord[root] <= s.low[j]);
        assert forall|v: int| #[trigger] s2.vis.contains(v) implies s2.ord[v] < s2.order && s2.low[v] <= s2.ord[v] by {
            assert(s.vis.contains(v));
        }
        assert(ts_sets(s2, n));
        assert forall|v: int| #[trigger] s2.vis.contains(v) && s2.ord[root] <= s2.ord[v] implies s2.ord[root] <= s2.low[v] by {
            assert(s.vis.contains(v));
        }
        assert(s2.tstack == s.tstack && s2.on == s.on && s2.ord == s.ord);
        assert(ts_tstack(s2, root, n));
        assert(ts_out(s2, n));
        assert(ts_stack(s2, root, n));
    }
}

/// Leaving the entry on top, whose node has been visited, and passing its low-link to the
/// parent keeps the invariant but for the bottom; the entry was the root's exactly when
/// none is left, and then the root is on `tstack` with its low-link equal to its order.
proof fn lemma_finish(s: TState, root: int, n: int, s2: TState)
    requires
        ts_ok(s, root, n),
        s.stack.len() > 0,
        s.ord[s.stack.last().0 as int] != n,
        ({
            let (i, pi) = s.stack.last();
            s2 == TState {
                low: if pi as int != n {
                    s.low.update(pi as int, if s.low[pi as int] <= s.low[i as int] { s.low[pi as int] } else { s.low[i as int] })
                } else {
                    s.low
                },
                stack: s.stack.drop_last(),
                ..s
            }
        }),
    ensures
        ts_sets(s2, n),
        ts_tstack(s2, root, n),
        ts_out(s2, n),
        ({
            let (i, pi) = s.stack.last();
            &&& 0 <= i < n
            &&& s.vis.contains(root)
            &&& (s2.stack.len() == 0 <==> i == root)
            &&& (i == root ==> s.on[root] && s2.low[root] == s2.ord[root] && s.tstack.len() > 0 && s.tstack[0] == root)
            &&& (i != root ==> s2.ord[root] < s2.ord[i as int] || !s.on[i as int])
            &&& (s2.stack.len() > 0 ==> ts_ok(s2, root, n))
            &&& s.on[root] && s.tstack.len() > 0 && s.tstack[0] == root
            &&& forall|j: int| 0 <= j < s2.stack.len() ==> #[trigger] s2.stack[j] == s.stack[j]
        }),
{
    let t = s.stack.len() - 1;
    let (i, pi) = s.stack[t];
    assert(s.stack.last() == s.stack[t]);
    assert(ts_sets(s, n));
    assert(ts_tstack(s, root, n));
    assert(ts_out(s, n));
    assert(ts_stack(s, root, n));
    assert(i < n);
    assert(s.vis.contains(i as int));
    assert(s.vis.contains(root)) by {
        if !s.vis.contains(root) {
            if t > 0 {
                assert(s.stack[t].0 != root);
                assert(s.vis.contains(s.stack[t].1 as int));
                assert(s.ord[root] <= s.ord[s.stack[t].1 as int]);
            }
        }
    }
    assert(s.ord[root] <= s.ord[i as int]);
    assert(s.ord[root] <= s.low[i as int]);
    if t > 0 {
        assert(i as int != root);
        assert(pi < n && s.vis.contains(pi as int));
    } else {
        assert(i as int == root && pi as int == n);
    }
    if i as int != root && s.on[i as int] {
        // `i` sits above the root on `tstack`
        let ki = choose|k: int| 0 <= k < s.tstack.len() && #[trigger] s.tstack[k] == i;
        assert(s.tstack[0] == root);
        assert(ki != 0);
        assert(s.ord[s.tstack[0] as int] < s.ord[s.tstack[ki] as int]);
    }
    assert forall|v: int| #[trigger] s2.vis.contains(v) implies s2.ord[v] < s2.order && s2.low[v] <= s2.ord[v] by {
        assert(s.vis.contains(v));
    }
    assert(ts_sets(s2, n));
    assert forall|v: int| #[trigger] s2.vis.contains(v) && s2.ord[root] <= s2.ord[v] implies s2.ord[root] <= s2.low[v] by {
        assert(s.vis.contains(v));
        if t > 0 {
            assert(s.ord[root] <= s.ord[pi as int]);
        }
    }
    assert(s2.tstack == s.tstack && s2.on == s.on && s2.ord == s.ord);
    assert(ts_tstack(s2, root, n));
    assert(ts_out(s2, n));
    assert forall|q: int| 0 <= q < s2.stack.len() implies (#[trigger] s2.stack[q]).0 < n
        && (s2.vis.contains(s2.stack[q].0 as int) ==> s2.ord[root] <= s2.ord[s2.stack[q].0 as int])
        && (q == 0 ==> s2.stack[q].0 == root && s2.stack[q].1 == n)
        && (q > 0 ==> s2.stack[q].1 < n && s2.vis.contains(s2.stack[q].1 as int) && s2.ord[root] <= s2.ord[s2.stack[q].1 as int]
            && s2.stack[q].0 != root) by {
        assert(s2.stack[q] == s.stack[q]);
    }
    if s2.stack.len() > 0 {
        assert(s2.stack[0] == s.stack[0]);
        assert(ts_stack(s2, root, n));
    }
}

/// Moving the top of `tstack` to the output keeps the invariant but for the bottom, as
/// long as `i` is still on `tstack`.
proof fn lemma_assign(s: TState, root: int, n: int, i: int)
    requires
        ts_sets(s, n),
        ts_tstack(s, root, n),
        ts_out(s, n),
        0 <= i < n,
        s.on[i],
    ensures
        s.tstack.len() > 0,
        ({
            let u = s.tstack.last();
            let s2 = TState {
                on: s.on.update(u as int, false),
                tstack: s.tstack.drop_last(),
                out: s.out.push(u),
                rem: s.rem.insert(u as int),
                ..s
            };
            &&& u < n
            &&& ts_sets(s2, n)
            &&& ts_tstack(s2, root, n)
            &&& ts_out(s2, n)
            &&& s.ord[i] <= s.ord[u as int]
            &&& (u != i ==> s2.on[i])
        }),
{
    let ki = choose|k: int| 0 <= k < s.tstack.len() && #[trigger] s.tstack[k] == i;
    let last = s.tstack.len() - 1;
    let u = s.tstack.last();
    assert(u == s.tstack[last]);
    assert(u < n && s.on[u as int]);
    assert(s.vis.contains(u as int) && !s.rem.contains(u as int));
    if ki < last {
        assert(s.ord[s.tstack[ki] as int] < s.ord[s.tstack[last] as int]);
    }
    let s2 = TState {
        on: s.on.update(u as int, false),
        tstack: s.tstack.drop_last(),
        out: s.out.push(u),
        rem: s.rem.insert(u as int),
        ..s
    };
    assert forall|v: int| #[trigger] s2.rem.contains(v) implies s2.vis.contains(v) && !s2.on[v] by {
        if v != u {
            assert(s.vis.contains(v) && !s.on[v]);
        }
    }
    assert forall|v: int| 0 <= v < n && s2.vis.contains(v) && !#[trigger] s2.on[v] implies s2.rem.contains(v) by {
        if v != u {
            assert(s.vis.contains(v) && !s.on[v]);
        }
    }
    assert forall|v: int| 0 <= v < n && #[trigger] s2.on[v] implies s2.vis.contains(v) by {
        assert(s.on[v]);
    }
    assert(ts_sets(s2, n));
    assert forall|j: int| 0 <= j < s2.tstack.len() implies (#[trigger] s2.tstack[j]) < n && s2.on[s2.tstack[j] as int] by {
        assert(s2.tstack[j] == s.tstack[j]);
        assert(s.tstack[j] < n && s.on[s.tstack[j] as int]);
        assert(s.ord[s.tstack[j] as int] < s.ord[s.tstack[last] as int]);
    }
    assert forall|v: int| 0 <= v < n && #[trigger] s2.on[v] implies exists|j: int| 0 <= j < s2.tstack.len() && #[trigger] s2.tstack[j] == v by {
        assert(s.on[v]);
        let j = choose|j: int| 0 <= j < s.tstack.len() && #[trigger] s.tstack[j] == v;
        assert(j != last);
        assert(s2.tstack[j] == v);
    }
    assert forall|a: int, b: int| 0 <= a < b < s2.tstack.len() implies s2.ord[#[trigger] s2.tstack[a] as int] < s2.ord[#[trigger] s2.tstack[b] as int] by {
        assert(s2.tstack[a] == s.tstack[a] && s2.tstack[b] == s.tstack[b]);
        assert(s.ord[s.tstack[a] as int] < s.ord[s.tstack[b] as int]);
    }
    assert forall|v: int| 0 <= v < n && #[trigger] s2.on[v] implies s2.ord[root] <= s2.ord[v] by {
        assert(s.on[v]);
    }
    assert(ts_tstack(s2, root, n));
    assert forall|j: int| 0 <= j < s2.out.len() implies (#[trigger] s2.out[j]) < n && s2.rem.contains(s2.out[j] as int) by {
        if j < s.out.len() {
            assert(s.out[j] < n && s.rem.contains(s.out[j] as int));
        }
    }
    assert forall|a: int, b: int| 0 <= a < b < s2.out.len() implies #[trigger] s2.out[a] != #[trigger] s2.out[b] by {
        assert(s.out[a] < n && s.rem.contains(s.out[a] as int));
        if b < s.out.len() {
            assert(s.out[a] != s.out[b]);
        }
    }
    assert forall|v: int| #[trigger] s2.rem.contains(v) implies exists|j: int| 0 <= j < s2.out.len() && #[trigger] s2.out[j] == v by {
        if v == u {
            assert(s2.out[s.out.len() as int] == v);
        } else {
            let j = choose|j: int| 0 <= j < s.out.len() && #[trigger] s.out[j] == v;
            assert(s2.out[j] == v);
        }
    }
    assert(ts_out(s2, n));
    if u != i {
        assert(ki != last);
    }
}


/// The search state held by the variables of `tarjan_scc`.
pub open spec fn st(
    ord: Seq<usize>,
    low: Seq<usize>,
    on: Seq<bool>,
    tstack: Seq<usize>,
    out: Seq<usize>,
    order: usize,
    vis: Set<int>,
    rem: Set<int>,
    stack: Seq<(usize, usize)>,
) -> TState {
    TState { ord, low, on, tstack, out, order: order as int, vis, rem, stack }
}

/// The boundaries pushed so far rise strictly from zero to `len`.
pub open spec fn rising(bounds: Seq<int>, len: int) -> bool {
    &&& bounds.len() >= 1
    &&& bounds[0] == 0
    &&& bounds[bounds.len() - 1] == len
    &&& forall|a: int, b: int| 0 <= a < b < bounds.len() ==> #[trigger] bounds[a] < #[trigger] bounds[b]
}

/// Finds the strongly connected components of `csr` by Tarjan's algorithm, with an
/// explicit search stack. Components are listed in the order in which they are completed.
pub fn tarjan_scc<Idx: Index, W, C: CSR<Idx, W>>(csr: &C) -> (r: SCC<Idx>)
    requires
        csr.csr_wf(),
        csr.spec_len() <= Idx::spec_max(),
    ensures
        r.is_partition_of(csr.spec_len()),
{
    proof {
        csr.lemma_targets();
    }
    let n = csr.max_index() + 1;
    let mut ord: Vec<usize> = Vec::new();
    let mut low: Vec<usize> = Vec::new();
    let mut on: Vec<bool> = Vec::new();
    let mut q: usize = 0;
    while q < n
        invariant
            q <= n,
            ord@ == Seq::new(q as nat, |j: int| n),
            low@ == Seq::new(q as nat, |j: int| n),
            on@ == Seq::new(q as nat, |j: int| false),
        decreases n - q,
    {
        ord.push(n);
        low.push(n);
        on.push(false);
        q += 1;
    }
    let mut stack: Vec<(usize, usize)> = Vec::new();
    let mut tstack: Vec<usize> = Vec::new();
    let mut scc: Vec<Idx> = Vec::new();
    let mut partition: Vec<Idx> = Vec::new();
    partition.push(Idx::from_usize(0));
    let mut order: usize = 0;
    let ghost mut out: Seq<usize> = Seq::empty();
    let ghost mut vis: Set<int> = Set::empty();
    let ghost mut rem: Set<int> = Set::empty();
    proof {
        let s0 = st(ord@, low@, on@, tstack@, out, order, vis, rem, stack@);
        assert(ts_sets(s0, n as int));
        assert(ts_tstack(s0, 0, n as int));
        assert(ts_out(s0, n as int));
        assert(ts_stack(s0, 0, n as int));
        assert(nums(partition@) =~= seq![0int]);
    }
    let mut i: usize = 0;
    while i < n
        invariant
            csr.csr_wf(),
            n == csr.spec_len(),
            n <= Idx::spec_max(),
            forall|s: int, k: int| 0 <= s < n && 0 <= k < csr.spec_out(s).len()
                ==> 0 <= (#[trigger] csr.spec_out(s)[k]).0.spec_usize() < n,
            i <= n,
            stack@.len() == 0,
            tstack@.len() == 0,
            forall|v: int| 0 <= v < n ==> !#[trigger] on@[v],
            ts_sets(st(ord@, low@, on@, tstack@, out, order, vis, rem, stack@), n as int),
            ts_out(st(ord@, low@, on@, tstack@, out, order, vis, rem, stack@), n as int),
            forall|v: int| 0 <= v < i ==> #[trigger] vis.contains(v),
            nums(scc@) == ints(out),
            rising(nums(partition@), out.len() as int),
        decreases n - i,
    {
        if ord[i] != n {
            proof {
                assert(vis.contains(i as int));
            }
            i += 1;
            continue;
        }
        stack.push((i, n));
        proof {
            let s1 = st(ord@, low@, on@, tstack@, out, order, vis, rem, stack@);
            assert(!vis.contains(i as int));
            assert forall|v: int| #[trigger] s1.vis.contains(v) && s1.ord[i as int] <= s1.ord[v] implies s1.ord[i as int] <= s1.low[v] by {
                assert(s1.ord[v] < s1.order);
            }
            assert forall|j: int| 0 <= j < s1.stack.len() implies (#[trigger] s1.stack[j]).0 < n
                && (s1.vis.contains(s1.stack[j].0 as int) ==> s1.ord[i as int] <= s1.ord[s1.stack[j].0 as int])
                && (j == 0 ==> s1.stack[j].0 == i && s1.stack[j].1 == n)
                && (j > 0 ==> s1.stack[j].1 < n && s1.vis.contains(s1.stack[j].1 as int) && s1.ord[i as int] <= s1.ord[s1.stack[j].1 as int]
                    && s1.stack[j].0 != i) by {
            }
            assert(ts_stack(s1, i as int, n as int));
            assert(ts_tstack(s1, i as int, n as int));
            assert(ts_sets(s1, n as int));
            assert(ts_out(s1, n as int));
        }
        while stack.len() > 0
            invariant
                csr.csr_wf(),
                n == csr.spec_len(),
                n <= Idx::spec_max(),
                forall|s: int, k: int| 0 <= s < n && 0 <= k < csr.spec_out(s).len()
                    ==> 0 <= (#[trigger] csr.spec_out(s)[k]).0.spec_usize() < n,
                i < n,
                ts_ok(st(ord@, low@, on@, tstack@, out, order, vis, rem, stack@), i as int, n as int),
                forall|v: int| 0 <= v < i ==> #[trigger] vis.contains(v),
                stack@.len() == 0 ==> vis.contains(i as int),
                nums(scc@) == ints(out),
                rising(nums(partition@), out.len() as int),
            decreases n - order, stack@.len(),
        {
            let ghost s = st(ord@, low@, on@, tstack@, out, order, vis, rem, stack@);
            let t = stack.len() - 1;
            let (v, pv) = stack[t];
            proof {
                assert(stack@.last() == stack@[t as int]);
                assert(ts_stack(s, i as int, n as int));
                assert(v < n);
                assert(ts_sets(s, n as int));
                lemma_vis_bound(vis, n as int);
            }
            if ord[v] == n {
                proof {
                    lemma_visit(s, i as int, n as int);
                }
                ord.set(v, order);
                low.set(v, order);
                on.set(v, true);
                tstack.push(v);
                proof {
                    vis = vis.insert(v as int);
                }
                order += 1;
                proof {
                    Idx::lemma_from(v as int);
                }
                let nb = csr.target(Idx::from_usize(v));
                let ghost len0 = stack@.len();
                let mut k: usize = 0;
                while k < nb.len()
                    invariant
                        csr.csr_wf(),
                        n == csr.spec_len(),
                        forall|s: int, k: int| 0 <= s < n && 0 <= k < csr.spec_out(s).len()
                            ==> 0 <= (#[trigger] csr.spec_out(s)[k]).0.spec_usize() < n,
                        v < n,
                        i < n,
                        nb@ == csr.spec_out(v as int),
                        ts_ok(st(ord@, low@, on@, tstack@, out, order, vis, rem, stack@), i as int, n as int),
                        on@[v as int],
                        vis.contains(i as int),
                        stack@.len() >= len0 > 0,
                        k <= nb@.len(),
                    decreases nb@.len() - k,
                {
                    let ghost s3 = st(ord@, low@, on@, tstack@, out, order, vis, rem, stack@);
                    let j = nb[k].0.into_usize();
                    proof {
                        assert(0 <= csr.spec_out(v as int)[k as int].0.spec_usize() < n);
                        let s4 = if s3.ord[j as int] == n {
                            TState { stack: s3.stack.push((j, v)), ..s3 }
                        } else if s3.on[j as int] {
                            TState { low: s3.low.update(v as int, if s3.low[v as int] <= s3.low[j as int] { s3.low[v as int] } else { s3.low[j as int] }), ..s3 }
                        } else {
                            s3
                        };
                        lemma_child(s3, i as int, n as int, v as int, j as int, s4);
                    }
                    if ord[j] == n {
                        stack.push((j, v));
                    } else if on[j] {
                        let m = if low[v] <= low[j] { low[v] } else { low[j] };
                        low.set(v, m);
                    }
                    k += 1;
                }
            } else {
                let ghost s2 = TState {
                    low: if pv != n {
                        s.low.update(pv as int, if s.low[pv as int] <= s.low[v as int] { s.low[pv as int] } else { s.low[v as int] })
                    } else {
                        s.low
                    },
                    stack: s.stack.drop_last(),
                    ..s
                };
                proof {
                    lemma_finish(s, i as int, n as int, s2);
                }
                stack.pop();
                if pv != n {
                    let m = if low[pv] <= low[v] { low[pv] } else { low[v] };
                    low.set(pv, m);
                }
                proof {
                    assert(stack@ =~= s2.stack);
                    assert(low@ == s2.low);
                }
                if on[v] && low[v] == ord[v] {
                    let ghost t0 = tstack@;
                    let ghost c0 = out.len();
                    let ghost iv = choose|k: int| 0 <= k < t0.len() && #[trigger] t0[k] == v;
                    proof {
                        let s5 = st(ord@, low@, on@, tstack@, out, order, vis, rem, stack@);
                        assert(ts_tstack(s5, i as int, n as int));
                        assert(exists|k: int| 0 <= k < t0.len() && #[trigger] t0[k] == v);
                    }
                    let mut done = false;
                    while !done
                        invariant
                            n <= Idx::spec_max(),
                            v < n,
                            i < n,
                            ts_sets(st(ord@, low@, on@, tstack@, out, order, vis, rem, stack@), n as int),
                            ts_tstack(st(ord@, low@, on@, tstack@, out, order, vis, rem, stack@), i as int, n as int),
                            ts_out(st(ord@, low@, on@, tstack@, out, order, vis, rem, stack@), n as int),
                            stack@ == s2.stack,
                            vis == s.vis,
                            ord@ == s.ord,
                            0 <= iv < t0.len(),
                            t0[iv] == v,
                            tstack@ == t0.take(tstack@.len() as int),
                            tstack@.len() <= t0.len(),
                            !done ==> iv < tstack@.len() && on@[v as int],
                            done ==> tstack@.len() == iv,
                            nums(scc@) == ints(out),
                            c0 <= out.len(),
                            done ==> c0 < out.len(),
                            rising(nums(partition@), c0 as int),
                        decreases tstack@.len() + (if done { 0int } else { 1 }),
                    {
                        let ghost s6 = st(ord@, low@, on@, tstack@, out, order, vis, rem, stack@);
                        let ghost tb = tstack@;
                        proof {
                            assert(!done);
                            assert(iv < tstack@.len());
                            assert(tstack@ == t0.take(tstack@.len() as int));
                            assert(t0.take(tstack@.len() as int)[iv] == t0[iv]);
                            assert(tstack@[iv] == v);
                            assert(s6.tstack[iv] == v);
                            lemma_assign(s6, i as int, n as int, v as int);
                        }
                        let u = tstack.pop().unwrap();
                        proof {
                            Idx::lemma_from(u as int);
                        }
                        let ghost sb = scc@;
                        let x = Idx::from_usize(u);
                        scc.push(x);
                        on.set(u, false);
                        proof {
                            out = out.push(u);
                            rem = rem.insert(u as int);
                            let l = s6.tstack.len() - 1;
                            assert(u == s6.tstack[l]);
                            if u == v && iv != l {
                                assert(s6.ord[s6.tstack[iv] as int] < s6.ord[s6.tstack[l] as int]);
                            }
                            assert(tstack@ == tb.drop_last());
                            assert(tstack@ =~= t0.take(tstack@.len() as int));
                            assert(nums(sb) == ints(s6.out));
                            assert forall|k: int| 0 <= k < scc@.len() implies #[trigger] nums(scc@)[k]
                                == ints(out)[k] by {
                                assert(nums(sb).len() == ints(s6.out).len());
                                if k == sb.len() {
                                    assert(scc@[k] == x);
                                    assert(out[k] == u);
                                }
                                if k < sb.len() {
                                    assert(scc@[k] == sb[k]);
                                    assert(nums(sb)[k] == ints(s6.out)[k]);
                                }
                            }
                            assert(nums(sb).len() == ints(s6.out).len());
                            assert(scc@.len() == out.len());
                            assert(nums(scc@) =~= ints(out));
                        }
                        if u == v {
                            done = true;
                        }
                    }
                    proof {
                        let s8 = st(ord@, low@, on@, tstack@, out, order, vis, rem, stack@);
                        assert(ts_sets(s8, n as int));
                        assert forall|w: int| #[trigger] rem.contains(w) implies 0 <= w < n by {
                            assert(vis.contains(w));
                        }
                        lemma_vis_bound(rem, n as int);
                        assert(scc@.len() == out.len()) by {
                            assert(nums(scc@).len() == ints(out).len());
                        }
                        Idx::lemma_from(scc@.len() as int);
                    }
                    let ghost before = partition@;
                    partition.push(Idx::from_usize(scc.len()));
                    proof {
                        let bs = nums(partition@);
                        assert(bs =~= nums(before).push(out.len() as int));
                        let s7 = st(ord@, low@, on@, tstack@, out, order, vis, rem, stack@);
                        if v == i {
                            if iv != 0 {
                                assert(t0[0] == i);
                                assert(ts_tstack(s, i as int, n as int));
                                assert(s.ord[s.tstack[0] as int] < s.ord[s.tstack[iv] as int]);
                            }
                            assert(ts_stack(s7, i as int, n as int));
                        } else {
                            assert(iv != 0);
                            assert(tstack@[0] == t0[0]);
                            assert(s7.on[i as int]) by {
                                assert(tstack@.len() > 0);
                                assert(ts_tstack(s7, i as int, n as int));
                                assert(s7.tstack[0] < n && s7.on[s7.tstack[0] as int]);
                            }
                            assert forall|q: int| 0 <= q < s7.stack.len() implies (#[trigger] s7.stack[q]).0 < n
                                && (s7.vis.contains(s7.stack[q].0 as int) ==> s7.ord[i as int] <= s7.ord[s7.stack[q].0 as int])
                                && (q == 0 ==> s7.stack[q].0 == i && s7.stack[q].1 == n)
                                && (q > 0 ==> s7.stack[q].1 < n && s7.vis.contains(s7.stack[q].1 as int) && s7.ord[i as int] <= s7.ord[s7.stack[q].1 as int]
                                    && s7.stack[q].0 != i) by {
                                assert(s7.stack[q] == s.stack[q]);
                                assert(ts_stack(s, i as int, n as int));
                            }
                            assert(ts_stack(s7, i as int, n as int));
                        }
                    }
                }
            }
        }
        proof {
            let s9 = st(ord@, low@, on@, tstack@, out, order, vis, rem, stack@);
            assert(ts_stack(s9, i as int, n as int));
            assert(ts_tstack(s9, i as int, n as int));
            assert forall|v: int| 0 <= v < n implies !#[trigger] on@[v] by {
                if on@[v] {
                    let j = choose|j: int| 0 <= j < tstack@.len() && #[trigger] tstack@[j] == v;
                }
            }
        }
        i += 1;
    }
    proof {
        let s = st(ord@, low@, on@, tstack@, out, order, vis, rem, stack@);
        assert(ts_sets(s, n as int));
        assert(ts_out(s, n as int));
        lemma_int_range(0, n as int);
        assert(vis =~= set_int_range(0, n as int));
        assert(rem =~= vis) by {
            assert forall|v: int| vis.contains(v) implies rem.contains(v) by {
                if !rem.contains(v) {
                    assert(!on@[v]);
                }
            }
        }
        assert(out.len() == n);
    }
    let r = SCC { scc, partition };
    proof {
        let s = st(ord@, low@, on@, tstack@, out, order, vis, rem, stack@);
        let nodes = r.nodes();
        assert(nodes =~= ints(out));
        assert forall|v: int| 0 <= v < n implies #[trigger] nodes.contains(v) by {
            assert(rem.contains(v));
            let j = choose|j: int| 0 <= j < out.len() && #[trigger] out[j] == v;
            assert(nodes[j] == v);
        }
        assert forall|a: int, b: int| 0 <= a < b < nodes.len() implies nodes[a] != nodes[b] by {
            assert(out[a] != out[b]);
        }
        assert forall|j: int| 0 <= j < n implies 0 <= #[trigger] nodes[j] < n by {
            assert(out[j] < n);
        }
    }
    r
}

} // verus!
