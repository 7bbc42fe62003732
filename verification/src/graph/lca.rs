//! Lowest common ancestors in a tree, by binary lifting.

use vstd::prelude::*;
use vstd::arithmetic::power2::{pow2, lemma_pow2_pos, lemma_pow2_unfold, lemma_pow2_strictly_increases};
use vstd::set_lib::{set_int_range, lemma_int_range, lemma_len_subset, lemma_subset_equality};
use super::csr::{Index, CSR, UndirectedCSR};

verus! {

/// Following the parent links `par` `k` times from `v`.
pub open spec fn up(par: Seq<int>, v: int, k: nat) -> int
    decreases k,
{
    if k == 0 { v } else { up(par, par[v], (k - 1) as nat) }
}

/// `v` is `u` or an ancestor of `u`: following the parent links from `u` reaches `v`.
pub open spec fn is_ancestor(par: Seq<int>, v: int, u: int) -> bool {
    exists|k: nat| #[trigger] up(par, u, k) == v
}

/// The parent links of an array of parents.
pub open spec fn pars<Idx: Index>(parent: Seq<Idx>) -> Seq<int> {
    parent.map_values(|x: Idx| x.spec_usize())
}

proof fn lemma_anc_refl(par: Seq<int>, u: int)
    ensures
        is_ancestor(par, u, u),
{
    assert(up(par, u, 0) == u);
}

proof fn lemma_anc_parent(par: Seq<int>, u: int)
    ensures
        is_ancestor(par, par[u], u),
{
    assert(up(par, u, 1) == up(par, par[u], 0));
}

proof fn lemma_anc_trans(par: Seq<int>, a: int, b: int, c: int)
    requires
        is_ancestor(par, a, b),
        is_ancestor(par, b, c),
    ensures
        is_ancestor(par, a, c),
{
    let k1 = choose|k: nat| #[trigger] up(par, b, k) == a;
    let k2 = choose|k: nat| #[trigger] up(par, c, k) == b;
    lemma_up_add(par, c, k2, k1);
    assert(up(par, c, k2 + k1) == a);
}

/// Parent links changed only outside a set closed under them leave the walks up from it alone.
proof fn lemma_up_frame(par1: Seq<int>, par2: Seq<int>, s: Set<int>, u: int, k: nat)
    requires
        s.contains(u),
        forall|x: int| #[trigger] s.contains(x) ==> s.contains(par1[x]) && par2[x] == par1[x],
    ensures
        up(par2, u, k) == up(par1, u, k),
    decreases k,
{
    if k > 0 {
        lemma_up_frame(par1, par2, s, par1[u], (k - 1) as nat);
    }
}

proof fn lemma_anc_frame(par1: Seq<int>, par2: Seq<int>, s: Set<int>, v: int, u: int)
    requires
        s.contains(u),
        forall|x: int| #[trigger] s.contains(x) ==> s.contains(par1[x]) && par2[x] == par1[x],
        is_ancestor(par1, v, u),
    ensures
        is_ancestor(par2, v, u),
{
    let k = choose|k: nat| #[trigger] up(par1, u, k) == v;
    lemma_up_frame(par1, par2, s, u, k);
    assert(up(par2, u, k) == v);
}

/// Along the parent links, an ancestor comes earlier in `order` when each parent does.
proof fn lemma_anc_order(par: Seq<int>, order: Seq<int>, root: int, v: int, u: int, k: nat)
    requires
        0 <= u < par.len(),
        par.len() == order.len(),
        par[root] == root,
        forall|x: int| 0 <= x < par.len() ==> 0 <= #[trigger] par[x] < par.len(),
        forall|w: int| 0 <= w < par.len() && w != root ==> order[#[trigger] par[w]] < order[w],
        up(par, u, k) == v,
        v != u,
    ensures
        order[v] < order[u],
    decreases k,
{
    if k > 0 {
        let p = par[u];
        if u == root {
            lemma_up_fixed(par, root, k);
        } else if p == v {
            assert(up(par, p, (k - 1) as nat) == v);
        } else {
            lemma_anc_order(par, order, root, v, p, (k - 1) as nat);
        }
    }
}

proof fn lemma_up_fixed(par: Seq<int>, root: int, k: nat)
    requires
        0 <= root < par.len(),
        par[root] == root,
    ensures
        up(par, root, k) == root,
    decreases k,
{
    if k > 0 {
        lemma_up_fixed(par, root, (k - 1) as nat);
    }
}

/// `par` and `dep` describe a tree rooted at `root`: the root is its own parent, and every
/// other node is one deeper than its parent.
pub open spec fn rooted(par: Seq<int>, dep: Seq<int>, root: int) -> bool {
    &&& par.len() == dep.len()
    &&& 0 <= root < par.len()
    &&& par[root] == root
    &&& dep[root] == 0
    &&& forall|v: int| 0 <= v < par.len() ==> 0 <= #[trigger] par[v] < par.len()
    &&& forall|v: int| 0 <= v < par.len() ==> 0 <= #[trigger] dep[v] < par.len()
    &&& forall|v: int| 0 <= v < par.len() && v != root ==> dep[v] == dep[#[trigger] par[v]] + 1
}

/// `r` is the deepest node that is an ancestor (or the node itself) of both `i` and `j`.
pub open spec fn is_lca(par: Seq<int>, dep: Seq<int>, i: int, j: int, r: int) -> bool {
    &&& 0 <= r < par.len()
    &&& dep[r] <= dep[i] && dep[r] <= dep[j]
    &&& up(par, i, (dep[i] - dep[r]) as nat) == r
    &&& up(par, j, (dep[j] - dep[r]) as nat) == r
    &&& forall|a: nat, b: nat| #[trigger] up(par, i, a) == #[trigger] up(par, j, b) ==> dep[up(par, i, a)] <= dep[r]
}

proof fn lemma_up_add(par: Seq<int>, v: int, a: nat, b: nat)
    ensures
        up(par, v, a + b) == up(par, up(par, v, a), b),
    decreases a,
{
    if a > 0 {
        lemma_up_add(par, par[v], (a - 1) as nat, b);
        assert((a + b - 1) as nat == (a - 1) as nat + b);
    }
}

proof fn lemma_up_range(par: Seq<int>, dep: Seq<int>, root: int, v: int, k: nat)
    requires
        rooted(par, dep, root),
        0 <= v < par.len(),
    ensures
        0 <= up(par, v, k) < par.len(),
    decreases k,
{
    if k > 0 {
        lemma_up_range(par, dep, root, par[v], (k - 1) as nat);
    }
}

/// Going up `k` levels, at most the depth, lowers the depth by `k`.
proof fn lemma_up_depth(par: Seq<int>, dep: Seq<int>, root: int, v: int, k: nat)
    requires
        rooted(par, dep, root),
        0 <= v < par.len(),
        k <= dep[v],
    ensures
        0 <= up(par, v, k) < par.len(),
        dep[up(par, v, k)] == dep[v] - k,
    decreases k,
{
    if k > 0 {
        assert(v != root);
        assert(dep[v] == dep[par[v]] + 1);
        lemma_up_depth(par, dep, root, par[v], (k - 1) as nat);
    }
}

proof fn lemma_up_from_root(par: Seq<int>, dep: Seq<int>, root: int, k: nat)
    requires
        rooted(par, dep, root),
    ensures
        up(par, root, k) == root,
    decreases k,
{
    if k > 0 {
        lemma_up_from_root(par, dep, root, (k - 1) as nat);
    }
}

/// Going up at least the depth reaches the root.
proof fn lemma_up_root(par: Seq<int>, dep: Seq<int>, root: int, v: int, k: nat)
    requires
        rooted(par, dep, root),
        0 <= v < par.len(),
        k >= dep[v],
    ensures
        up(par, v, k) == root,
{
    lemma_up_depth(par, dep, root, v, dep[v] as nat);
    let w = up(par, v, dep[v] as nat);
    if w != root {
        assert(dep[w] == dep[par[w]] + 1);
    }
    lemma_up_add(par, v, dep[v] as nat, (k - dep[v]) as nat);
    lemma_up_from_root(par, dep, root, (k - dep[v]) as nat);
}

/// The ancestor of `v` at depth `t`, reached through an ancestor `c` no shallower than `t`.
proof fn lemma_up_through(par: Seq<int>, dep: Seq<int>, root: int, v: int, x: nat, t: int)
    requires
        rooted(par, dep, root),
        0 <= v < par.len(),
        x <= dep[v],
        0 <= t <= dep[up(par, v, x)],
    ensures
        up(par, up(par, v, x), (dep[up(par, v, x)] - t) as nat) == up(par, v, (dep[v] - t) as nat),
{
    lemma_up_depth(par, dep, root, v, x);
    lemma_up_add(par, v, x, (dep[up(par, v, x)] - t) as nat);
    assert(x + (dep[up(par, v, x)] - t) as nat == (dep[v] - t) as nat);
}

/// Common ancestors of `i` and `j` are no deeper than `t` when the ancestors of `i` and `j`
/// at depth `t` differ.
proof fn lemma_common_above(par: Seq<int>, dep: Seq<int>, root: int, i: int, j: int, t: int, a: nat, b: nat)
    requires
        rooted(par, dep, root),
        0 <= i < par.len(),
        0 <= j < par.len(),
        0 <= t <= dep[i],
        t <= dep[j],
        up(par, i, (dep[i] - t) as nat) != up(par, j, (dep[j] - t) as nat),
        up(par, i, a) == up(par, j, b),
    ensures
        dep[up(par, i, a)] < t,
{
    let c = up(par, i, a);
    if a > dep[i] {
        lemma_up_root(par, dep, root, i, a);
        if t == 0 {
            lemma_up_root(par, dep, root, i, dep[i] as nat);
            lemma_up_root(par, dep, root, j, dep[j] as nat);
        }
    } else if b > dep[j] {
        lemma_up_root(par, dep, root, j, b);
        if t == 0 {
            lemma_up_root(par, dep, root, i, dep[i] as nat);
            lemma_up_root(par, dep, root, j, dep[j] as nat);
        }
    } else {
        lemma_up_depth(par, dep, root, i, a);
        if dep[c] >= t {
            lemma_up_through(par, dep, root, i, a, t);
            lemma_up_through(par, dep, root, j, b, t);
        }
    }
}

/// `v` is the target of one of the out-edges of `u`.
pub open spec fn adjacent<Idx: Index, W>(g: &UndirectedCSR<Idx, W>, u: int, v: int) -> bool {
    exists|k: int| 0 <= k < g.spec_out(u).len() && (#[trigger] g.spec_out(u)[k]).0.spec_usize() == v
}

/// `p` is a walk along the edges of `g`.
pub open spec fn is_walk<Idx: Index, W>(g: &UndirectedCSR<Idx, W>, p: Seq<int>) -> bool {
    &&& p.len() >= 1
    &&& forall|t: int| #![trigger p[t]] 0 <= t < p.len() - 1 ==> adjacent(g, p[t], p[t + 1])
}

/// Some walk leads from `s` to `t`.
pub open spec fn reachable<Idx: Index, W>(g: &UndirectedCSR<Idx, W>, s: int, t: int) -> bool {
    exists|p: Seq<int>| #[trigger] is_walk(g, p) && p[0] == s && p.last() == t
}

/// Every node of `g` is reachable from `root`.
pub open spec fn connected<Idx: Index, W>(g: &UndirectedCSR<Idx, W>, root: int) -> bool {
    forall|v: int| 0 <= v < g.spec_len() ==> #[trigger] reachable(g, root, v)
}

/// Each node but the root is joined to its parent by an edge of `g`.
pub open spec fn spans<Idx: Index, W>(g: &UndirectedCSR<Idx, W>, par: Seq<int>, root: int) -> bool {
    forall|v: int| 0 <= v < par.len() && v != root ==> adjacent(g, #[trigger] par[v], v)
}

/// A walk that stays in a set closed under the edges never leaves it.
proof fn lemma_walk_stays<Idx: Index, W>(g: &UndirectedCSR<Idx, W>, vis: Set<int>, p: Seq<int>, t: int)
    requires
        is_walk(g, p),
        vis.contains(p[0]),
        forall|x: int| vis.contains(x) ==> 0 <= x < g.spec_len(),
        forall|x: int, k: int| vis.contains(x) && 0 <= k < g.spec_out(x).len() ==> vis.contains(
            (#[trigger] g.spec_out(x)[k]).0.spec_usize()),
        0 <= t < p.len(),
    ensures
        vis.contains(p[t]),
    decreases t,
{
    if t > 0 {
        lemma_walk_stays(g, vis, p, t - 1);
        assert(adjacent(g, p[t - 1], p[t]));
        let k = choose|k: int| 0 <= k < g.spec_out(p[t - 1]).len() && (#[trigger] g.spec_out(p[t - 1])[k]).0.spec_usize() == p[t];
    }
}

/// Following the parents from `v` back to the root, read backwards, is a walk.
proof fn lemma_walk_down<Idx: Index, W>(g: &UndirectedCSR<Idx, W>, par: Seq<int>, dep: Seq<int>, root: int, v: int) -> (p: Seq<int>)
    requires
        rooted(par, dep, root),
        spans(g, par, root),
        0 <= v < par.len(),
    ensures
        is_walk(g, p),
        p[0] == root,
        p.last() == v,
    decreases dep[v],
{
    if v == root {
        seq![root]
    } else {
        assert(dep[v] == dep[par[v]] + 1);
        let q = lemma_walk_down(g, par, dep, root, par[v]);
        let p = q.push(v);
        assert(adjacent(g, par[v], v));
        assert forall|t: int| #![trigger p[t]] 0 <= t < p.len() - 1 implies adjacent(g, p[t], p[t + 1]) by {
            if t < q.len() - 1 {
                assert(p[t] == q[t] && p[t + 1] == q[t + 1]);
            } else {
                assert(p[t] == par[v] && p[t + 1] == v);
            }
        }
        p
    }
}

/// Ancestor tables of a rooted tree, answering lowest common ancestor queries.
pub struct LCA<Idx: Index> {
    /// `col` rows of `row` entries: row `k` holds the `2^k`-th ancestor of each node.
    ancestor: Vec<Idx>,
    row: usize,
    col: usize,
    depth: Vec<Idx>,
    dfs_order: Vec<Idx>,
    par: Ghost<Seq<int>>,
    root: Ghost<int>,
    /// The nodes in the order in which the search visited them.
    visit: Ghost<Seq<int>>,
}

/// Why a tree could not be built.
#[derive(Debug, PartialEq, Eq, Structural)]
pub enum BuildLCAError {
    /// The root is not a node of the graph.
    InvalidRoot,
    /// The graph is not a tree.
    NotTree,
}

/// Entry `v` of row `k` of a table with `row` entries per row.
pub open spec fn cell<Idx: Index>(table: Seq<Idx>, row: int, k: int, v: int) -> int {
    table[k * row + v].spec_usize()
}

proof fn lemma_cell_index(k: int, v: int, row: int, col: int)
    requires
        0 <= k < col,
        0 <= v < row,
    ensures
        0 <= k * row + v < col * row,
        k * row + v < (k + 1) * row,
        (k + 1) * row <= col * row,
{
    assert(0 <= k * row + v < col * row) by (nonlinear_arith)
        requires
            0 <= k < col,
            0 <= v < row,
    ;
    assert((k + 1) * row <= col * row) by (nonlinear_arith)
        requires
            0 <= k < col,
            0 <= v < row,
    ;
    assert((k + 1) * row == k * row + row) by (nonlinear_arith);
}

impl<Idx: Index> LCA<Idx> {
    /// The parent of each node; the root is its own parent.
    pub closed spec fn parents(&self) -> Seq<int> {
        self.par@
    }

    /// The depth of each node.
    pub closed spec fn depths(&self) -> Seq<int> {
        self.depth@.map_values(|x: Idx| x.spec_usize())
    }

    /// The root of the tree.
    pub closed spec fn root(&self) -> int {
        self.root@
    }

    /// The position of each node in the order of the search that built the tree.
    pub closed spec fn order(&self) -> Seq<int> {
        self.dfs_order@.map_values(|x: Idx| x.spec_usize())
    }

    pub closed spec fn wf(&self) -> bool {
        let n = self.row as int;
        &&& rooted(self.par@, self.depths(), self.root@)
        &&& self.par@.len() == n
        &&& self.depth@.len() == n
        &&& self.dfs_order@.len() == n
        &&& n - 1 <= Idx::spec_max()
        &&& forall|v: int| 0 <= v < n ==> 0 <= #[trigger] self.order()[v] < n
        &&& 1 <= self.col
        &&& self.ancestor@.len() == self.col * n
        &&& self.ancestor@.len() <= usize::MAX
        &&& forall|k: int, v: int| 0 <= k < self.col && 0 <= v < n ==> #[trigger] cell(self.ancestor@, n, k, v)
            == up(self.par@, v, pow2(k as nat))
        &&& forall|v: int| 0 <= v < n ==> #[trigger] self.depths()[v] <= pow2((self.col - 1) as nat)
        &&& preorder(self.par@, self.order(), self.visit@, self.root@)
    }

    /// The number of nodes.
    pub closed spec fn spec_len(&self) -> nat {
        self.row as nat
    }

    /// The search that built the tree numbered its nodes in a depth-first preorder: the numbers
    /// are distinct, every node's descendants come after it, and the descendants of a node
    /// take up one contiguous run of numbers that starts at the node itself.
    pub proof fn lemma_order_is_preorder(&self)
        requires
            self.wf(),
        ensures
            forall|v: int, w: int| 0 <= v < self.spec_len() && 0 <= w < self.spec_len() && #[trigger] self.order()[v]
                == #[trigger] self.order()[w] ==> v == w,
            forall|v: int, u: int| 0 <= v < self.spec_len() && 0 <= u < self.spec_len() && #[trigger] is_ancestor(
                self.parents(), v, u) && v != u ==> self.order()[v] < self.order()[u],
            forall|v: int, u: int, w: int| 0 <= v < self.spec_len() && 0 <= u < self.spec_len() && 0 <= w < self.spec_len()
                && #[trigger] is_ancestor(self.parents(), v, u) && self.order()[v] <= #[trigger] self.order()[w] <= self.order()[u]
                ==> is_ancestor(self.parents(), v, w),
    {
        reveal(preorder);
        let par = self.par@;
        let ord = self.order();
        let vis = self.visit@;
        let root = self.root@;
        assert(rooted_shape(par, root));
        assert forall|v: int, w: int| 0 <= v < self.spec_len() && 0 <= w < self.spec_len() && #[trigger] ord[v]
            == #[trigger] ord[w] implies v == w by {
            assert(vis[ord[v]] == v && vis[ord[w]] == w);
        }
        assert forall|v: int, u: int| 0 <= v < self.spec_len() && 0 <= u < self.spec_len() && #[trigger] is_ancestor(
            par, v, u) && v != u implies ord[v] < ord[u] by {
            let k = choose|k: nat| #[trigger] up(par, u, k) == v;
            assert forall|w: int| 0 <= w < par.len() && w != root implies ord[#[trigger] par[w]] < ord[w] by {
                assert(1 <= ord[w]);
            }
            lemma_anc_order(par, ord, root, v, u, k);
        }
        assert forall|v: int, u: int, w: int| 0 <= v < self.spec_len() && 0 <= u < self.spec_len() && 0 <= w < self.spec_len()
            && #[trigger] is_ancestor(par, v, u) && ord[v] <= #[trigger] ord[w] <= ord[u] implies is_ancestor(par, v, w) by {
            lemma_preorder_between(par, ord, vis, root, v, u, w);
        }
    }

    proof fn lemma_depth_bound(&self, v: int)
        requires
            self.wf(),
            0 <= v < self.row,
        ensures
            0 <= self.depths()[v] < self.row,
            self.depths()[v] <= pow2((self.col - 1) as nat),
            up(self.par@, v, pow2(self.col as nat)) == self.root@,
    {
        lemma_pow2_unfold(self.col as nat);
        lemma_pow2_pos((self.col - 1) as nat);
        lemma_up_root(self.par@, self.depths(), self.root@, v, pow2(self.col as nat));
    }

    /// The lowest common ancestor of `i` and `j`.
    pub fn lca(&self, i: Idx, j: Idx) -> (r: Idx)
        requires
            self.wf(),
            i.spec_usize() < self.spec_len(),
            j.spec_usize() < self.spec_len(),
        ensures
            is_lca(self.parents(), self.depths(), i.spec_usize(), j.spec_usize(), r.spec_usize()),
    {
        let ghost par = self.par@;
        let ghost dep = self.depths();
        let ghost root = self.root@;
        let i0 = i.into_usize();
        let j0 = j.into_usize();
        let r = if self.depth[i0].into_usize() < self.depth[j0].into_usize() {
            self.lca_ordered(j0, i0)
        } else {
            self.lca_ordered(i0, j0)
        };
        proof {
            if dep[i0 as int] < dep[j0 as int] {
                assert forall|a: nat, b: nat| #[trigger] up(par, i0 as int, a) == #[trigger] up(par, j0 as int, b)
                    implies dep[up(par, i0 as int, a)] <= dep[r as int] by {
                    assert(up(par, j0 as int, b) == up(par, i0 as int, a));
                }
            }
        }
        Idx::from_usize(r)
    }

    /// The lowest common ancestor of `i` and `j`, where `i` is no shallower than `j`.
    fn lca_ordered(&self, i0: usize, j0: usize) -> (r: usize)
        requires
            self.wf(),
            i0 < self.row,
            j0 < self.row,
            self.depths()[j0 as int] <= self.depths()[i0 as int],
        ensures
            is_lca(self.parents(), self.depths(), i0 as int, j0 as int, r as int),
    {
        let ghost par = self.par@;
        let ghost dep = self.depths();
        let ghost root = self.root@;
        let n = self.row;
        proof {
            self.lemma_depth_bound(i0 as int);
            self.lemma_depth_bound(j0 as int);
        }
        let di = self.depth[i0].into_usize();
        let dj = self.depth[j0].into_usize();
        // bring `i` up to the depth of `j`
        let mut i = i0;
        let mut diff: u64 = (di - dj) as u64;
        let ghost total: nat = (di - dj) as nat;
        while diff > 0
            invariant
                self.wf(),
                n == self.row,
                par == self.par@,
                dep == self.depths(),
                root == self.root@,
                i0 < n,
                j0 < n,
                total == dep[i0 as int] - dep[j0 as int],
                total <= pow2((self.col - 1) as nat),
                diff <= total,
                i == up(par, i0 as int, (total - diff) as nat),
                0 <= i < n,
            decreases diff,
        {
            let lz = diff.trailing_zeros();
            proof {
                vstd::std_specs::bits::axiom_u64_trailing_zeros(diff);
                let z = lz as u64;
                assert(z < 64);
                assert((diff >> z) & 1u64 == 1u64);
                assert(((diff >> z) & 1u64 == 1u64 && z < 64) ==> (1u64 << z) <= diff && (diff ^ (1u64 << z)) == diff - (1u64 << z)) by (bit_vector);
                vstd::bits::lemma_u64_pow2_no_overflow(z as nat);
                vstd::bits::lemma_u64_shl_is_mul(1, z);
                if lz as int > self.col - 1 {
                    lemma_pow2_strictly_increases((self.col - 1) as nat, z as nat);
                }
                lemma_cell_index(lz as int, i as int, n as int, self.col as int);
                lemma_up_add(par, i0 as int, (total - diff) as nat, pow2(z as nat));
            }
            let step: u64 = 1u64 << lz;
            let ghost old_i = i as int;
            let ghost old_diff = diff;
            diff = diff ^ step;
            i = self.ancestor[lz as usize * n + i].into_usize();
            proof {
                assert(cell(self.ancestor@, n as int, lz as int, old_i) == up(par, old_i, pow2(lz as nat)));
                lemma_up_range(par, dep, root, old_i, pow2(lz as nat));
                assert((total - diff) as nat == (total - old_diff) as nat + pow2(lz as nat));
            }
        }
        proof {
            lemma_up_depth(par, dep, root, i0 as int, total);
        }
        if i == j0 {
            proof {
                assert forall|a: nat, b: nat| #[trigger] up(par, i0 as int, a) == #[trigger] up(par, j0 as int, b)
                    implies dep[up(par, i0 as int, a)] <= dep[i as int] by {
                    if b <= dep[j0 as int] {
                        lemma_up_depth(par, dep, root, j0 as int, b);
                    } else {
                        lemma_up_root(par, dep, root, j0 as int, b);
                    }
                }
                assert(up(par, j0 as int, 0) == j0);
            }
            return i;
        }
        // climb both while their ancestors differ
        let mut j = j0;
        let mut k = self.col;
        let ghost mut a: nat = 0;
        proof {
            self.lemma_depth_bound(i as int);
            self.lemma_depth_bound(j as int);
        }
        while k > 0
            invariant
                self.wf(),
                n == self.row,
                par == self.par@,
                dep == self.depths(),
                root == self.root@,
                i0 < n,
                j0 < n,
                0 <= i < n,
                0 <= j < n,
                k <= self.col,
                i != j,
                dep[i as int] == dep[j as int],
                a <= dep[j0 as int],
                i == up(par, i0 as int, (total + a) as nat),
                j == up(par, j0 as int, a),
                dep[j as int] == dep[j0 as int] - a,
                up(par, i as int, pow2(k as nat)) == up(par, j as int, pow2(k as nat)),
            decreases k,
        {
            k -= 1;
            proof {
                lemma_cell_index(k as int, i as int, n as int, self.col as int);
                lemma_cell_index(k as int, j as int, n as int, self.col as int);
            }
            let ai = self.ancestor[k * n + i].into_usize();
            let aj = self.ancestor[k * n + j].into_usize();
            proof {
                assert(cell(self.ancestor@, n as int, k as int, i as int) == up(par, i as int, pow2(k as nat)));
                assert(cell(self.ancestor@, n as int, k as int, j as int) == up(par, j as int, pow2(k as nat)));
                lemma_up_range(par, dep, root, i as int, pow2(k as nat));
                lemma_up_range(par, dep, root, j as int, pow2(k as nat));
            }
            if ai != aj {
                proof {
                    lemma_pow2_unfold((k + 1) as nat);
                    lemma_pow2_pos(k as nat);
                    lemma_up_add(par, i as int, pow2(k as nat), pow2(k as nat));
                    lemma_up_add(par, j as int, pow2(k as nat), pow2(k as nat));
                    lemma_up_add(par, i0 as int, (total + a) as nat, pow2(k as nat));
                    lemma_up_add(par, j0 as int, a, pow2(k as nat));
                    // both are below their common ancestor, so not the root
                    if pow2(k as nat) > dep[i as int] {
                        lemma_up_root(par, dep, root, i as int, pow2(k as nat));
                        lemma_up_root(par, dep, root, j as int, pow2(k as nat));
                    }
                    lemma_up_depth(par, dep, root, i as int, pow2(k as nat));
                    lemma_up_depth(par, dep, root, j as int, pow2(k as nat));
                    a = a + pow2(k as nat);
                    lemma_up_depth(par, dep, root, j0 as int, a);
                }
                i = ai;
                j = aj;
            }
        }
        proof {
            assert(pow2(0) == 1) by {
                vstd::arithmetic::power2::lemma2_to64();
            }
            assert(up(par, par[i as int], 0) == par[i as int]);
            assert(up(par, par[j as int], 0) == par[j as int]);
            assert(up(par, i as int, 1) == par[i as int]);
            assert(up(par, j as int, 1) == par[j as int]);
            lemma_cell_index(0, i as int, n as int, self.col as int);
            assert(cell(self.ancestor@, n as int, 0, i as int) == up(par, i as int, pow2(0)));
            // `i` and `j` are not the root, as they differ at one depth
            if i as int == root || j as int == root {
                assert(dep[root] == 0);
                lemma_up_root(par, dep, root, i as int, dep[i as int] as nat);
                lemma_up_root(par, dep, root, j as int, dep[j as int] as nat);
                assert(up(par, i as int, 0) == i);
                assert(up(par, j as int, 0) == j);
            }
        }
        let r = self.ancestor[i].into_usize();
        proof {
            let p = r as int;
            assert(p == par[i as int]);
            assert(dep[i as int] == dep[p] + 1);
            lemma_up_depth(par, dep, root, i0 as int, (total + a) as nat);
            lemma_up_add(par, i0 as int, (total + a) as nat, 1);
            lemma_up_add(par, j0 as int, a, 1);
            assert((dep[i0 as int] - dep[p]) as nat == (total + a) as nat + 1);
            assert((dep[j0 as int] - dep[p]) as nat == a + 1);
            assert forall|x: nat, y: nat| #[trigger] up(par, i0 as int, x) == #[trigger] up(par, j0 as int, y)
                implies dep[up(par, i0 as int, x)] <= dep[p] by {
                assert(up(par, i0 as int, (dep[i0 as int] - dep[i as int]) as nat) == i);
                assert(up(par, j0 as int, (dep[j0 as int] - dep[j as int]) as nat) == j);
                lemma_common_above(par, dep, root, i0 as int, j0 as int, dep[i as int], x, y);
            }
        }
        r
    }
}

/// The visiting order so far: `seqp` lists the `cnt` visited (`popped`) nodes in turn, each
/// node's position in it is its `order`, the root comes first, and every other visited node
/// comes after its parent, right after a node below (or at) its parent.
#[verifier::opaque]
pub open spec fn order_ok<Idx: Index>(parent: Seq<Idx>, order: Seq<Idx>, popped: Set<int>, seqp: Seq<int>, root: int, cnt: int) -> bool {
    &&& seqp.len() == cnt
    &&& forall|k: int| 0 <= k < cnt ==> popped.contains(#[trigger] seqp[k]) && order[seqp[k]].spec_usize() == k
    &&& forall|v: int| #![trigger order[v]] popped.contains(v) ==> order[v].spec_usize() < cnt && seqp[order[v].spec_usize()] == v
    &&& forall|w: int| #![trigger order[w]] popped.contains(w) && w != root ==> 1 <= order[w].spec_usize()
        && order[parent[w].spec_usize()].spec_usize() < order[w].spec_usize()
        && is_ancestor(pars(parent), parent[w].spec_usize(), seqp[order[w].spec_usize() - 1])
    &&& cnt > 0 ==> seqp[0] == root
}

/// Up the stack, the parents of the stacked nodes go down a path of the tree.
#[verifier::opaque]
pub open spec fn chain_ok<Idx: Index>(parent: Seq<Idx>, stack: Seq<usize>) -> bool {
    forall|a: int, b: int| #![trigger stack[a], stack[b]] 0 <= a <= b < stack.len() ==> is_ancestor(pars(parent),
        parent[stack[a] as int].spec_usize(), parent[stack[b] as int].spec_usize())
}

/// The parents of the stacked nodes are all above (or at) `s`.
#[verifier::opaque]
pub open spec fn below_ok<Idx: Index>(parent: Seq<Idx>, stack: Seq<usize>, s: int) -> bool {
    forall|a: int| #![trigger stack[a]] 0 <= a < stack.len() ==> is_ancestor(pars(parent), parent[stack[a] as int].spec_usize(), s)
}

/// Visiting the top node `s` of the stack as the `cnt`-th keeps the order records.
proof fn lemma_pop_keeps_order<Idx: Index>(
    parent: Seq<Idx>,
    order_old: Seq<Idx>,
    order: Seq<Idx>,
    popped: Set<int>,
    seqp: Seq<int>,
    before: Seq<usize>,
    stack: Seq<usize>,
    s: int,
    root: int,
    cnt: int,
)
    requires
        order_ok(parent, order_old, popped, seqp, root, cnt),
        chain_ok(parent, before),
        before == stack.push(s as usize),
        0 <= s <= usize::MAX,
        0 <= s < parent.len(),
        0 <= root < parent.len(),
        root <= usize::MAX,
        order_old.len() == parent.len(),
        parent[root].spec_usize() == root,
        cnt == 0 ==> before == seq![root as usize],
        cnt > 0 ==> is_ancestor(pars(parent), parent[s].spec_usize(), seqp[cnt - 1]),
        !popped.contains(s),
        forall|w: int| #![trigger parent[w]] (popped.contains(w) || w == s) && w != root ==> popped.contains(parent[w].spec_usize()),
        forall|v: int| popped.contains(v) ==> 0 <= v < parent.len() && order_old[v].spec_usize() < cnt,
        order == order_old.update(s, order[s]),
        order[s].spec_usize() == cnt,
    ensures
        order_ok(parent, order, popped.insert(s), seqp.push(s), root, cnt + 1),
        chain_ok(parent, stack),
        below_ok(parent, stack, s),
{
    reveal(order_ok);
    reveal(chain_ok);
    reveal(below_ok);
    let pv = pars(parent);
    let sq = seqp.push(s);
    assert(before[before.len() - 1] == s as usize);
    assert(pv[s] == parent[s].spec_usize());
    lemma_anc_parent(pv, s);
    assert forall|a: int| #![trigger stack[a]] 0 <= a < stack.len() implies is_ancestor(pv, parent[stack[a] as int].spec_usize(), s) by {
        assert(stack[a] == before[a]);
        let b = before.len() - 1;
        assert(is_ancestor(pv, parent[before[a] as int].spec_usize(), parent[before[b] as int].spec_usize()));
        lemma_anc_trans(pv, parent[before[a] as int].spec_usize(), pv[s], s);
    }
    assert forall|a: int, b: int| #![trigger stack[a], stack[b]] 0 <= a <= b < stack.len() implies is_ancestor(pv,
        parent[stack[a] as int].spec_usize(), parent[stack[b] as int].spec_usize()) by {
        assert(stack[a] == before[a] && stack[b] == before[b]);
    }
    assert forall|k: int| 0 <= k < cnt + 1 implies popped.insert(s).contains(#[trigger] sq[k]) && order[sq[k]].spec_usize() == k by {
        if k < cnt {
            assert(sq[k] == seqp[k]);
            assert(sq[k] != s);
        }
    }
    assert forall|v: int| #![trigger order[v]] popped.insert(s).contains(v) implies order[v].spec_usize() < cnt + 1 && sq[order[v].spec_usize()] == v by {
        if v != s {
            assert(order[v] == order_old[v]);
            assert(order_old[v].spec_usize() < cnt);
            order_old[v].lemma_index();
            assert(sq[order_old[v].spec_usize()] == seqp[order_old[v].spec_usize()]);
        }
    }
    assert forall|w: int| #![trigger order[w]] popped.insert(s).contains(w) && w != root implies 1 <= order[w].spec_usize()
        && order[parent[w].spec_usize()].spec_usize() < order[w].spec_usize()
        && is_ancestor(pv, parent[w].spec_usize(), sq[order[w].spec_usize() - 1]) by {
        assert(parent[w] == parent[w]);
        if w == s {
            let pw = parent[w].spec_usize();
            assert(popped.contains(pw));
            assert(order[pw] == order_old[pw]);
            assert(cnt > 0) by {
                if cnt == 0 {
                    assert(before.len() == 1);
                    assert(before[0] == root as usize);
                    assert(before[before.len() - 1] == s as usize);
                    assert(s == root);
                }
            }
            assert(sq[cnt - 1] == seqp[cnt - 1]);
        } else {
            let pw = parent[w].spec_usize();
            assert(order_old[w].spec_usize() >= 1);
            assert(order[w] == order_old[w]);
            assert(pw != s);
            assert(order[pw] == order_old[pw]);
            assert(order_old[w].spec_usize() < cnt);
            assert(sq[order_old[w].spec_usize() - 1] == seqp[order_old[w].spec_usize() - 1]);
        }
    }
}

/// Giving the unreached node `tv` the parent `s` and pushing it keeps the records.
proof fn lemma_push_keeps_order<Idx: Index>(
    parent_old: Seq<Idx>,
    parent: Seq<Idx>,
    order: Seq<Idx>,
    vis_old: Set<int>,
    popped: Set<int>,
    seqp: Seq<int>,
    bst: Seq<usize>,
    s: int,
    tv: int,
    root: int,
    cnt: int,
)
    requires
        order_ok(parent_old, order, popped, seqp, root, cnt),
        chain_ok(parent_old, bst),
        below_ok(parent_old, bst, s),
        popped.subset_of(vis_old),
        vis_old.contains(s),
        vis_old.contains(root),
        0 <= tv < parent_old.len(),
        tv <= usize::MAX,
        !vis_old.contains(tv),
        parent == parent_old.update(tv, parent[tv]),
        parent[tv].spec_usize() == s,
        parent_old[root].spec_usize() == root,
        forall|x: int| vis_old.contains(x) ==> 0 <= x < parent_old.len(),
        forall|x: int| #![trigger parent_old[x]] vis_old.contains(x) && x != root ==> popped.contains(parent_old[x].spec_usize()),
        forall|v: int| #[trigger] holds(bst, v) ==> vis_old.contains(v),
    ensures
        order_ok(parent, order, popped, seqp, root, cnt),
        chain_ok(parent, bst.push(tv as usize)),
        below_ok(parent, bst.push(tv as usize), s),
{
    reveal(order_ok);
    reveal(chain_ok);
    reveal(below_ok);
    let p_old = pars(parent_old);
    let p_new = pars(parent);
    let st = bst.push(tv as usize);
    assert forall|x: int| #[trigger] vis_old.contains(x) implies vis_old.contains(p_old[x]) && p_new[x] == p_old[x] by {
        assert(parent_old[x] == parent_old[x]);
        assert(parent[x] == parent_old[x]);
    }
    assert forall|a: int| 0 <= a < bst.len() implies vis_old.contains(#[trigger] bst[a] as int) by {
        assert(holds(bst, bst[a] as int));
    }
    lemma_anc_refl(p_new, s);
    assert(p_new[tv] == s);
    assert forall|w: int| #![trigger order[w]] popped.contains(w) && w != root implies 1 <= order[w].spec_usize()
        && order[parent[w].spec_usize()].spec_usize() < order[w].spec_usize()
        && is_ancestor(p_new, parent[w].spec_usize(), seqp[order[w].spec_usize() - 1]) by {
        assert(vis_old.contains(w));
        assert(parent[w] == parent_old[w]);
        let q = seqp[order[w].spec_usize() - 1];
        assert(popped.contains(q));
        lemma_anc_frame(p_old, p_new, vis_old, p_old[w], q);
    }
    assert forall|a: int| #![trigger st[a]] 0 <= a < st.len() implies is_ancestor(p_new, parent[st[a] as int].spec_usize(), s) by {
        if a < bst.len() {
            assert(st[a] == bst[a]);
            assert(vis_old.contains(bst[a] as int));
            assert(parent[bst[a] as int] == parent_old[bst[a] as int]);
            lemma_anc_frame(p_old, p_new, vis_old, p_old[bst[a] as int], s);
        } else {
            assert(st[a] as int == tv);
        }
    }
    assert forall|a: int, b: int| #![trigger st[a], st[b]] 0 <= a <= b < st.len() implies is_ancestor(p_new,
        parent[st[a] as int].spec_usize(), parent[st[b] as int].spec_usize()) by {
        if b < bst.len() {
            assert(st[a] == bst[a] && st[b] == bst[b]);
            assert(vis_old.contains(bst[b] as int) && vis_old.contains(bst[a] as int));
            assert(parent[bst[a] as int] == parent_old[bst[a] as int]);
            assert(parent[bst[b] as int] == parent_old[bst[b] as int]);
            let pb = p_old[bst[b] as int];
            assert(is_ancestor(p_old, p_old[bst[a] as int], pb));
            lemma_anc_frame(p_old, p_new, vis_old, p_old[bst[a] as int], pb);
        } else {
            assert(st[b] as int == tv);
            assert(is_ancestor(p_new, parent[st[a] as int].spec_usize(), s));
        }
    }
}

proof fn lemma_below_top<Idx: Index>(parent: Seq<Idx>, stack: Seq<usize>, s: int)
    requires
        below_ok(parent, stack, s),
        stack.len() > 0,
    ensures
        is_ancestor(pars(parent), parent[stack.last() as int].spec_usize(), s),
{
    reveal(below_ok);
    assert(stack.last() == stack[stack.len() - 1]);
}

/// `order` numbers the nodes of the tree `par` (rooted at `root`) in a depth-first preorder,
/// with `visit` its inverse: the root first, and every other node after its parent, right after
/// a node of its parent's subtree.
#[verifier::opaque]
pub open spec fn preorder(par: Seq<int>, order: Seq<int>, visit: Seq<int>, root: int) -> bool {
    let n = par.len();
    &&& order.len() == n
    &&& visit.len() == n
    &&& n > 0 ==> visit[0] == root
    &&& forall|k: int| 0 <= k < n ==> 0 <= #[trigger] visit[k] < n && order[visit[k]] == k
    &&& forall|x: int| 0 <= x < n ==> order[x] < n && #[trigger] visit[order[x]] == x
    &&& forall|x: int| 0 <= x < n && x != root ==> 1 <= #[trigger] order[x] && order[par[x]] < order[x]
        && is_ancestor(par, par[x], visit[order[x] - 1])
}

/// An ancestor of `u` other than `u` is an ancestor of its parent.
proof fn lemma_anc_step(par: Seq<int>, v: int, u: int)
    requires
        is_ancestor(par, v, u),
        v != u,
    ensures
        is_ancestor(par, v, par[u]),
{
    let k = choose|k: nat| #[trigger] up(par, u, k) == v;
    assert(k > 0);
    assert(up(par, par[u], (k - 1) as nat) == v);
}

/// In a preorder, the nodes numbered between a node and one of its descendants are descendants.
proof fn lemma_preorder_between(par: Seq<int>, order: Seq<int>, visit: Seq<int>, root: int, v: int, u: int, w: int)
    requires
        rooted_shape(par, root),
        preorder(par, order, visit, root),
        0 <= v < par.len(),
        0 <= u < par.len(),
        0 <= w < par.len(),
        is_ancestor(par, v, u),
        order[v] <= order[w] <= order[u],
    ensures
        is_ancestor(par, v, w),
    decreases order[u] - order[w],
{
    reveal(preorder);
    if order[w] == order[u] {
        assert(visit[order[w]] == w && visit[order[u]] == u);
    } else {
        assert(u != v);
        if u == root {
            let k = choose|k: nat| #[trigger] up(par, u, k) == v;
            lemma_up_fixed(par, root, k);
        }
        assert(visit[order[u]] == u);
        let prev = visit[order[u] - 1];
        assert(order[prev] == order[u] - 1);
        lemma_anc_step(par, v, u);
        lemma_anc_trans(par, v, par[u], prev);
        lemma_preorder_between(par, order, visit, root, v, prev, w);
    }
}

/// The parent links form a tree shape rooted at `root`: every link is a node, and the root
/// links to itself.
pub open spec fn rooted_shape(par: Seq<int>, root: int) -> bool {
    &&& 0 <= root < par.len()
    &&& par[root] == root
    &&& forall|x: int| 0 <= x < par.len() ==> 0 <= #[trigger] par[x] < par.len()
}

/// `v` is on the stack `s`.
spec fn holds(s: Seq<usize>, v: int) -> bool {
    exists|a: int| 0 <= a < s.len() && s[a] as int == v
}

/// Depth-first search from `root`: each reached node's parent (the node count for the
/// others), depth and visiting time, the number of reached nodes, and the reached set.
#[verifier::spinoff_prover]
#[verifier::rlimit(100)]
fn search<Idx: Index, W>(g: &UndirectedCSR<Idx, W>, root: usize) -> (r: (Vec<Idx>, Vec<Idx>, Vec<Idx>, usize, Ghost<Set<int>>, Ghost<Seq<int>>))
    requires
        g.csr_wf(),
        g.spec_len() <= Idx::spec_max(),
        root < g.spec_len(),
    ensures
        ({
            let (parent, depth, order, cnt, vis, seqp) = r;
            let n = g.spec_len() as int;
            &&& parent@.len() == n && depth@.len() == n && order@.len() == n
            &&& vis@.finite() && vis@.len() == cnt && cnt <= n
            &&& vis@.contains(root as int)
            &&& forall|v: int| vis@.contains(v) ==> 0 <= v < n
            &&& forall|v: int| 0 <= v < n ==> (vis@.contains(v) <==> #[trigger] parent@[v].spec_usize() != n)
            &&& forall|x: int, k: int| vis@.contains(x) && 0 <= k < g.spec_out(x).len() ==> vis@.contains(
                (#[trigger] g.spec_out(x)[k]).0.spec_usize())
            &&& parent@[root as int].spec_usize() == root
            &&& depth@[root as int].spec_usize() == 0
            &&& forall|v: int| #![trigger parent@[v]] vis@.contains(v) && v != root ==> {
                let p = parent@[v].spec_usize();
                &&& vis@.contains(p)
                &&& adjacent(g, p, v)
                &&& depth@[v].spec_usize() == depth@[p].spec_usize() + 1
            }
            &&& forall|v: int| 0 <= v < n ==> #[trigger] order@[v].spec_usize() < n
            &&& forall|v: int| vis@.contains(v) ==> #[trigger] depth@[v].spec_usize() <= order@[v].spec_usize()
            &&& order_ok(parent@, order@, vis@, seqp@, root as int, cnt as int)
        }),
{
    proof {
        g.lemma_targets();
    }
    let n = g.max_index() + 1;
    let null = Idx::from_usize(n);
    let zero = Idx::from_usize(0);
    let mut parent: Vec<Idx> = Vec::new();
    let mut depth: Vec<Idx> = Vec::new();
    let mut order: Vec<Idx> = Vec::new();
    let mut i: usize = 0;
    while i < n
        invariant
            i <= n,
            n <= Idx::spec_max(),
            null.spec_usize() == n,
            zero.spec_usize() == 0,
            parent@.len() == i && depth@.len() == i && order@.len() == i,
            forall|v: int| 0 <= v < i ==> #[trigger] parent@[v] == null,
            forall|v: int| 0 <= v < i ==> #[trigger] depth@[v] == zero,
            forall|v: int| 0 <= v < i ==> #[trigger] order@[v] == zero,
        decreases n - i,
    {
        parent.push(null);
        depth.push(zero);
        order.push(zero);
        i += 1;
    }
    parent.set(root, Idx::from_usize(root));
    let mut stack: Vec<usize> = Vec::new();
    stack.push(root);
    let mut cnt: usize = 0;
    let ghost mut vis: Set<int> = set![root as int];
    let ghost mut popped: Set<int> = Set::empty();
    let ghost mut seqp: Seq<int> = Seq::empty();
    proof {
        reveal(order_ok);
        reveal(chain_ok);
        lemma_anc_refl(pars(parent@), root as int);
        assert(pars(parent@)[root as int] == root);
        assert(stack@ == seq![root]);
        assert(holds(stack@, root as int)) by {
            assert(stack@[0] == root);
        }
        assert forall|v: int| #[trigger] holds(stack@, v) implies v == root as int by {
            let a = choose|a: int| 0 <= a < stack@.len() && stack@[a] as int == v;
        }
        Idx::lemma_from(root as int);
        Idx::lemma_from(n as int);
    }
    while stack.len() > 0
        invariant
            n == g.spec_len(),
            g.csr_wf(),
            n <= Idx::spec_max(),
            root < n,
            parent@.len() == n && depth@.len() == n && order@.len() == n,
            vis.finite() && popped.finite(),
            popped.subset_of(vis),
            popped.len() == cnt,
            cnt <= n,
            vis.contains(root as int),
            forall|v: int| vis.contains(v) ==> 0 <= v < n,
            forall|v: int| 0 <= v < n ==> (vis.contains(v) <==> #[trigger] parent@[v].spec_usize() != n),
            stack@.no_duplicates(),
            forall|v: int| #[trigger] holds(stack@, v) ==> vis.contains(v) && !popped.contains(v),
            forall|v: int| #[trigger] vis.contains(v) && !popped.contains(v) ==> holds(stack@, v),
            forall|x: int, k: int| popped.contains(x) && 0 <= k < g.spec_out(x).len() ==> vis.contains(
                (#[trigger] g.spec_out(x)[k]).0.spec_usize()),
            parent@[root as int].spec_usize() == root,
            depth@[root as int].spec_usize() == 0,
            forall|v: int| #![trigger parent@[v]] vis.contains(v) && v != root ==> {
                let p = parent@[v].spec_usize();
                &&& popped.contains(p)
                &&& adjacent(g, p, v)
                &&& depth@[v].spec_usize() == depth@[p].spec_usize() + 1
            },
            forall|v: int| 0 <= v < n ==> #[trigger] order@[v].spec_usize() < n,
            forall|v: int| popped.contains(v) ==> #[trigger] depth@[v].spec_usize() <= order@[v].spec_usize() < cnt,
            forall|v: int| vis.contains(v) && !popped.contains(v) ==> #[trigger] depth@[v].spec_usize() <= cnt,
            order_ok(parent@, order@, popped, seqp, root as int, cnt as int),
            chain_ok(parent@, stack@),
            seqp.len() == cnt,
            cnt == 0 ==> stack@ == seq![root],
            cnt > 0 && stack@.len() > 0 ==> is_ancestor(pars(parent@), parent@[stack@.last() as int].spec_usize(), seqp[cnt - 1]),
        decreases n - cnt, stack@.len(),
    {
        let ghost before = stack@;
        let src = stack.pop().unwrap();
        proof {
            g.lemma_targets();
            assert(before == stack@.push(src));
            assert(holds(before, src as int)) by {
                assert(before[before.len() - 1] == src);
            }
            assert(stack@.no_duplicates()) by {
                assert forall|a: int, b: int| 0 <= a < b < stack@.len() implies stack@[a] != stack@[b] by {
                    assert(stack@[a] == before[a] && stack@[b] == before[b]);
                }
            }
            assert(!holds(stack@, src as int)) by {
                if holds(stack@, src as int) {
                    let a = choose|a: int| 0 <= a < stack@.len() && stack@[a] as int == src as int;
                    assert(before[a] == before[before.len() - 1]);
                }
            }
            assert forall|v: int| #[trigger] holds(stack@, v) implies holds(before, v) by {
                let a = choose|a: int| 0 <= a < stack@.len() && stack@[a] as int == v;
                assert(before[a] == stack@[a]);
            }
            assert forall|v: int| holds(before, v) && v != src as int implies #[trigger] holds(stack@, v) by {
                let a = choose|a: int| 0 <= a < before.len() && before[a] as int == v;
                assert(a < stack@.len());
                assert(stack@[a] == before[a]);
            }
            // the popped nodes with `src` are distinct nodes, so there are fewer than `n`
            lemma_int_range(0, n as int);
            assert forall|x: int| popped.insert(src as int).contains(x) implies set_int_range(0, n as int).contains(x) by {}
            lemma_len_subset(popped.insert(src as int), set_int_range(0, n as int));
        }
        let ghost s = src as int;
        let ghost old_order = order@;
        proof {
            assert forall|v: int| popped.contains(v) implies 0 <= v < parent@.len() && old_order[v].spec_usize() < cnt by {
                assert(depth@[v].spec_usize() <= order@[v].spec_usize());
            }
            assert forall|w: int| #![trigger parent@[w]] (popped.contains(w) || w == s) && w != root implies popped.contains(parent@[w].spec_usize()) by {
                assert(vis.contains(w));
            }
        }
        order.set(src, Idx::from_usize(cnt));
        proof {
            Idx::lemma_from(cnt as int);
            assert(before[before.len() - 1] == src);
            assert(before.last() == src);
            assert(order@ == old_order.update(s, order@[s]));
            lemma_pop_keeps_order(parent@, old_order, order@, popped, seqp, before, stack@, s, root as int, cnt as int);
            seqp = seqp.push(s);
        }
        cnt += 1;
        proof {
            popped = popped.insert(s);
        }
        let targets = g.target(Idx::from_usize(src));
        let mut t: usize = 0;
        while t < targets.len()
            invariant
                n == g.spec_len(),
                g.csr_wf(),
                n <= Idx::spec_max(),
                root < n,
                0 <= s < n,
                s == src as int,
                targets@ == g.spec_out(s),
                t <= targets@.len(),
                parent@.len() == n && depth@.len() == n && order@.len() == n,
                vis.finite() && popped.finite(),
                popped.subset_of(vis),
                popped.contains(s),
                popped.len() == cnt,
                0 < cnt <= n,
                vis.contains(root as int),
                forall|v: int| vis.contains(v) ==> 0 <= v < n,
                forall|v: int| 0 <= v < n ==> (vis.contains(v) <==> #[trigger] parent@[v].spec_usize() != n),
                stack@.no_duplicates(),
                forall|v: int| #[trigger] holds(stack@, v) ==> vis.contains(v) && !popped.contains(v),
                forall|v: int| #[trigger] vis.contains(v) && !popped.contains(v) ==> holds(stack@, v),
                forall|x: int, k: int| popped.contains(x) && x != s && 0 <= k < g.spec_out(x).len() ==> vis.contains(
                    (#[trigger] g.spec_out(x)[k]).0.spec_usize()),
                forall|k: int| 0 <= k < t ==> vis.contains((#[trigger] g.spec_out(s)[k]).0.spec_usize()),
                parent@[root as int].spec_usize() == root,
                depth@[root as int].spec_usize() == 0,
                forall|v: int| #![trigger parent@[v]] vis.contains(v) && v != root ==> {
                    let p = parent@[v].spec_usize();
                    &&& popped.contains(p)
                    &&& adjacent(g, p, v)
                    &&& depth@[v].spec_usize() == depth@[p].spec_usize() + 1
                },
                forall|v: int| 0 <= v < n ==> #[trigger] order@[v].spec_usize() < n,
                forall|v: int| popped.contains(v) ==> #[trigger] depth@[v].spec_usize() <= order@[v].spec_usize() < cnt,
                forall|v: int| vis.contains(v) && !popped.contains(v) ==> #[trigger] depth@[v].spec_usize() <= cnt,
                depth@[s].spec_usize() < cnt,
                order_ok(parent@, order@, popped, seqp, root as int, cnt as int),
                chain_ok(parent@, stack@),
                below_ok(parent@, stack@, s),
                seqp.len() == cnt,
                seqp[cnt - 1] == s,
            decreases targets@.len() - t,
        {
            let tar = targets[t].0.into_usize();
            proof {
                g.lemma_targets();
                assert(0 <= g.spec_out(s)[t as int].0.spec_usize() < n);
            }
            if parent[tar].into_usize() == n {
                let ghost tv = tar as int;
                let ghost bst = stack@;
                let d = depth[src].into_usize() + 1;
                let ghost parent_old = parent@;
                let ghost vis_old = vis;
                parent.set(tar, Idx::from_usize(src));
                depth.set(tar, Idx::from_usize(d));
                stack.push(tar);
                proof {
                    Idx::lemma_from(src as int);
                    assert(parent@ == parent_old.update(tv, parent@[tv]));
                    lemma_push_keeps_order(parent_old, parent@, order@, vis_old, popped, seqp, bst, s, tv, root as int, cnt as int);
                    assert(stack@ == bst.push(tar));
                    assert(!vis.contains(tv));
                    assert(!holds(bst, tv));
                    vis = vis.insert(tv);
                    assert(adjacent(g, s, tv)) by {
                        assert(g.spec_out(s)[t as int].0.spec_usize() == tv);
                    }
                    assert(holds(stack@, tv)) by {
                        assert(stack@[stack@.len() - 1] == tar);
                    }
                    assert forall|v: int| #[trigger] holds(stack@, v) implies vis.contains(v) && !popped.contains(v) by {
                        if v != tv {
                            let a = choose|a: int| 0 <= a < stack@.len() && stack@[a] as int == v;
                            assert(a < bst.len());
                            assert(bst[a] == stack@[a]);
                            assert(holds(bst, v));
                        }
                    }
                    assert forall|v: int| #[trigger] vis.contains(v) && !popped.contains(v) implies holds(stack@, v) by {
                        if v != tv {
                            assert(holds(bst, v));
                            let a = choose|a: int| 0 <= a < bst.len() && bst[a] as int == v;
                            assert(stack@[a] == bst[a]);
                        }
                    }
                    assert(stack@.no_duplicates()) by {
                        assert forall|a: int, b: int| 0 <= a < b < stack@.len() implies stack@[a] != stack@[b] by {
                            if b == stack@.len() - 1 {
                                assert(stack@[a] == bst[a]);
                                if stack@[a] == tar {
                                    assert(holds(bst, tv));
                                }
                            } else {
                                assert(stack@[a] == bst[a] && stack@[b] == bst[b]);
                            }
                        }
                    }
                }
            }
            t += 1;
        }
        proof {
            if stack@.len() > 0 {
                lemma_below_top(parent@, stack@, s);
            }
        }
    }
    proof {
        assert(vis =~= popped) by {
            assert forall|v: int| vis.contains(v) implies popped.contains(v) by {
                if !popped.contains(v) {
                    assert(holds(stack@, v));
                }
            }
        }
    }
    (parent, depth, order, cnt, Ghost(vis), Ghost(seqp))
}

/// The `2^k`-th ancestors of every node, for `k` from 0 until all of them are the root.
fn build_table<Idx: Index>(parent: Vec<Idx>, n: usize, root: usize, Ghost(par): Ghost<Seq<int>>, Ghost(dep): Ghost<Seq<int>>) -> (r: (Vec<Idx>, usize))
    requires
        rooted(par, dep, root as int),
        par.len() == n,
        parent@.len() == n,
        forall|v: int| 0 <= v < n ==> #[trigger] parent@[v].spec_usize() == par[v],
    ensures
        1 <= r.1,
        r.0@.len() == r.1 * n,
        r.0@.len() <= usize::MAX,
        forall|k: int, v: int| 0 <= k < r.1 && 0 <= v < n ==> #[trigger] cell(r.0@, n as int, k, v) == up(par, v, pow2(k as nat)),
        forall|v: int| 0 <= v < n ==> dep[v] <= pow2((r.1 - 1) as nat),
{
    let mut ancestor = parent;
    proof {
        assert(pow2(0) == 1) by {
            vstd::arithmetic::power2::lemma2_to64();
        }
        assert forall|v: int| 0 <= v < n implies #[trigger] cell(ancestor@, n as int, 0, v) == up(par, v, pow2(0)) by {
            assert(up(par, par[v], 0) == par[v]);
            assert(0 * n + v == v);
        }
    }
    let mut finished = true;
    let mut i: usize = 0;
    while i < n
        invariant
            i <= n,
            ancestor@.len() == n,
            forall|v: int| 0 <= v < n ==> #[trigger] cell(ancestor@, n as int, 0, v) == up(par, v, pow2(0)),
            finished == forall|v: int| 0 <= v < i ==> #[trigger] cell(ancestor@, n as int, 0, v) == root,
        decreases n - i,
    {
        proof {
            assert(cell(ancestor@, n as int, 0, i as int) == ancestor@[i as int].spec_usize()) by {
                assert(0 * n + i == i);
            }
        }
        finished = finished && ancestor[i].into_usize() == root;
        i += 1;
    }
    let mut offset: usize = 0;
    let ghost mut k: nat = 0;
    proof {
        assert((k + 1) * n == n) by (nonlinear_arith)
            requires k == 0;
    }
    while !finished
        invariant
            rooted(par, dep, root as int),
            par.len() == n,
            ancestor@.len() == (k + 1) * n,
            offset == k * n,
            forall|kk: int, v: int| 0 <= kk <= k && 0 <= v < n ==> #[trigger] cell(ancestor@, n as int, kk, v) == up(par, v, pow2(kk as nat)),
            finished == forall|v: int| 0 <= v < n ==> #[trigger] cell(ancestor@, n as int, k as int, v) == root,
        decreases n - k,
    {
        proof {
            // some node is deeper than `2^k`, so `k` is small
            let v = choose|v: int| 0 <= v < n && #[trigger] cell(ancestor@, n as int, k as int, v) != root;
            if pow2(k) >= dep[v] {
                lemma_up_root(par, dep, root as int, v, pow2(k));
            }
            vstd::arithmetic::power2::lemma_pow2_adds(0, k);
            lemma_k_below_pow2(k);
            assert((k + 1) * n == k * n + n) by (nonlinear_arith);
        }
        let len = ancestor.len();
        let mut fin = true;
        let mut i: usize = 0;
        while i < n
            invariant
                rooted(par, dep, root as int),
                par.len() == n,
                i <= n,
                len == (k + 1) * n,
                offset == k * n,
                offset + n == len,
                ancestor@.len() == len + i,
                forall|kk: int, v: int| 0 <= kk <= k && 0 <= v < n ==> #[trigger] cell(ancestor@, n as int, kk, v) == up(par, v, pow2(kk as nat)),
                forall|v: int| 0 <= v < i ==> #[trigger] cell(ancestor@, n as int, (k + 1) as int, v) == up(par, v, pow2((k + 1) as nat)),
                fin == forall|v: int| 0 <= v < i ==> #[trigger] cell(ancestor@, n as int, (k + 1) as int, v) == root,
            decreases n - i,
        {
            let ghost before = ancestor@;
            proof {
                lemma_cell_index(k as int, i as int, n as int, (k + 1) as int);
                assert(cell(ancestor@, n as int, k as int, i as int) == up(par, i as int, pow2(k)));
                lemma_up_range(par, dep, root as int, i as int, pow2(k));
            }
            let mid = ancestor[offset + i].into_usize();
            proof {
                lemma_cell_index(k as int, mid as int, n as int, (k + 1) as int);
                assert(cell(ancestor@, n as int, k as int, mid as int) == up(par, mid as int, pow2(k)));
            }
            let a = ancestor[offset + mid];
            ancestor.push(a);
            proof {
                lemma_up_add(par, i as int, pow2(k), pow2(k));
                lemma_pow2_unfold(k + 1);
                assert((k + 1) * n + i == len + i) by (nonlinear_arith)
                    requires len == (k + 1) * n;
                assert forall|kk: int, v: int| 0 <= kk <= k && 0 <= v < n implies #[trigger] cell(ancestor@, n as int, kk, v) == up(par, v, pow2(kk as nat)) by {
                    lemma_cell_index(kk, v, n as int, (k + 1) as int);
                    assert(cell(before, n as int, kk, v) == up(par, v, pow2(kk as nat)));
                    assert(ancestor@[kk * n + v] == before[kk * n + v]);
                }
                assert forall|v: int| 0 <= v < i + 1 implies #[trigger] cell(ancestor@, n as int, (k + 1) as int, v) == up(par, v, pow2((k + 1) as nat)) by {
                    assert((k + 1) * n + v == len + v) by (nonlinear_arith)
                        requires len == (k + 1) * n;
                    if v < i {
                        assert(cell(before, n as int, (k + 1) as int, v) == up(par, v, pow2((k + 1) as nat)));
                        assert(ancestor@[len + v] == before[len + v]);
                    }
                }
            }
            let ghost old_fin = fin;
            fin = fin && a.into_usize() == root;
            proof {
                assert forall|v: int| 0 <= v < i implies #[trigger] cell(ancestor@, n as int, (k + 1) as int, v) == cell(before, n as int, (k + 1) as int, v) by {
                    assert((k + 1) * n + v == len + v) by (nonlinear_arith)
                        requires len == (k + 1) * n;
                }
                assert((k + 1) * n + i == len + i) by (nonlinear_arith)
                    requires len == (k + 1) * n;
                assert(cell(ancestor@, n as int, (k + 1) as int, i as int) == a.spec_usize());
                if fin {
                    assert forall|v: int| 0 <= v < i + 1 implies #[trigger] cell(ancestor@, n as int, (k + 1) as int, v) == root by {
                        if v < i {
                            assert(cell(before, n as int, (k + 1) as int, v) == root);
                        }
                    }
                } else if old_fin {
                    assert(!(cell(ancestor@, n as int, (k + 1) as int, i as int) == root));
                } else {
                    let w = choose|w: int| 0 <= w < i && !(#[trigger] cell(before, n as int, (k + 1) as int, w) == root);
                    assert(cell(ancestor@, n as int, (k + 1) as int, w) == cell(before, n as int, (k + 1) as int, w));
                }
            }
            i += 1;
        }
        finished = fin;
        offset += n;
        proof {
            k = k + 1;
            assert((k + 1) * n == len + n) by (nonlinear_arith)
                requires len == k * n;
        }
    }
    let col = ancestor.len() / n;
    proof {
        let total = ancestor@.len() as int;
        assert(total / (n as int) == k + 1) by (nonlinear_arith)
            requires total == (k + 1) * n, n > 0;
        assert(col == k + 1);
        assert forall|v: int| 0 <= v < n implies dep[v] <= pow2((col - 1) as nat) by {
            assert(cell(ancestor@, n as int, k as int, v) == root);
            if dep[v] > pow2(k) {
                lemma_up_depth(par, dep, root as int, v, pow2(k));
            }
        }
    }
    (ancestor, col)
}

proof fn lemma_k_below_pow2(k: nat)
    ensures
        k < pow2(k),
    decreases k,
{
    if k == 0 {
        assert(pow2(0) == 1) by {
            vstd::arithmetic::power2::lemma2_to64();
        }
    } else {
        lemma_k_below_pow2((k - 1) as nat);
        lemma_pow2_unfold(k);
        lemma_pow2_pos((k - 1) as nat);
    }
}

impl<Idx: Index> LCA<Idx> {
    /// Roots the tree `pair.1` at `pair.0`.
    ///
    /// Fails with `InvalidRoot` when the root is not a node, and with `NotTree` when the graph
    /// does not have one edge fewer than nodes or not every node is reachable from the root.
    pub fn try_from<W>(pair: (Idx, &UndirectedCSR<Idx, W>)) -> (r: Result<Self, BuildLCAError>)
        requires
            pair.1.csr_wf(),
            pair.1.spec_len() <= Idx::spec_max(),
        ensures
            match r {
                Err(BuildLCAError::InvalidRoot) => pair.0.spec_usize() >= pair.1.spec_len(),
                Err(BuildLCAError::NotTree) => pair.0.spec_usize() < pair.1.spec_len() && !(pair.1.spec_num_edges()
                    == 2 * (pair.1.spec_len() - 1) && connected(pair.1, pair.0.spec_usize())),
                Ok(l) => {
                    &&& pair.1.spec_num_edges() == 2 * (pair.1.spec_len() - 1)
                    &&& connected(pair.1, pair.0.spec_usize())
                    &&& l.wf()
                    &&& l.spec_len() == pair.1.spec_len()
                    &&& l.root() == pair.0.spec_usize()
                    &&& spans(pair.1, l.parents(), l.root())
                },
            },
    {
        let (root, g) = pair;
        proof {
            g.lemma_targets();
        }
        let n = g.max_index() + 1;
        let r0 = root.into_usize();
        if r0 >= n {
            return Err(BuildLCAError::InvalidRoot);
        }
        // with one edge fewer than nodes, connected is the same as being a tree
        let m = g.num_edges();
        if m % 2 != 0 || m / 2 != n - 1 {
            return Err(BuildLCAError::NotTree);
        }
        let (parent, depth, order, cnt, vis, seqp) = search(g, r0);
        let ghost vis = vis@;
        proof {
            lemma_int_range(0, n as int);
            assert(vis.subset_of(set_int_range(0, n as int)));
            lemma_len_subset(vis, set_int_range(0, n as int));
        }
        if cnt != n {
            proof {
                // some node was not reached, and no walk leaves the reached set
                if forall|v: int| 0 <= v < n ==> vis.contains(v) {
                    assert(set_int_range(0, n as int).subset_of(vis));
                    lemma_len_subset(set_int_range(0, n as int), vis);
                }
                let u = choose|u: int| 0 <= u < n && !vis.contains(u);
                if reachable(g, r0 as int, u) {
                    let p = choose|p: Seq<int>| #[trigger] is_walk(g, p) && p[0] == r0 as int && p.last() == u;
                    lemma_walk_stays(g, vis, p, p.len() - 1);
                }
                assert(!reachable(g, r0 as int, u));
            }
            return Err(BuildLCAError::NotTree);
        }
        let ghost par = Seq::new(n as nat, |v: int| parent@[v].spec_usize());
        let ghost dep = depth@.map_values(|x: Idx| x.spec_usize());
        proof {
            assert(set_int_range(0, n as int).subset_of(vis)) by {
                lemma_subset_equality(vis, set_int_range(0, n as int));
            }
            assert forall|v: int| 0 <= v < n implies 0 <= #[trigger] par[v] < n by {
                assert(vis.contains(v));
                if v != r0 {
                    assert(vis.contains(parent@[v].spec_usize()));
                }
            }
            assert forall|v: int| 0 <= v < n implies 0 <= #[trigger] dep[v] < n by {
                assert(vis.contains(v));
                depth@[v].lemma_index();
                assert(dep[v] <= order@[v].spec_usize());
                assert(order@[v].spec_usize() < n);
            }
            assert forall|v: int| 0 <= v < n && v != r0 implies dep[v] == dep[#[trigger] par[v]] + 1 by {
                assert(vis.contains(v));
                assert(parent@[v] == parent@[v]);
            }
            assert(rooted(par, dep, r0 as int));
            assert forall|v: int| 0 <= v < par.len() && v != r0 implies adjacent(g, #[trigger] par[v], v) by {
                assert(vis.contains(v));
                assert(parent@[v] == parent@[v]);
            }
            assert forall|v: int| 0 <= v < g.spec_len() implies #[trigger] reachable(g, r0 as int, v) by {
                let p = lemma_walk_down(g, par, dep, r0 as int, v);
                assert(is_walk(g, p));
            }
        }
        let ghost parent_kept = parent@;
        let ghost order_kept = order@;
        let (ancestor, col) = build_table(parent, n, r0, Ghost(par), Ghost(dep));
        let l = LCA { ancestor, row: n, col, depth, dfs_order: order, par: Ghost(par), root: Ghost(r0 as int), visit: seqp };
        proof {
            reveal(order_ok);
            assert(pars(parent_kept) =~= par);
            let ord = l.order();
            assert forall|k: int| 0 <= k < n implies 0 <= #[trigger] seqp@[k] < n && ord[seqp@[k]] == k by {
                assert(vis.contains(seqp@[k]));
            }
            assert forall|x: int| 0 <= x < n implies ord[x] < n && #[trigger] seqp@[ord[x]] == x by {
                assert(vis.contains(x));
                assert(ord[x] == order_kept[x].spec_usize());
            }
            assert forall|x: int| 0 <= x < n && x != r0 implies 1 <= #[trigger] ord[x] && ord[par[x]] < ord[x]
                && is_ancestor(par, par[x], seqp@[ord[x] - 1]) by {
                assert(vis.contains(x));
                assert(ord[x] == order_kept[x].spec_usize());
                assert(par[x] == parent_kept[x].spec_usize());
                assert(ord[par[x]] == order_kept[par[x]].spec_usize());
            }
            assert(seqp@[0] == r0);
            reveal(preorder);
            assert(preorder(par, ord, seqp@, r0 as int));
            assert(l.depths() == dep);
            assert forall|v: int| 0 <= v < n implies 0 <= #[trigger] l.order()[v] < n by {
                assert(l.order()[v] == order@[v].spec_usize());
                order@[v].lemma_index();
            }
        }
        Ok(l)
    }
}

/// The number of edges between `a` and `b` in the tree.
pub open spec fn dist(par: Seq<int>, dep: Seq<int>, a: int, b: int) -> int {
    dep[a] + dep[b] - 2 * dep[choose|r: int| is_lca(par, dep, a, b, r)]
}

/// The distances between consecutive nodes of `s`, over its first `t + 1` nodes.
pub open spec fn chain(par: Seq<int>, dep: Seq<int>, s: Seq<int>, t: int) -> int
    decreases t,
{
    if t <= 0 { 0 } else { chain(par, dep, s, t - 1) + dist(par, dep, s[t - 1], s[t]) }
}

/// Half the length of the closed walk through the nodes of `s` in turn.
pub open spec fn tour(par: Seq<int>, dep: Seq<int>, s: Seq<int>) -> int {
    (chain(par, dep, s, s.len() - 1) + dist(par, dep, s[0], s[s.len() - 1])) / 2
}

/// Two lowest common ancestors of the same pair have the same depth.
proof fn lemma_lca_depth(par: Seq<int>, dep: Seq<int>, i: int, j: int, r1: int, r2: int)
    requires
        is_lca(par, dep, i, j, r1),
        is_lca(par, dep, i, j, r2),
    ensures
        dep[r1] == dep[r2],
{
    let a2 = (dep[i] - dep[r2]) as nat;
    let b2 = (dep[j] - dep[r2]) as nat;
    assert(up(par, i, a2) == up(par, j, b2));
    let a1 = (dep[i] - dep[r1]) as nat;
    let b1 = (dep[j] - dep[r1]) as nat;
    assert(up(par, i, a1) == up(par, j, b1));
}

/// The distance given by a lowest common ancestor `r`.
proof fn lemma_dist(par: Seq<int>, dep: Seq<int>, i: int, j: int, r: int)
    requires
        is_lca(par, dep, i, j, r),
    ensures
        dist(par, dep, i, j) == dep[i] + dep[j] - 2 * dep[r],
        0 <= dist(par, dep, i, j),
{
    let c = choose|c: int| is_lca(par, dep, i, j, c);
    lemma_lca_depth(par, dep, i, j, r, c);
}

/// Swapping two elements keeps the elements.
proof fn lemma_swap_multiset<A>(s: Seq<A>, i: int, j: int)
    requires
        0 <= i < s.len(),
        0 <= j < s.len(),
    ensures
        s.update(i, s[j]).update(j, s[i]).to_multiset() == s.to_multiset(),
{
    broadcast use vstd::seq_lib::to_multiset_update;
    broadcast use vstd::seq_lib::to_multiset_contains;
    broadcast use vstd::multiset::group_multiset_axioms;
    let m = s.to_multiset();
    let s1 = s.update(i, s[j]);
    assert(s1.to_multiset() == m.insert(s[j]).remove(s[i]));
    assert(s1[j] == s[j]);
    let s2 = s1.update(j, s[i]);
    assert(s2.to_multiset() == s1.to_multiset().insert(s[i]).remove(s[j]));
    assert(s.contains(s[i]) && s.contains(s[j]));
    assert(m.count(s[i]) > 0 && m.count(s[j]) > 0);
    assert(s2.to_multiset() =~= m);
}

/// `s` is in increasing order of `key`.
pub open spec fn sorted_by_key(s: Seq<int>, key: Seq<int>, lo: int, hi: int) -> bool {
    forall|a: int, b: int| lo <= a < b < hi ==> key[#[trigger] s[a]] <= key[#[trigger] s[b]]
}

impl<Idx: Index> LCA<Idx> {
    /// Sorts `nodes` by the order of the search that built the tree, and returns half the
    /// length of the closed walk through them in that order.
    pub fn distance(&self, nodes: &mut [Idx]) -> (r: usize)
        requires
            self.wf(),
            old(nodes)@.len() >= 1,
            forall|t: int| 0 <= t < old(nodes)@.len() ==> #[trigger] old(nodes)@[t].spec_usize() < self.spec_len(),
            old(nodes)@.len() * 2 * self.spec_len() <= usize::MAX,
        ensures
            final(nodes)@.to_multiset() == old(nodes)@.to_multiset(),
            sorted_by_key(final(nodes)@.map_values(|x: Idx| x.spec_usize()), self.order(), 0, final(nodes)@.len() as int),
            r == tour(self.parents(), self.depths(), final(nodes)@.map_values(|x: Idx| x.spec_usize())),
    {
        let ghost key = self.order();
        let ghost orig = nodes@;
        let n = nodes.len();
        let mut i: usize = 1;
        while i < n
            invariant
                self.wf(),
                key == self.order(),
                n == nodes@.len(),
                1 <= i <= n,
                nodes@.to_multiset() == orig.to_multiset(),
                forall|t: int| 0 <= t < n ==> #[trigger] nodes@[t].spec_usize() < self.spec_len(),
                sorted_by_key(nodes@.map_values(|x: Idx| x.spec_usize()), key, 0, i as int),
            decreases n - i,
        {
            let mut j: usize = i;
            while j > 0 && self.dfs_order[nodes[j - 1].into_usize()].into_usize() > self.dfs_order[nodes[j].into_usize()].into_usize()
                invariant
                    self.wf(),
                    key == self.order(),
                    n == nodes@.len(),
                    1 <= i < n,
                    j <= i,
                    nodes@.to_multiset() == orig.to_multiset(),
                    forall|t: int| 0 <= t < n ==> #[trigger] nodes@[t].spec_usize() < self.spec_len(),
                    sorted_by_key(nodes@.map_values(|x: Idx| x.spec_usize()), key, 0, j as int),
                    sorted_by_key(nodes@.map_values(|x: Idx| x.spec_usize()), key, j as int, i + 1),
                    0 < j < i ==> key[nodes@[j as int - 1].spec_usize()] <= key[nodes@[j as int + 1].spec_usize()],
                decreases j,
            {
                let ghost before = nodes@;
                let a = nodes[j - 1];
                let b = nodes[j];
                nodes[j - 1] = b;
                nodes[j] = a;
                proof {
                    assert(nodes@ == before.update(j - 1, before[j as int]).update(j as int, before[j - 1]));
                    lemma_swap_multiset(before, j - 1, j as int);
                    let sv = nodes@.map_values(|x: Idx| x.spec_usize());
                    let bv = before.map_values(|x: Idx| x.spec_usize());
                    assert forall|p: int, q: int| 0 <= p < q < j - 1 implies key[#[trigger] sv[p]] <= key[#[trigger] sv[q]] by {
                        assert(sv[p] == bv[p] && sv[q] == bv[q]);
                    }
                    assert forall|p: int, q: int| j - 1 <= p < q < i + 1 implies key[#[trigger] sv[p]] <= key[#[trigger] sv[q]] by {
                        if p == j - 1 {
                            assert(sv[p] == bv[j as int]);
                            if q == j as int {
                                assert(sv[q] == bv[j - 1]);
                            } else {
                                assert(sv[q] == bv[q]);
                            }
                        } else {
                            assert(p >= j);
                            if p == j as int {
                                assert(sv[p] == bv[j - 1]);
                                assert(sv[q] == bv[q]);
                                if j < i {
                                    assert(key[bv[j - 1]] <= key[bv[j + 1]]);
                                    if q > j + 1 {
                                        assert(key[bv[j + 1]] <= key[bv[q]]);
                                    }
                                }
                            } else {
                                assert(sv[p] == bv[p] && sv[q] == bv[q]);
                            }
                        }
                    }
                    if j > 1 {
                        assert(sv[j - 2] == bv[j - 2]);
                        assert(sv[j as int] == bv[j - 1]);
                        assert(key[bv[j - 2]] <= key[bv[j - 1]]);
                    }
                }
                j -= 1;
            }
            proof {
                let sv = nodes@.map_values(|x: Idx| x.spec_usize());
                if j > 0 {
                    assert(key[sv[j - 1]] <= key[sv[j as int]]);
                }
                assert forall|p: int, q: int| 0 <= p < q < i + 1 implies key[#[trigger] sv[p]] <= key[#[trigger] sv[q]] by {
                    if q < j || p >= j {
                    } else {
                        if p < j - 1 {
                            assert(key[sv[p]] <= key[sv[j - 1]]);
                        }
                        if q > j {
                            assert(key[sv[j as int]] <= key[sv[q]]);
                        }
                    }
                }
            }
            i += 1;
        }
        let ghost par = self.par@;
        let ghost dep = self.depths();
        let ghost sv = nodes@.map_values(|x: Idx| x.spec_usize());
        let mut sum: usize = 0;
        let mut t: usize = 0;
        while t + 1 < n
            invariant
                self.wf(),
                par == self.par@,
                dep == self.depths(),
                n == nodes@.len(),
                n >= 1,
                sv == nodes@.map_values(|x: Idx| x.spec_usize()),
                n * 2 * self.spec_len() <= usize::MAX,
                forall|q: int| 0 <= q < n ==> #[trigger] nodes@[q].spec_usize() < self.spec_len(),
                t < n,
                sum == chain(par, dep, sv, t as int),
                sum <= t * 2 * self.spec_len(),
            decreases n - t,
        {
            let a = nodes[t];
            let b = nodes[t + 1];
            let l = self.lca(a, b).into_usize();
            proof {
                lemma_dist(par, dep, a.spec_usize(), b.spec_usize(), l as int);
                assert(sv[t as int] == a.spec_usize() && sv[t + 1] == b.spec_usize());
                assert((t + 1) * 2 * self.spec_len() == t * 2 * self.spec_len() + 2 * self.spec_len()) by (nonlinear_arith);
                assert((t + 1) * 2 * self.spec_len() <= n * 2 * self.spec_len()) by (nonlinear_arith)
                    requires t + 1 < n;
                assert(nodes@[t as int] == a && nodes@[t + 1] == b);
                assert(a.spec_usize() < self.spec_len() && b.spec_usize() < self.spec_len());
                a.lemma_index();
                b.lemma_index();
                assert(dep[a.spec_usize()] < self.spec_len() && dep[b.spec_usize()] < self.spec_len());
            }
            let da = self.depth[a.into_usize()].into_usize();
            let db = self.depth[b.into_usize()].into_usize();
            let dl = self.depth[l].into_usize();
            sum = sum + (da + db - 2 * dl);
            t += 1;
        }
        let a = nodes[0];
        let b = nodes[n - 1];
        let l = self.lca(a, b).into_usize();
        proof {
            lemma_dist(par, dep, a.spec_usize(), b.spec_usize(), l as int);
            assert(sv[0] == a.spec_usize() && sv[n - 1] == b.spec_usize());
            assert(nodes@[0] == a && nodes@[n - 1] == b);
            a.lemma_index();
            b.lemma_index();
            assert(dep[a.spec_usize()] < self.spec_len() && dep[b.spec_usize()] < self.spec_len());
            assert(t == n - 1);
            assert((t + 1) * 2 * self.spec_len() == t * 2 * self.spec_len() + 2 * self.spec_len()) by (nonlinear_arith);
        }
        let da = self.depth[a.into_usize()].into_usize();
        let db = self.depth[b.into_usize()].into_usize();
        let dl = self.depth[l].into_usize();
        sum = sum + (da + db - 2 * dl);
        proof {
            vstd::bits::lemma_usize_shr_is_div(sum, 1);
            assert(pow2(1) == 2) by {
                vstd::arithmetic::power2::lemma2_to64();
            }
        }
        sum >> 1
    }
}

} // verus!
