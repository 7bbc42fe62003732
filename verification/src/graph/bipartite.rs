//! Two-colouring of a graph, splitting its nodes into two sides.

use vstd::prelude::*;
use fixedbitset::FixedBitSet;
use super::csr::{Index, CSR};

verus! {

#[verifier::external_type_specification]
#[verifier::external_body]
pub struct ExFixedBitSet(FixedBitSet);

/// The bits that are set.
pub uninterp spec fn bitset_ones(b: FixedBitSet) -> Set<int>;

/// The number of bits, set or not, that the set was made with.
pub uninterp spec fn bitset_len(b: FixedBitSet) -> nat;

/// `FixedBitSet::with_capacity`: `bits` bits, none of them set.
#[verifier::external_body]
fn bitset_with_capacity(bits: usize) -> (b: FixedBitSet)
    ensures
        bitset_len(b) == bits,
        bitset_ones(b) == Set::<int>::empty(),
{
    FixedBitSet::with_capacity(bits)
}

/// Indexing a `FixedBitSet`: whether `bit` is set; `false` past the end.
#[verifier::external_body]
fn bitset_get(b: &FixedBitSet, bit: usize) -> (r: bool)
    ensures
        r == (bit < bitset_len(*b) && bitset_ones(*b).contains(bit as int)),
{
    b[bit]
}

/// `FixedBitSet::insert`: sets `bit`, which must be below the length.
#[verifier::external_body]
fn bitset_insert(b: &mut FixedBitSet, bit: usize)
    requires
        bit < bitset_len(*old(b)),
    ensures
        bitset_len(*final(b)) == bitset_len(*old(b)),
        bitset_ones(*final(b)) == bitset_ones(*old(b)).insert(bit as int),
{
    b.insert(bit)
}

/// `FixedBitSet::set`: sets or clears `bit`, which must be below the length.
#[verifier::external_body]
fn bitset_set(b: &mut FixedBitSet, bit: usize, enabled: bool)
    requires
        bit < bitset_len(*old(b)),
    ensures
        bitset_len(*final(b)) == bitset_len(*old(b)),
        bitset_ones(*final(b)) == if enabled {
            bitset_ones(*old(b)).insert(bit as int)
        } else {
            bitset_ones(*old(b)).remove(bit as int)
        },
{
    b.set(bit, enabled)
}

/// `col` gives the two ends of every edge of `g` different colours.
pub open spec fn proper<Idx: Index, W, G: CSR<Idx, W>>(g: &G, col: Seq<bool>) -> bool {
    &&& col.len() == g.spec_len()
    &&& forall|u: int, k: int| 0 <= u < g.spec_len() && 0 <= k < g.spec_out(u).len() ==> col[u] != col[
        (#[trigger] g.spec_out(u)[k]).0.spec_usize()]
}

/// The nodes `v` below `n` with `col[v] == c`, in increasing order.
pub open spec fn with_colour(col: Seq<bool>, c: bool, n: int) -> Seq<int>
    decreases n,
{
    if n <= 0 {
        Seq::empty()
    } else if col[n - 1] == c {
        with_colour(col, c, n - 1).push(n - 1)
    } else {
        with_colour(col, c, n - 1)
    }
}

/// The nodes of a graph split into two sides, with every edge between the sides.
pub struct BipartiteGraph<Idx: Index> {
    nodes: Vec<Idx>,
    partition: usize,
}

impl<Idx: Index> BipartiteGraph<Idx> {
    pub closed spec fn spec_blacks(&self) -> Seq<int> {
        self.nodes@.subrange(0, self.partition as int).map_values(|x: Idx| x.spec_usize())
    }

    pub closed spec fn spec_whites(&self) -> Seq<int> {
        self.nodes@.subrange(self.partition as int, self.nodes@.len() as int).map_values(|x: Idx| x.spec_usize())
    }

    pub closed spec fn wf(&self) -> bool {
        self.partition <= self.nodes@.len()
    }

    /// The nodes of one side, in increasing order.
    pub fn blacks(&self) -> (r: &[Idx])
        requires
            self.wf(),
        ensures
            r@.map_values(|x: Idx| x.spec_usize()) == self.spec_blacks(),
    {
        vstd::slice::slice_subrange(self.nodes.as_slice(), 0, self.partition)
    }

    /// The nodes of the other side, in decreasing order.
    pub fn whites(&self) -> (r: &[Idx])
        requires
            self.wf(),
        ensures
            r@.map_values(|x: Idx| x.spec_usize()) == self.spec_whites(),
    {
        vstd::slice::slice_subrange(self.nodes.as_slice(), self.partition, self.nodes.len())
    }
}

/// Every edge of `g` has its reverse.
pub open spec fn symmetric<Idx: Index, W, G: CSR<Idx, W>>(g: &G) -> bool {
    forall|u: int, k: int| 0 <= u < g.spec_len() && 0 <= k < g.spec_out(u).len() ==> exists|k2: int|
        0 <= k2 < g.spec_out((#[trigger] g.spec_out(u)[k]).0.spec_usize()).len() && g.spec_out(
            g.spec_out(u)[k].0.spec_usize(),
        )[k2].0.spec_usize() == u
}

/// The search forest: each reached node other than a root was reached along an edge from its
/// parent, earlier, in the same tree, with the other colour; roots are white.
#[verifier::opaque]
spec fn forest<Idx: Index, W, G: CSR<Idx, W>>(g: &G, chk: Set<int>, blk: Set<int>, par: Seq<int>, rt: Seq<int>, rank: Seq<int>) -> bool {
    &&& forall|v: int| #[trigger] chk.contains(v) ==> 0 <= v < g.spec_len() && chk.contains(rt[v]) && rt[rt[v]] == rt[v]
    &&& forall|v: int| #[trigger] chk.contains(v) && rt[v] == v ==> !blk.contains(v)
    &&& forall|v: int| #[trigger] chk.contains(v) ==> 0 <= rank[v]
    &&& forall|v: int| #[trigger] chk.contains(v) && rt[v] != v ==> {
        let p = par[v];
        &&& chk.contains(p)
        &&& 0 <= rank[p] < rank[v]
        &&& rt[p] == rt[v]
        &&& (exists|k: int| 0 <= k < g.spec_out(p).len() && (#[trigger] g.spec_out(p)[k]).0.spec_usize() == v)
        &&& blk.contains(v) != blk.contains(p)
    }
}

/// Along the search forest, any proper colouring differs from the root's colour exactly on the
/// black nodes.
proof fn lemma_colour_chain<Idx: Index, W, G: CSR<Idx, W>>(g: &G, chk: Set<int>, blk: Set<int>, par: Seq<int>, rt: Seq<int>, rank: Seq<int>, c: Seq<bool>, v: int)
    requires
        forest(g, chk, blk, par, rt, rank),
        proper(g, c),
        chk.contains(v),
    ensures
        (c[v] != c[rt[v]]) == blk.contains(v),
    decreases rank[v],
{
    reveal(forest);
    if rt[v] != v {
        let p = par[v];
        let k = choose|k: int| 0 <= k < g.spec_out(p).len() && (#[trigger] g.spec_out(p)[k]).0.spec_usize() == v;
        assert(c[p] != c[v]);
        lemma_colour_chain(g, chk, blk, par, rt, rank, c, p);
    }
}

/// Adding node `j` as a child of `u` in the tree of `root` keeps a search forest.
proof fn lemma_forest_grow<Idx: Index, W, G: CSR<Idx, W>>(
    g: &G,
    chk: Set<int>,
    blk: Set<int>,
    par: Seq<int>,
    rt: Seq<int>,
    rank: Seq<int>,
    cnt: int,
    u: int,
    j: int,
    k: int,
    blk2: Set<int>,
)
    requires
        forest(g, chk, blk, par, rt, rank),
        forall|v: int| chk.contains(v) ==> rank[v] < cnt,
        cnt >= 0,
        forall|v: int| blk.contains(v) ==> chk.contains(v),
        par.len() == g.spec_len() && rt.len() == g.spec_len() && rank.len() == g.spec_len(),
        chk.contains(u),
        0 <= j < g.spec_len(),
        !chk.contains(j),
        0 <= k < g.spec_out(u).len(),
        g.spec_out(u)[k].0.spec_usize() == j,
        blk2 == (if blk.contains(u) { blk.remove(j) } else { blk.insert(j) }),
    ensures
        forest(g, chk.insert(j), blk2, par.update(j, u), rt.update(j, rt[u]), rank.update(j, cnt)),
        forall|v: int| chk.insert(j).contains(v) ==> rank.update(j, cnt)[v] < cnt + 1,
        forall|v: int| blk2.contains(v) ==> chk.insert(j).contains(v),
{
    reveal(forest);
    let chk2 = chk.insert(j);
    let par2 = par.update(j, u);
    let rt2 = rt.update(j, rt[u]);
    let rank2 = rank.update(j, cnt);
    assert(chk.contains(rt[u]) && rt[rt[u]] == rt[u]);
    assert forall|v: int| #[trigger] chk2.contains(v) implies 0 <= v < g.spec_len() && chk2.contains(rt2[v]) && rt2[rt2[v]] == rt2[v] by {
        if v != j {
            assert(rt[v] != j);
        }
    }
    assert forall|v: int| #[trigger] chk2.contains(v) && rt2[v] == v implies !blk2.contains(v) by {
        if v == j {
            assert(rt[u] != j);
        }
    }
    assert forall|v: int| #[trigger] chk2.contains(v) && rt2[v] != v implies {
        let p = par2[v];
        &&& chk2.contains(p)
        &&& 0 <= rank2[p] < rank2[v]
        &&& rt2[p] == rt2[v]
        &&& (exists|k: int| 0 <= k < g.spec_out(p).len() && (#[trigger] g.spec_out(p)[k]).0.spec_usize() == v)
        &&& blk2.contains(v) != blk2.contains(p)
    } by {
        if v == j {
            assert(par2[v] == u);
            assert(u != j);
            if rt[u] != u {
                assert(0 <= rank[par[u]]);
            } else {
                assert(chk.contains(u));
            }
            assert(g.spec_out(u)[k].0.spec_usize() == j);
        } else {
            let p = par[v];
            assert(p != j);
            assert(exists|k: int| 0 <= k < g.spec_out(p).len() && (#[trigger] g.spec_out(p)[k]).0.spec_usize() == v);
        }
    }
}

/// A conflict on an edge out of `u` leaves no proper colouring: both ends are in the tree of
/// `root`, where colours are forced.
proof fn lemma_conflict<Idx: Index, W, G: CSR<Idx, W>>(
    g: &G,
    chk: Set<int>,
    blk: Set<int>,
    par: Seq<int>,
    rt: Seq<int>,
    rank: Seq<int>,
    popped: Set<int>,
    u: int,
    t: int,
    root: int,
)
    requires
        g.csr_wf(),
        symmetric(g),
        forest(g, chk, blk, par, rt, rank),
        0 <= u < g.spec_len(),
        chk.contains(u),
        rt[u] == root,
        0 <= t < g.spec_out(u).len(),
        chk.contains(g.spec_out(u)[t].0.spec_usize()),
        blk.contains(u) == blk.contains(g.spec_out(u)[t].0.spec_usize()),
        popped.contains(u),
        forall|v: int| chk.contains(v) && rt[v] != root ==> popped.contains(v),
        forall|x: int, k: int| popped.contains(x) && x != u && 0 <= k < g.spec_out(x).len() ==> {
            let y = (#[trigger] g.spec_out(x)[k]).0.spec_usize();
            &&& chk.contains(y)
            &&& rt[y] == rt[x]
        },
    ensures
        !(exists|col: Seq<bool>| proper(g, col)),
{
    reveal(forest);
    let j = g.spec_out(u)[t].0.spec_usize();
    g.lemma_targets();
    // `j` lies in the tree of `root` too: else it was finished earlier, and its edge back to
    // `u` would have put `u` in its tree
    if rt[j] != root {
        assert(popped.contains(j));
        assert(j != u);
        let k2 = choose|k2: int| 0 <= k2 < g.spec_out(j).len() && g.spec_out(j)[k2].0.spec_usize() == u;
        assert(g.spec_out(j)[k2].0.spec_usize() == u);
    }
    assert forall|col: Seq<bool>| !proper(g, col) by {
        if proper(g, col) {
            lemma_colour_chain(g, chk, blk, par, rt, rank, col, u);
            lemma_colour_chain(g, chk, blk, par, rt, rank, col, j);
            assert(col[u] != col[g.spec_out(u)[t].0.spec_usize()]);
        }
    }
}

/// Reaching the new node `j` along edge `t` of `u` keeps the stack and edge facts of the search.
proof fn lemma_push_child<Idx: Index, W, G: CSR<Idx, W>>(
    g: &G,
    chk0: Set<int>,
    chk1: Set<int>,
    blk0: Set<int>,
    blk1: Set<int>,
    rt: Seq<int>,
    popped: Set<int>,
    sb: Seq<Idx>,
    sa: Seq<Idx>,
    jv: Idx,
    u: int,
    t: int,
    root: int,
    ub: bool,
)
    requires
        0 <= t < g.spec_out(u).len(),
        jv == g.spec_out(u)[t].0,
        0 <= jv.spec_usize() < rt.len(),
        0 <= u < rt.len(),
        forall|v: int| chk0.contains(v) ==> 0 <= v < rt.len(),
        !chk0.contains(jv.spec_usize()),
        chk1 == chk0.insert(jv.spec_usize()),
        blk1 == (if ub { blk0.remove(jv.spec_usize()) } else { blk0.insert(jv.spec_usize()) }),
        ub == blk0.contains(u),
        sa == sb.push(jv),
        popped.subset_of(chk0),
        popped.contains(u),
        rt[u] == root,
        sb.no_duplicates(),
        forall|q: int| 0 <= q < sb.len() ==> {
            let v = (#[trigger] sb[q]).spec_usize();
            &&& chk0.contains(v)
            &&& !popped.contains(v)
            &&& rt[v] == root
        },
        forall|v: int| chk0.contains(v) && !popped.contains(v) ==> exists|q: int| 0 <= q < sb.len() && (#[trigger] sb[q]).spec_usize() == v,
        forall|v: int| chk0.contains(v) && rt[v] != root ==> popped.contains(v),
        forall|x: int, k: int| popped.contains(x) && x != u && 0 <= k < g.spec_out(x).len() ==> {
            let y = (#[trigger] g.spec_out(x)[k]).0.spec_usize();
            &&& chk0.contains(y)
            &&& rt[y] == rt[x]
            &&& blk0.contains(x) != blk0.contains(y)
        },
        forall|k: int| 0 <= k < t ==> {
            let y = (#[trigger] g.spec_out(u)[k]).0.spec_usize();
            &&& chk0.contains(y)
            &&& rt[y] == rt[u]
            &&& ub != blk0.contains(y)
        },
    ensures
        ({
            let j = jv.spec_usize();
            let rt1 = rt.update(j, root);
            &&& popped.subset_of(chk1)
            &&& sa.no_duplicates()
            &&& forall|q: int| 0 <= q < sa.len() ==> {
                let v = (#[trigger] sa[q]).spec_usize();
                &&& chk1.contains(v)
                &&& !popped.contains(v)
                &&& rt1[v] == root
            }
            &&& forall|v: int| chk1.contains(v) && !popped.contains(v) ==> exists|q: int| 0 <= q < sa.len() && (#[trigger] sa[q]).spec_usize() == v
            &&& forall|v: int| chk1.contains(v) && rt1[v] != root ==> popped.contains(v)
            &&& forall|x: int, k: int| popped.contains(x) && x != u && 0 <= k < g.spec_out(x).len() ==> {
                let y = (#[trigger] g.spec_out(x)[k]).0.spec_usize();
                &&& chk1.contains(y)
                &&& rt1[y] == rt1[x]
                &&& blk1.contains(x) != blk1.contains(y)
            }
            &&& forall|k: int| 0 <= k < t + 1 ==> {
                let y = (#[trigger] g.spec_out(u)[k]).0.spec_usize();
                &&& chk1.contains(y)
                &&& rt1[y] == rt1[u]
                &&& ub != blk1.contains(y)
            }
        }),
{
    let j = jv.spec_usize();
    let rt1 = rt.update(j, root);
    assert(sa.no_duplicates()) by {
        assert forall|a: int, b: int| 0 <= a < b < sa.len() implies sa[a] != sa[b] by {
            if b == sa.len() - 1 {
                assert(sa[a] == sb[a]);
                assert(chk0.contains(sb[a].spec_usize()));
            } else {
                assert(sa[a] == sb[a] && sa[b] == sb[b]);
            }
        }
    }
    assert forall|q: int| 0 <= q < sa.len() implies {
        let v = (#[trigger] sa[q]).spec_usize();
        &&& chk1.contains(v)
        &&& !popped.contains(v)
        &&& rt1[v] == root
    } by {
        if q < sb.len() {
            assert(sa[q] == sb[q]);
            assert(chk0.contains(sb[q].spec_usize()));
        }
    }
    assert forall|v: int| chk1.contains(v) && !popped.contains(v) implies exists|q: int| 0 <= q < sa.len() && (#[trigger] sa[q]).spec_usize() == v by {
        if v == j {
            assert(sa[sb.len() as int].spec_usize() == v);
        } else {
            let q = choose|q: int| 0 <= q < sb.len() && (#[trigger] sb[q]).spec_usize() == v;
            assert(sa[q] == sb[q]);
        }
    }
    assert forall|x: int, k: int| popped.contains(x) && x != u && 0 <= k < g.spec_out(x).len() implies {
        let y = (#[trigger] g.spec_out(x)[k]).0.spec_usize();
        &&& chk1.contains(y)
        &&& rt1[y] == rt1[x]
        &&& blk1.contains(x) != blk1.contains(y)
    } by {
        let y = g.spec_out(x)[k].0.spec_usize();
        assert(chk0.contains(y));
        assert(y != j);
        assert(x != j);
    }
    assert forall|k: int| 0 <= k < t + 1 implies {
        let y = (#[trigger] g.spec_out(u)[k]).0.spec_usize();
        &&& chk1.contains(y)
        &&& rt1[y] == rt1[u]
        &&& ub != blk1.contains(y)
    } by {
        let y = g.spec_out(u)[k].0.spec_usize();
        if k < t {
            assert(chk0.contains(y));
            assert(y != j);
        }
        assert(u != j);
    }
}

/// Splits the nodes of the undirected graph `csr` into two sides with every edge between them,
/// if that can be done.
#[verifier::rlimit(60)]
pub fn try_into_bipartite<Idx: Index, W, G: CSR<Idx, W>>(csr: &G) -> (r: Option<BipartiteGraph<Idx>>)
    requires
        csr.csr_wf(),
        symmetric(csr),
    ensures
        r is None <==> !(exists|col: Seq<bool>| proper(csr, col)),
        r matches Some(b) ==> b.wf() && exists|col: Seq<bool>| {
            &&& proper(csr, col)
            &&& b.spec_blacks() == with_colour(col, true, csr.spec_len() as int)
            &&& b.spec_whites() == with_colour(col, false, csr.spec_len() as int).reverse()
        },
{
    proof {
        csr.lemma_targets();
    }
    let n = csr.max_index() + 1;
    let mut is_black = bitset_with_capacity(n);
    let mut checked = bitset_with_capacity(n);
    let mut stack: Vec<Idx> = Vec::new();
    let ghost mut par: Seq<int> = Seq::new(n as nat, |v: int| 0int);
    let ghost mut rt: Seq<int> = Seq::new(n as nat, |v: int| 0int);
    let ghost mut rank: Seq<int> = Seq::new(n as nat, |v: int| 0int);
    let ghost mut cnt: int = 0;
    let ghost mut popped: Set<int> = Set::empty();
    proof {
        reveal(forest);
    }
    let mut i: usize = 0;
    while i < n
        invariant
            csr.csr_wf(),
            symmetric(csr),
            n == csr.spec_len(),
            i <= n,
            n - 1 <= Idx::spec_max(),
            cnt >= 0,
            bitset_len(checked) == n && bitset_len(is_black) == n,
            par.len() == n && rt.len() == n && rank.len() == n,
            stack@.len() == 0,
            forall|v: int| 0 <= v < i ==> bitset_ones(checked).contains(v),
            forall|v: int| bitset_ones(is_black).contains(v) ==> bitset_ones(checked).contains(v),
            forest(csr, bitset_ones(checked), bitset_ones(is_black), par, rt, rank),
            forall|v: int| bitset_ones(checked).contains(v) ==> rank[v] < cnt,
            popped == bitset_ones(checked),
            forall|x: int, k: int| popped.contains(x) && 0 <= k < csr.spec_out(x).len() ==> {
                let y = (#[trigger] csr.spec_out(x)[k]).0.spec_usize();
                &&& bitset_ones(checked).contains(y)
                &&& rt[y] == rt[x]
                &&& bitset_ones(is_black).contains(x) != bitset_ones(is_black).contains(y)
            },
        decreases n - i,
    {
        if !bitset_get(&checked, i) {
            let ghost root = i as int;
            let ghost blk0 = bitset_ones(is_black);
            bitset_insert(&mut checked, i);
            stack.push(Idx::from_usize(i));
            proof {
                reveal(forest);
                Idx::lemma_from(i as int);
                assert(!blk0.contains(root));
                let chk = bitset_ones(checked);
                let rt2 = rt.update(root, root);
                let rank2 = rank.update(root, cnt);
                assert forall|v: int| #[trigger] chk.contains(v) implies 0 <= rank2[v] by {}
                assert forall|v: int| #[trigger] chk.contains(v) implies 0 <= v < n && chk.contains(rt2[v]) && rt2[rt2[v]] == rt2[v] by {
                    if v != root {
                        assert(rt[v] != root);
                    }
                }
                assert forall|v: int| #[trigger] chk.contains(v) && rt2[v] != v implies {
                    let p = par[v];
                    &&& chk.contains(p)
                    &&& 0 <= rank2[p] < rank2[v]
                    &&& rt2[p] == rt2[v]
                    &&& (exists|k: int| 0 <= k < csr.spec_out(p).len() && (#[trigger] csr.spec_out(p)[k]).0.spec_usize() == v)
                    &&& bitset_ones(is_black).contains(v) != bitset_ones(is_black).contains(p)
                } by {
                    assert(v != root);
                    assert(par[v] != root);
                }
                rt = rt2;
                rank = rank2;
                cnt = cnt + 1;
                assert(popped.subset_of(bitset_ones(checked)));
                assert forall|v: int| bitset_ones(checked).contains(v) && !popped.contains(v) implies exists|t: int| 0 <= t < stack@.len() && (#[trigger] stack@[t]).spec_usize() == v by {
                    assert(v == root);
                    assert(stack@[0].spec_usize() == root);
                }
            }
            while stack.len() > 0
                invariant
                    csr.csr_wf(),
                    symmetric(csr),
                    n == csr.spec_len(),
                    i < n,
                    root == i,
                    n - 1 <= Idx::spec_max(),
                    cnt >= 0,
                    bitset_len(checked) == n && bitset_len(is_black) == n,
                    par.len() == n && rt.len() == n && rank.len() == n,
                    forall|v: int| 0 <= v <= i ==> bitset_ones(checked).contains(v),
                    forall|v: int| bitset_ones(is_black).contains(v) ==> bitset_ones(checked).contains(v),
                    forest(csr, bitset_ones(checked), bitset_ones(is_black), par, rt, rank),
                    forall|v: int| bitset_ones(checked).contains(v) ==> rank[v] < cnt,
                    popped.subset_of(bitset_ones(checked)),
                    stack@.no_duplicates(),
                    forall|t: int| 0 <= t < stack@.len() ==> {
                        let v = (#[trigger] stack@[t]).spec_usize();
                        &&& bitset_ones(checked).contains(v)
                        &&& !popped.contains(v)
                        &&& rt[v] == root
                    },
                    forall|v: int| bitset_ones(checked).contains(v) && !popped.contains(v) ==> exists|t: int| 0 <= t < stack@.len() && (#[trigger] stack@[t]).spec_usize() == v,
                    forall|v: int| bitset_ones(checked).contains(v) && rt[v] != root ==> popped.contains(v),
                    forall|x: int, k: int| popped.contains(x) && 0 <= k < csr.spec_out(x).len() ==> {
                        let y = (#[trigger] csr.spec_out(x)[k]).0.spec_usize();
                        &&& bitset_ones(checked).contains(y)
                        &&& rt[y] == rt[x]
                        &&& bitset_ones(is_black).contains(x) != bitset_ones(is_black).contains(y)
                    },
                decreases n - popped.len(), stack@.len(),
            {
                let ghost before = stack@;
                let u = stack.pop().unwrap();
                let ui = u.into_usize();
                proof {
                    assert(before == stack@.push(u));
                    assert(before[before.len() - 1] == u);
                    assert(stack@.no_duplicates()) by {
                        assert forall|a: int, b: int| 0 <= a < b < stack@.len() implies stack@[a] != stack@[b] by {
                            assert(stack@[a] == before[a] && stack@[b] == before[b]);
                        }
                    }
                    assert forall|t: int| 0 <= t < stack@.len() implies (#[trigger] stack@[t]).spec_usize() != ui by {
                        assert(stack@[t] == before[t]);
                        if stack@[t].spec_usize() == ui {
                            stack@[t].lemma_index();
                            u.lemma_index();
                            assert(Idx::spec_from(stack@[t].spec_usize()) == stack@[t]);
                            assert(Idx::spec_from(u.spec_usize()) == u);
                            assert(before[t] == before[before.len() - 1]);
                        }
                    }
                    // the popped nodes are distinct nodes, so there are fewer than `n`
                    vstd::set_lib::lemma_int_range(0, n as int);
                    assert(bitset_ones(checked).subset_of(vstd::set_lib::set_int_range(0, n as int))) by {
                        assert forall|v: int| bitset_ones(checked).contains(v) implies vstd::set_lib::set_int_range(0, n as int).contains(v) by {
                            reveal(forest);
                        }
                    }
                    vstd::set_lib::lemma_len_subset(popped.insert(ui as int), vstd::set_lib::set_int_range(0, n as int));
                    popped = popped.insert(ui as int);
                    assert forall|t: int| 0 <= t < stack@.len() implies {
                        let v = (#[trigger] stack@[t]).spec_usize();
                        &&& bitset_ones(checked).contains(v)
                        &&& !popped.contains(v)
                        &&& rt[v] == root
                    } by {
                        assert(stack@[t] == before[t]);
                    }
                    assert forall|v: int| bitset_ones(checked).contains(v) && !popped.contains(v) implies exists|t: int| 0 <= t < stack@.len() && (#[trigger] stack@[t]).spec_usize() == v by {
                        let t = choose|t: int| 0 <= t < before.len() && (#[trigger] before[t]).spec_usize() == v;
                        assert(t < stack@.len());
                        assert(stack@[t] == before[t]);
                    }
                }
                let targets = csr.target(u);
                let ub = bitset_get(&is_black, ui);
                let mut t: usize = 0;
                while t < targets.len()
                    invariant
                        targets@ == csr.spec_out(ui as int),
                        t <= targets@.len(),
                        0 <= ui < n,
                        ub == bitset_ones(is_black).contains(ui as int),
                        csr.csr_wf(),
                        symmetric(csr),
                        n == csr.spec_len(),
                        i < n,
                        root == i,
                        n - 1 <= Idx::spec_max(),
                        cnt >= 0,
                        bitset_len(checked) == n && bitset_len(is_black) == n,
                        par.len() == n && rt.len() == n && rank.len() == n,
                        forall|v: int| 0 <= v <= i ==> bitset_ones(checked).contains(v),
                        forall|v: int| bitset_ones(is_black).contains(v) ==> bitset_ones(checked).contains(v),
                        forest(csr, bitset_ones(checked), bitset_ones(is_black), par, rt, rank),
                        forall|v: int| bitset_ones(checked).contains(v) ==> rank[v] < cnt,
                        popped.subset_of(bitset_ones(checked)),
                        popped.contains(ui as int),
                        popped.finite(),
                        popped.len() <= n,
                        stack@.no_duplicates(),
                        forall|q: int| 0 <= q < stack@.len() ==> {
                            let v = (#[trigger] stack@[q]).spec_usize();
                            &&& bitset_ones(checked).contains(v)
                            &&& !popped.contains(v)
                            &&& rt[v] == root
                        },
                        forall|v: int| bitset_ones(checked).contains(v) && !popped.contains(v) ==> exists|q: int| 0 <= q < stack@.len() && (#[trigger] stack@[q]).spec_usize() == v,
                        forall|v: int| bitset_ones(checked).contains(v) && rt[v] != root ==> popped.contains(v),
                        rt[ui as int] == root,
                        forall|x: int, k: int| popped.contains(x) && x != ui && 0 <= k < csr.spec_out(x).len() ==> {
                            let y = (#[trigger] csr.spec_out(x)[k]).0.spec_usize();
                            &&& bitset_ones(checked).contains(y)
                            &&& rt[y] == rt[x]
                            &&& bitset_ones(is_black).contains(x) != bitset_ones(is_black).contains(y)
                        },
                        forall|k: int| 0 <= k < t ==> {
                            let y = (#[trigger] csr.spec_out(ui as int)[k]).0.spec_usize();
                            &&& bitset_ones(checked).contains(y)
                            &&& rt[y] == rt[ui as int]
                            &&& ub != bitset_ones(is_black).contains(y)
                        },
                    decreases targets@.len() - t,
                {
                    let j = targets[t].0.into_usize();
                    proof {
                        csr.lemma_targets();
                        assert(0 <= csr.spec_out(ui as int)[t as int].0.spec_usize() < n);
                    }
                    if bitset_get(&checked, j) {
                        if ub == bitset_get(&is_black, j) {
                            proof {
                                lemma_conflict(csr, bitset_ones(checked), bitset_ones(is_black), par, rt, rank, popped, ui as int, t as int, root);
                            }
                            return None;
                        }
                    } else {
                        let ghost sb = stack@;
                        let ghost chk0 = bitset_ones(checked);
                        let ghost blk0 = bitset_ones(is_black);
                        bitset_insert(&mut checked, j);
                        stack.push(targets[t].0);
                        bitset_set(&mut is_black, j, !ub);
                        proof {
                            lemma_forest_grow(csr, chk0, blk0, par, rt, rank, cnt, ui as int, j as int, t as int, bitset_ones(is_black));
                            assert forall|v: int| chk0.contains(v) implies 0 <= v < rt.len() by {
                                reveal(forest);
                            }
                            lemma_push_child(csr, chk0, bitset_ones(checked), blk0, bitset_ones(is_black), rt, popped, sb, stack@,
                                targets@[t as int].0, ui as int, t as int, root, ub);
                            par = par.update(j as int, ui as int);
                            rt = rt.update(j as int, root);
                            rank = rank.update(j as int, cnt);
                            cnt = cnt + 1;
                        }
                    }
                    t += 1;
                }
            }
        }
        i += 1;
    }
    // every node is reached, and every edge joins the two colours
    let ghost col = Seq::new(n as nat, |v: int| bitset_ones(is_black).contains(v));
    proof {
        assert forall|u: int, k: int| 0 <= u < csr.spec_len() && 0 <= k < csr.spec_out(u).len() implies col[u] != col[
            (#[trigger] csr.spec_out(u)[k]).0.spec_usize()] by {
            assert(popped.contains(u));
            assert(0 <= csr.spec_out(u)[k].0.spec_usize() < n);
        }
    }
    let zero = Idx::from_usize(0);
    let mut nodes: Vec<Idx> = Vec::new();
    let mut x: usize = 0;
    while x < n
        invariant
            x <= n,
            nodes@.len() == x,
        decreases n - x,
    {
        nodes.push(zero);
        x += 1;
    }
    let mut l: usize = 0;
    let mut r: usize = n;
    let mut v: usize = 0;
    while v < n
        invariant
            n == csr.spec_len(),
            v <= n,
            l <= r <= n,
            l + (n - r) == v,
            nodes@.len() == n,
            n - 1 <= Idx::spec_max(),
            bitset_len(is_black) == n,
            col == Seq::new(n as nat, |w: int| bitset_ones(is_black).contains(w)),
            with_colour(col, true, v as int).len() == l,
            with_colour(col, false, v as int).len() == n - r,
            forall|q: int| 0 <= q < l ==> #[trigger] nodes@[q].spec_usize() == with_colour(col, true, v as int)[q],
            forall|q: int| r <= q < n ==> #[trigger] nodes@[q].spec_usize() == with_colour(col, false, v as int)[n - 1 - q],
        decreases n - v,
    {
        let ghost before = nodes@;
        proof {
            Idx::lemma_from(v as int);
        }
        if bitset_get(&is_black, v) {
            nodes.set(l, Idx::from_usize(v));
            proof {
                assert(with_colour(col, true, v as int + 1) == with_colour(col, true, v as int).push(v as int));
                assert(with_colour(col, false, v as int + 1) == with_colour(col, false, v as int));
                assert forall|q: int| 0 <= q < l + 1 implies #[trigger] nodes@[q].spec_usize() == with_colour(col, true, v as int + 1)[q] by {
                    if q < l {
                        assert(nodes@[q] == before[q]);
                    }
                }
                assert forall|q: int| r <= q < n implies #[trigger] nodes@[q].spec_usize() == with_colour(col, false, v as int + 1)[n - 1 - q] by {
                    assert(nodes@[q] == before[q]);
                }
            }
            l += 1;
        } else {
            r -= 1;
            nodes.set(r, Idx::from_usize(v));
            proof {
                assert(with_colour(col, false, v as int + 1) == with_colour(col, false, v as int).push(v as int));
                assert(with_colour(col, true, v as int + 1) == with_colour(col, true, v as int));
                assert forall|q: int| 0 <= q < l implies #[trigger] nodes@[q].spec_usize() == with_colour(col, true, v as int + 1)[q] by {
                    assert(nodes@[q] == before[q]);
                }
                assert forall|q: int| r <= q < n implies #[trigger] nodes@[q].spec_usize() == with_colour(col, false, v as int + 1)[n - 1 - q] by {
                    if q > r {
                        assert(nodes@[q] == before[q]);
                    }
                }
            }
        }
        v += 1;
    }
    proof {
        assert(l == r);
    }
    let b = BipartiteGraph { nodes, partition: l };
    proof {
        assert(b.spec_blacks() =~= with_colour(col, true, n as int));
        assert(b.spec_whites() =~= with_colour(col, false, n as int).reverse());
        assert(proper(csr, col));
    }
    Some(b)
}

} // verus!
