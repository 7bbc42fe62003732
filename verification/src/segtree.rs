//! Segment trees over a monoid, stored as a compact full binary tree.

use vstd::prelude::*;
use vstd::arithmetic::power2::{pow2, lemma_pow2_unfold, lemma_pow2_pos, lemma_pow2_strictly_increases, lemma_pow2_adds};
use crate::ops::{SemiGroup, Identity, Monoid, fold, lemma_fold_concat, lemma_fold_single, lemma_fold_ids};

verus! {

/// The number of leaves under node `v` of a tree with `off` leaves.
pub open spec fn width(v: int, off: int) -> int
    decreases off - v,
{
    if v <= 0 || v >= off { 1 } else if 2 * v >= off { 2 } else { 2 * width(2 * v, off) }
}

/// The first leaf position under node `v`.
pub open spec fn lo(v: int, off: int) -> int {
    v * width(v, off) - off
}

/// One past the last leaf position under node `v`.
pub open spec fn hi(v: int, off: int) -> int {
    (v + 1) * width(v, off) - off
}

/// The leaves: `a` followed by identities, `off` in all.
pub open spec fn padded<T: Monoid>(a: Seq<T::Value>, off: int) -> Seq<T::Value> {
    Seq::new(off as nat, |p: int| if p < a.len() { a[p] } else { T::spec_id() })
}

/// A node at depth `h` of a tree with `2^d` leaves covers `2^(d - h)` of them.
proof fn lemma_width_level(v: int, h: nat, d: nat)
    requires
        pow2(h) <= v < pow2(h + 1),
        h <= d,
    ensures
        width(v, pow2(d) as int) == pow2((d - h) as nat),
    decreases d - h,
{
    lemma_pow2_pos(h);
    if h == d {
        assert(pow2(0) == 1) by {
            vstd::arithmetic::power2::lemma2_to64();
        }
    } else {
        lemma_pow2_unfold(h + 1);
        lemma_pow2_unfold(h + 2);
        if h + 1 < d {
            lemma_pow2_strictly_increases(h + 1, d);
        }
        lemma_width_level(2 * v, h + 1, d);
        lemma_pow2_unfold((d - h) as nat);
        assert((d - h - 1) as nat == (d - (h + 1)) as nat);
    }
}

/// Every node has a depth.
proof fn lemma_depth_of(v: int, d: nat) -> (h: nat)
    requires
        1 <= v < pow2(d + 1),
    ensures
        h <= d,
        pow2(h) <= v < pow2(h + 1),
    decreases d,
{
    if d == 0 {
        assert(pow2(0) == 1 && pow2(1) == 2) by {
            vstd::arithmetic::power2::lemma2_to64();
        }
        0
    } else if v >= pow2(d) {
        d
    } else {
        lemma_depth_of(v, (d - 1) as nat)
    }
}

/// The two children of an internal node split its leaves in halves.
proof fn lemma_children(v: int, d: nat)
    requires
        1 <= v < pow2(d),
    ensures
        lo(2 * v, pow2(d) as int) == lo(v, pow2(d) as int),
        hi(2 * v, pow2(d) as int) == lo(2 * v + 1, pow2(d) as int),
        hi(2 * v + 1, pow2(d) as int) == hi(v, pow2(d) as int),
        lo(v, pow2(d) as int) < hi(v, pow2(d) as int),
{
    let off = pow2(d) as int;
    lemma_pow2_unfold(d + 1);
    let h = lemma_depth_of(v, d);
    assert(h < d) by {
        if h == d {
            assert(v >= pow2(d));
        }
    }
    lemma_width_level(v, h, d);
    lemma_pow2_unfold(h + 1);
    lemma_pow2_unfold(h + 2);
    lemma_width_level(2 * v, h + 1, d);
    lemma_width_level(2 * v + 1, h + 1, d);
    lemma_pow2_unfold((d - h) as nat);
    assert((d - h - 1) as nat == (d - (h + 1)) as nat);
    let w = width(2 * v, off);
    assert(width(v, off) == 2 * w);
    assert(2 * v * w == v * (2 * w)) by (nonlinear_arith);
    assert((2 * v + 1) * w == 2 * v * w + w) by (nonlinear_arith);
    assert((2 * v + 2) * w == (v + 1) * (2 * w)) by (nonlinear_arith);
    lemma_pow2_pos((d - h - 1) as nat);
    assert(v * (2 * w) < (v + 1) * (2 * w)) by (nonlinear_arith)
        requires w > 0;
}

/// A leaf covers itself.
proof fn lemma_leaf(v: int, d: nat)
    requires
        pow2(d) <= v,
    ensures
        lo(v, pow2(d) as int) == v - pow2(d),
        hi(v, pow2(d) as int) == v - pow2(d) + 1,
{
}

/// Every node's leaves lie within the tree.
proof fn lemma_node_range(v: int, d: nat)
    requires
        1 <= v < pow2(d + 1),
    ensures
        0 <= lo(v, pow2(d) as int) < hi(v, pow2(d) as int) <= pow2(d),
{
    let off = pow2(d) as int;
    let h = lemma_depth_of(v, d);
    lemma_width_level(v, h, d);
    let w = pow2((d - h) as nat) as int;
    lemma_pow2_adds(h, (d - h) as nat);
    lemma_pow2_adds(h + 1, (d - h) as nat);
    lemma_pow2_unfold(d + 1);
    lemma_pow2_pos((d - h) as nat);
    assert(pow2(h) * w == off);
    assert(pow2(h + 1) * w == 2 * off);
    assert(pow2(h) * w <= v * w) by (nonlinear_arith)
        requires pow2(h) <= v, w > 0;
    assert((v + 1) * w <= pow2(h + 1) * w) by (nonlinear_arith)
        requires v + 1 <= pow2(h + 1), w > 0;
    assert(v * w < (v + 1) * w) by (nonlinear_arith)
        requires w > 0;
}

/// A segment tree: node `v` holds the fold of the leaves it covers.
pub struct Segtree<T: Monoid> {
    data: Vec<T::Value>,
    offset: usize,
    net_leaves: usize,
    leaves: Ghost<Seq<T::Value>>,
    depth: Ghost<nat>,
}

impl<T: Monoid> Segtree<T> {
    /// The sequence the tree stands for.
    pub closed spec fn view_seq(&self) -> Seq<T::Value> {
        self.leaves@
    }

    pub closed spec fn wf(&self) -> bool {
        let off = self.offset as int;
        let n = self.net_leaves as int;
        &&& self.leaves@.len() == n
        &&& off == pow2(self.depth@)
        &&& n <= off
        &&& self.data@.len() == off + n + n % 2
        &&& self.data@.len() <= usize::MAX
        &&& self.data@[0] == T::spec_id()
        &&& (off == 1 || off < 2 * n)
        &&& forall|v: int| 1 <= v < self.data@.len() && v < 2 * off ==> #[trigger] self.data@[v] == fold::<T>(
            padded::<T>(self.leaves@, off).subrange(lo(v, off), hi(v, off)),
        )
    }
}

/// The fold of the leaves past the end of `a` is the identity.
proof fn lemma_fold_padding<T: Monoid>(a: Seq<T::Value>, off: int, l: int, h: int)
    requires
        a.len() <= l <= h <= off,
    ensures
        fold::<T>(padded::<T>(a, off).subrange(l, h)) == T::spec_id(),
{
    lemma_fold_ids::<T>(padded::<T>(a, off).subrange(l, h));
}

/// The fold of all leaves is the fold of `a`.
proof fn lemma_fold_all<T: Monoid>(a: Seq<T::Value>, off: int)
    requires
        a.len() <= off,
    ensures
        fold::<T>(padded::<T>(a, off).subrange(0, off)) == fold::<T>(a),
{
    let p = padded::<T>(a, off);
    assert(p.subrange(0, off) =~= a + p.subrange(a.len() as int, off));
    lemma_fold_concat::<T>(a, p.subrange(a.len() as int, off));
    lemma_fold_padding::<T>(a, off, a.len() as int, off);
    T::lemma_id(fold::<T>(a));
}

impl<T: Monoid> Segtree<T> {
    /// Builds the tree over `value`.
    pub fn from(value: Vec<T::Value>) -> (r: Self)
        where T::Value: Copy,
        requires
            value@.len() < usize::MAX / 2,
        ensures
            r.wf(),
            r.view_seq() == value@,
    {
        let ghost a = value@;
        let n = value.len();
        let mut offset: usize = 1;
        let ghost mut d: nat = 0;
        proof {
            assert(pow2(0) == 1) by {
                vstd::arithmetic::power2::lemma2_to64();
            }
        }
        while offset < n
            invariant
                offset == pow2(d),
                1 <= offset,
                n < usize::MAX / 2,
                offset < 2 * n || offset == 1,
            decreases 2 * n - offset,
        {
            proof {
                lemma_pow2_unfold(d + 1);
            }
            offset = offset * 2;
            proof {
                d = d + 1;
            }
        }
        proof {
            lemma_pow2_fits(d);
            lemma_pow2_unfold(d + 1);
            if d >= 1 {
                lemma_pow2_unfold(d);
            }
        }
        let capacity = offset + n + n % 2;
        let mut data: Vec<T::Value> = Vec::new();
        let mut i: usize = 0;
        while i < offset
            invariant
                i <= offset,
                data@.len() == i,
                forall|p: int| 0 <= p < i ==> #[trigger] data@[p] == T::spec_id(),
            decreases offset - i,
        {
            data.push(T::id());
            i += 1;
        }
        let mut i: usize = 0;
        while i < n
            invariant
                i <= n,
                n == a.len(),
                value@ == a,
                data@.len() == offset + i,
                forall|p: int| 0 <= p < offset ==> #[trigger] data@[p] == T::spec_id(),
                forall|p: int| 0 <= p < i ==> #[trigger] data@[offset + p] == a[p],
            decreases n - i,
        {
            data.push(value[i]);
            i += 1;
        }
        let ghost before_pad = data@;
        if data.len() != capacity {
            data.push(T::id());
        }
        proof {
            assert forall|p: int| 0 <= p < offset + n implies #[trigger] data@[p] == before_pad[p] by {}
            if n % 2 == 1 {
                assert(data@[offset + n] == T::spec_id());
            }
        }
        let ghost pad = padded::<T>(a, offset as int);
        let ghost off = offset as int;
        proof {
            lemma_pow2_unfold(d + 1);
            assert forall|p: int| 0 <= p < capacity && p < 2 * off implies #[trigger] data@[p] == if p < off { T::spec_id() } else { pad[p - off] } by {
                if off <= p < off + n {
                    assert(data@[off + (p - off)] == a[p - off]);
                } else if p >= off + n {
                    assert(p == off + n);
                    assert(n < off);
                }
            }
            lemma_built_leaves::<T>(data@, a, off, d, capacity as int);
        }
        let mut i: usize = if capacity / 2 == 0 { 1 } else { capacity / 2 };
        while i > 1
            invariant
                1 <= i <= capacity / 2 || (i == 1 && capacity / 2 == 0),
                off == offset,
                offset == pow2(d),
                n <= offset,
                capacity == offset + n + n % 2,
                data@.len() == capacity,
                pad == padded::<T>(a, off),
                data@[0] == T::spec_id(),
                forall|v: int| i <= v < capacity && v < 2 * off ==> #[trigger] data@[v] == fold::<T>(
                    pad.subrange(lo(v, off), hi(v, off))),
            decreases i,
        {
            i -= 1;
            proof {
                assert(i < off) by {
                    if d >= 1 {
                        lemma_pow2_unfold(d);
                    }
                }
                lemma_pow2_unfold(d + 1);
                lemma_children(i as int, d);
                lemma_node_range(2 * i as int, d);
                lemma_node_range(2 * i + 1, d);
                let l = lo(i as int, off);
                let m = hi(2 * i as int, off);
                let h = hi(i as int, off);
                assert(pad.subrange(l, h) =~= pad.subrange(l, m) + pad.subrange(m, h));
                lemma_fold_concat::<T>(pad.subrange(l, m), pad.subrange(m, h));
            }
            let x = T::op(data[2 * i], data[2 * i + 1]);
            data.set(i, x);
        }
        Segtree { data, offset, net_leaves: n, leaves: Ghost(a), depth: Ghost(d) }
    }

    /// The fold of the whole sequence.
    pub fn range_full_query(&self) -> (r: T::Value)
        where T::Value: Copy,
        requires
            self.wf(),
            self.view_seq().len() >= 1,
        ensures
            r == fold::<T>(self.view_seq()),
    {
        proof {
            let off = self.offset as int;
            lemma_pow2_pos(self.depth@);
            lemma_pow2_unfold(self.depth@ + 1);
            assert(pow2(0) == 1) by {
                vstd::arithmetic::power2::lemma2_to64();
            }
            vstd::arithmetic::power2::lemma2_to64();
            lemma_width_level(1, 0, self.depth@);
            assert(lo(1, off) == 0 && hi(1, off) == off) by {
                assert(width(1, off) == off);
            }
            lemma_fold_all::<T>(self.leaves@, off);
        }
        self.data[1]
    }
}

/// Before the internal nodes are built, the leaves and the nodes past the middle of the
/// storage already hold their folds.
proof fn lemma_built_leaves<T: Monoid>(data: Seq<T::Value>, a: Seq<T::Value>, off: int, d: nat, cap: int)
    requires
        off == pow2(d),
        a.len() <= off,
        data.len() == cap,
        cap == off + a.len() + a.len() % 2,
        forall|p: int| 0 <= p < cap && p < 2 * off ==> #[trigger] data[p] == if p < off { T::spec_id() } else { padded::<T>(a, off)[p - off] },
    ensures
        forall|v: int| 1 <= v && cap / 2 <= v < cap && v < 2 * off ==> #[trigger] data[v] == fold::<T>(
            padded::<T>(a, off).subrange(lo(v, off), hi(v, off))),
{
    let pad = padded::<T>(a, off);
    lemma_pow2_unfold(d + 1);
    if d >= 1 {
        lemma_pow2_unfold(d);
    }
    assert forall|v: int| 1 <= v && cap / 2 <= v < cap && v < 2 * off implies #[trigger] data[v] == fold::<T>(
        pad.subrange(lo(v, off), hi(v, off))) by {
        lemma_node_range(v, d);
        if v >= off {
            lemma_leaf(v, d);
            assert(pad.subrange(v - off, v - off + 1) =~= seq![pad[v - off]]);
            lemma_fold_single::<T>(pad[v - off]);
        } else {
            lemma_width_at_least_two(v, d);
            assert(d >= 1) by {
                if d == 0 {
                    vstd::arithmetic::power2::lemma2_to64();
                }
            }
            assert(off % 2 == 0);
            assert(cap % 2 == 0);
            assert(2 * (cap / 2) == cap);
            lemma_fold_padding::<T>(a, off, lo(v, off), hi(v, off));
        }
    }
}

/// A power of two that fits in a `usize` fits twice in it.
proof fn lemma_pow2_fits(d: nat)
    requires
        pow2(d) <= usize::MAX,
    ensures
        2 * pow2(d) <= usize::MAX + 1,
{
    vstd::arithmetic::power2::lemma2_to64();
    vstd::arithmetic::power2::lemma2_to64_rest();
    if d >= 64 {
        lemma_pow2_strictly_increases(64, d);
    } else if d >= 32 && d < 64 {
        if d > 32 {
            lemma_pow2_strictly_increases(32, d);
        }
        if d < 63 {
            lemma_pow2_strictly_increases(d, 63);
        }
        lemma_pow2_unfold(d + 1);
        if d + 1 < 64 {
            lemma_pow2_strictly_increases(d + 1, 64);
        }
    } else {
        lemma_pow2_unfold(d + 1);
        if d + 1 < 32 {
            lemma_pow2_strictly_increases(d + 1, 32);
        }
    }
}

/// An internal node covers at least two leaves, lying past the middle of the tree.
proof fn lemma_width_at_least_two(v: int, d: nat)
    requires
        1 <= v < pow2(d),
    ensures
        width(v, pow2(d) as int) >= 2,
        lo(v, pow2(d) as int) >= 2 * v - pow2(d),
{
    let off = pow2(d) as int;
    lemma_pow2_unfold(d + 1);
    let h = lemma_depth_of(v, d);
    assert(h < d) by {
        if h == d {
            assert(v >= pow2(d));
        }
    }
    lemma_width_level(v, h, d);
    lemma_pow2_unfold((d - h) as nat);
    lemma_pow2_pos((d - h - 1) as nat);
    let w = width(v, off);
    assert(v * w >= 2 * v) by (nonlinear_arith)
        requires w >= 2, v >= 1;
}

/// Two nodes of one width covering one leaf are the same node.
proof fn lemma_unique_cover(v1: int, v2: int, off: int, p: int)
    requires
        width(v1, off) == width(v2, off),
        width(v1, off) >= 1,
        lo(v1, off) <= p < hi(v1, off),
        lo(v2, off) <= p < hi(v2, off),
    ensures
        v1 == v2,
{
    let w = width(v1, off);
    assert(v1 * w <= p + off < (v1 + 1) * w);
    assert(v2 * w <= p + off < (v2 + 1) * w);
    if v1 < v2 {
        assert((v1 + 1) * w <= v2 * w) by (nonlinear_arith)
            requires v1 + 1 <= v2, w >= 1;
    } else if v2 < v1 {
        assert((v2 + 1) * w <= v1 * w) by (nonlinear_arith)
            requires v2 + 1 <= v1, w >= 1;
    }
}

/// The widths of nodes are powers of two no larger than the number of leaves; a parent is twice
/// as wide as its child.
proof fn lemma_width_facts(v: int, d: nat) -> (h: nat)
    requires
        1 <= v < pow2(d + 1),
    ensures
        h <= d,
        width(v, pow2(d) as int) == pow2((d - h) as nat),
        1 <= width(v, pow2(d) as int) <= pow2(d),
        v >= 2 ==> width(v / 2, pow2(d) as int) == 2 * width(v, pow2(d) as int),
        v == 1 ==> width(v, pow2(d) as int) == pow2(d),
{
    let h = lemma_depth_of(v, d);
    lemma_width_level(v, h, d);
    lemma_pow2_pos((d - h) as nat);
    if (d - h) < d {
        lemma_pow2_strictly_increases((d - h) as nat, d);
    }
    if v >= 2 {
        assert(h >= 1) by {
            if h == 0 {
                vstd::arithmetic::power2::lemma2_to64();
            }
        }
        lemma_pow2_unfold(h);
        lemma_pow2_unfold(h + 1);
        lemma_width_level(v / 2, (h - 1) as nat, d);
        lemma_pow2_unfold((d - h + 1) as nat);
        assert((d - (h - 1)) as nat == (d - h + 1) as nat);
    }
    if v == 1 {
        if h >= 1 {
            lemma_pow2_unfold(h);
            lemma_pow2_pos((h - 1) as nat);
        }
        assert(h == 0);
    }
    h
}

/// A power of two strictly above `2^a` and at most `2^(a + 1)` is `2^(a + 1)`.
proof fn lemma_pow2_squeeze(a: nat, b: nat)
    requires
        pow2(a) < pow2(b) <= pow2(a + 1),
    ensures
        b == a + 1,
{
    if b <= a {
        if b < a {
            lemma_pow2_strictly_increases(b, a);
        }
    } else if b > a + 1 {
        lemma_pow2_strictly_increases(a + 1, b);
    }
}

impl<T: Monoid> Segtree<T> {
    /// Replaces element `i` by `f` applied to it.
    pub fn point_update_with<F: FnOnce(T::Value) -> T::Value>(&mut self, i: usize, f: F)
        where T::Value: Copy,
        requires
            old(self).wf(),
            i < old(self).view_seq().len(),
            call_requires(f, (old(self).view_seq()[i as int],)),
        ensures
            final(self).wf(),
            final(self).view_seq().len() == old(self).view_seq().len(),
            forall|j: int| 0 <= j < old(self).view_seq().len() && j != i ==> final(self).view_seq()[j] == old(self).view_seq()[j],
            call_ensures(f, (old(self).view_seq()[i as int],), final(self).view_seq()[i as int]),
    {
        let ghost a = self.leaves@;
        let ghost off = self.offset as int;
        let ghost d = self.depth@;
        let ghost n = self.net_leaves as int;
        let ghost pos = i as int;
        let leaf = self.offset + i;
        proof {
            lemma_pow2_unfold(d + 1);
            lemma_leaf(leaf as int, d);
            assert(padded::<T>(a, off).subrange(pos, pos + 1) =~= seq![a[pos]]);
            lemma_fold_single::<T>(a[pos]);
        }
        let cur = self.data[leaf];
        let y = f(cur);
        self.data.set(leaf, y);
        let ghost b = a.update(pos, y);
        proof {
            self.leaves = Ghost(b);
            let pa = padded::<T>(a, off);
            let pb = padded::<T>(b, off);
            // nodes away from the leaf keep their folds; the leaf holds the new element
            assert forall|v: int| 1 <= v < self.data@.len() && v < 2 * off && (!(lo(v, off) <= pos < hi(v, off))
                || width(v, off) <= width(leaf as int, off)) implies #[trigger] self.data@[v] == fold::<T>(
                pb.subrange(lo(v, off), hi(v, off))) by {
                lemma_node_range(v, d);
                if lo(v, off) <= pos < hi(v, off) {
                    lemma_width_facts(v, d);
                    lemma_width_facts(leaf as int, d);
                    lemma_unique_cover(v, leaf as int, off, pos);
                    assert(pb.subrange(pos, pos + 1) =~= seq![y]);
                    lemma_fold_single::<T>(y);
                } else {
                    assert(pb.subrange(lo(v, off), hi(v, off)) =~= pa.subrange(lo(v, off), hi(v, off)));
                }
            }
        }
        let mut c = leaf;
        while c > 1
            invariant
                1 <= c < 2 * off,
                off == self.offset,
                off == pow2(d),
                d == self.depth@,
                n == self.net_leaves,
                0 <= pos < n,
                n <= off,
                self.leaves@ == b,
                b.len() == n,
                self.data@.len() == off + n + n % 2,
                self.data@.len() <= usize::MAX,
                self.data@[0] == T::spec_id(),
                lo(c as int, off) <= pos < hi(c as int, off),
                c < self.data@.len(),
                forall|v: int| 1 <= v < self.data@.len() && v < 2 * off && (!(lo(v, off) <= pos < hi(v, off))
                    || width(v, off) <= width(c as int, off)) ==> #[trigger] self.data@[v] == fold::<T>(
                    padded::<T>(b, off).subrange(lo(v, off), hi(v, off))),
            decreases c,
        {
            let ghost old_c = c as int;
            let ghost old_data = self.data@;
            c = c / 2;
            proof {
                lemma_pow2_unfold(d + 1);
                lemma_width_facts(old_c, d);
                lemma_children(c as int, d);
                lemma_node_range(c as int, d);
                lemma_node_range(2 * c as int, d);
                lemma_node_range(2 * c + 1, d);
                assert(c < off) by {
                    lemma_width_facts(c as int, d);
                    if c >= off {
                        assert(width(c as int, off) == 1);
                    }
                }
                lemma_width_facts(2 * c as int, d);
                lemma_width_facts(2 * c + 1, d);
                assert((2 * c + 1) / 2 == c as int);
                // both children are valid: one is `old_c`, the other does not hold the leaf
                let pb = padded::<T>(b, off);
                let l = lo(c as int, off);
                let m = hi(2 * c as int, off);
                let h = hi(c as int, off);
                assert(pb.subrange(l, h) =~= pb.subrange(l, m) + pb.subrange(m, h));
                lemma_fold_concat::<T>(pb.subrange(l, m), pb.subrange(m, h));
                assert(2 * c + 1 < self.data@.len()) by {
                    assert(old_c < off + n + n % 2);
                    assert(d >= 1) by {
                        if d == 0 {
                            vstd::arithmetic::power2::lemma2_to64();
                        }
                    }
                    lemma_pow2_unfold(d);
                    assert(off % 2 == 0);
                }
            }
            let x = T::op(self.data[2 * c], self.data[2 * c + 1]);
            self.data.set(c, x);
            proof {
                let pb = padded::<T>(b, off);
                assert forall|v: int| 1 <= v < self.data@.len() && v < 2 * off && (!(lo(v, off) <= pos < hi(v, off))
                    || width(v, off) <= width(c as int, off)) implies #[trigger] self.data@[v] == fold::<T>(
                    pb.subrange(lo(v, off), hi(v, off))) by {
                    if v != c as int {
                        assert(self.data@[v] == old_data[v]);
                        if lo(v, off) <= pos < hi(v, off) && width(v, off) > width(old_c, off) {
                            let hv = lemma_width_facts(v, d);
                            let ho = lemma_width_facts(old_c, d);
                            lemma_width_facts(c as int, d);
                            lemma_pow2_unfold((d - ho + 1) as nat);
                            lemma_pow2_squeeze((d - ho) as nat, (d - hv) as nat);
                            lemma_unique_cover(v, c as int, off, pos);
                        }
                    }
                }
            }
        }
        proof {
            lemma_width_facts(1, d);
            assert forall|v: int| 1 <= v < self.data@.len() && v < 2 * off implies #[trigger] self.data@[v] == fold::<T>(
                padded::<T>(b, off).subrange(lo(v, off), hi(v, off))) by {
                lemma_width_facts(v, d);
            }
        }
    }
}

/// `x` with its trailing zero bits shifted out, and how many there were.
fn strip(x: usize) -> (r: (usize, Ghost<nat>))
    requires
        x >= 1,
    ensures
        r.0 * pow2(r.1@) == x,
        r.0 % 2 == 1,
        1 <= r.0 <= x,
{
    let mut y = x;
    let ghost mut t: nat = 0;
    proof {
        vstd::arithmetic::power2::lemma2_to64();
    }
    while y % 2 == 0
        invariant
            y >= 1,
            y * pow2(t) == x,
            y <= x,
        decreases y,
    {
        proof {
            lemma_pow2_unfold(t + 1);
            assert((y / 2) * pow2(t + 1) == y * pow2(t)) by (nonlinear_arith)
                requires y % 2 == 0, pow2(t + 1) == 2 * pow2(t);
        }
        y = y / 2;
        proof {
            t = t + 1;
        }
    }
    (y, Ghost(t))
}

/// A node given as `l * 2^t` within the leaves has width `2^t`.
proof fn lemma_width_of_scaled(l: int, t: nat, d: nat)
    requires
        l >= 1,
        pow2(d) <= l * pow2(t) < 2 * pow2(d),
    ensures
        width(l, pow2(d) as int) == pow2(t),
        l < 2 * pow2(d),
{
    lemma_pow2_pos(t);
    lemma_pow2_unfold(d + 1);
    assert(l <= l * pow2(t)) by (nonlinear_arith)
        requires pow2(t) >= 1, l >= 1;
    let h = lemma_depth_of(l, d);
    lemma_width_level(l, h, d);
    // `2^h <= l < 2^(h + 1)` and `2^d <= l 2^t < 2^(d + 1)` give `h + t == d`
    lemma_pow2_adds(h, t);
    lemma_pow2_adds(h + 1, t);
    assert(pow2(h) * pow2(t) <= l * pow2(t)) by (nonlinear_arith)
        requires pow2(h) <= l, pow2(t) >= 1;
    assert(l * pow2(t) < pow2(h + 1) * pow2(t)) by (nonlinear_arith)
        requires l < pow2(h + 1), pow2(t) >= 1;
    if h + t < d {
        lemma_pow2_strictly_increases(h + t + 1, d + 1);
        lemma_pow2_unfold(d + 1);
        if h + t + 1 < d {
            lemma_pow2_strictly_increases(h + t + 1, d);
        }
    } else if h + t > d {
        lemma_pow2_strictly_increases(d + 1, h + t + 1);
        if d + 1 < h + t {
            lemma_pow2_strictly_increases(d + 1, h + t);
        }
    }
    assert(h + t == d);
    assert((d - h) as nat == t);
}

/// Taking node `l` (when `l >= r`) stays within `[L, R)`.
proof fn lemma_fit_left(l: int, r: int, tl: nat, tr: nat, big_l: int, big_r: int, off: int)
    requires
        1 <= r <= l,
        l * pow2(tl) == big_l + off,
        r * pow2(tr) == big_r + off,
        big_l < big_r,
    ensures
        big_l + pow2(tl) <= big_r,
{
    lemma_pow2_pos(tl);
    lemma_pow2_pos(tr);
    if tr >= tl {
        lemma_pow2_adds(tl, (tr - tl) as nat);
        let q = pow2((tr - tl) as nat);
        let w = pow2(tl);
        assert(r * pow2(tr) == (r * q) * w) by (nonlinear_arith)
            requires pow2(tr) == w * q;
        assert((r * q) * w - l * w == (r * q - l) * w) by (nonlinear_arith);
        assert((r * q - l) * w >= w) by (nonlinear_arith)
            requires (r * q - l) * w > 0, w >= 1;
    } else {
        lemma_pow2_adds(tr, (tl - tr) as nat);
        let q = pow2((tl - tr) as nat);
        lemma_pow2_unfold((tl - tr) as nat);
        lemma_pow2_pos((tl - tr - 1) as nat);
        let w = pow2(tr);
        assert(l * pow2(tl) == (l * q) * w) by (nonlinear_arith)
            requires pow2(tl) == w * q;
        assert(l * q < r) by (nonlinear_arith)
            requires (l * q) * w < r * w, w >= 1;
        assert(l * q >= 2 * l) by (nonlinear_arith)
            requires q >= 2, l >= 1;
    }
}

/// Taking node `r - 1` (when `l < r`) stays within `[L, R)`.
proof fn lemma_fit_right(l: int, r: int, tl: nat, tr: nat, big_l: int, big_r: int, off: int)
    requires
        1 <= l < r,
        l * pow2(tl) == big_l + off,
        r * pow2(tr) == big_r + off,
        big_l < big_r,
    ensures
        big_l <= big_r - pow2(tr),
{
    lemma_pow2_pos(tl);
    lemma_pow2_pos(tr);
    if tl >= tr {
        lemma_pow2_adds(tr, (tl - tr) as nat);
        let q = pow2((tl - tr) as nat);
        let w = pow2(tr);
        assert(l * pow2(tl) == (l * q) * w) by (nonlinear_arith)
            requires pow2(tl) == w * q;
        assert(r * w - (l * q) * w == (r - l * q) * w) by (nonlinear_arith);
        assert((r - l * q) * w >= w) by (nonlinear_arith)
            requires (r - l * q) * w > 0, w >= 1;
    } else {
        lemma_pow2_adds(tl, (tr - tl) as nat);
        let q = pow2((tr - tl) as nat);
        lemma_pow2_unfold((tr - tl) as nat);
        lemma_pow2_pos((tr - tl - 1) as nat);
        let w = pow2(tl);
        assert(r * pow2(tr) == (r * q) * w) by (nonlinear_arith)
            requires pow2(tr) == w * q;
        if big_r - pow2(tr) < big_l {
            assert((r - 1) * q * w == r * q * w - q * w) by (nonlinear_arith);
            assert(pow2(tr) == q * w) by (nonlinear_arith)
                requires pow2(tr) == w * q;
            assert((r - 1) * q < l) by (nonlinear_arith)
                requires (r - 1) * q * w < l * w, w >= 1;
            assert((r - 1) * q >= 2 * (r - 1)) by (nonlinear_arith)
                requires q >= 2, r >= 1;
        }
    }
}

/// An odd number times a power of two determines both.
proof fn lemma_odd_part(l: int, tl: nat, r: int, tr: nat)
    requires
        l % 2 == 1,
        r % 2 == 1,
        l >= 1,
        r >= 1,
        l * pow2(tl) == r * pow2(tr),
    ensures
        l == r,
{
    if tl != tr {
        let (x, tx, y, ty) = if tl < tr { (l, tl, r, tr) } else { (r, tr, l, tl) };
        // `x 2^tx == y 2^ty` with `tx < ty`: `x == y 2^(ty - tx)` is even
        lemma_pow2_adds(tx, (ty - tx) as nat);
        lemma_pow2_pos(tx);
        let q = pow2((ty - tx) as nat);
        let w = pow2(tx);
        assert(x * w == (y * q) * w) by (nonlinear_arith)
            requires x * pow2(tx) == y * pow2(ty), pow2(ty) == w * q, w == pow2(tx);
        assert(x == y * q) by (nonlinear_arith)
            requires x * w == (y * q) * w, w >= 1;
        lemma_pow2_unfold((ty - tx) as nat);
        let m = pow2((ty - tx - 1) as nat);
        assert(y * q == (y * m) * 2) by (nonlinear_arith)
            requires q == 2 * m;
        vstd::arithmetic::div_mod::lemma_mod_multiples_basic(y * m, 2);
    } else {
        lemma_pow2_pos(tl);
        assert(l == r) by (nonlinear_arith)
            requires l * pow2(tl) == r * pow2(tl), pow2(tl) >= 1;
    }
}

/// With the same odd part, positions no further apart than allowed are equal.
proof fn lemma_meet(l: int, tl: nat, tr: nat, big_l: int, big_r: int, off: int)
    requires
        l >= 1,
        l * pow2(tl) == big_l + off,
        l * pow2(tr) == big_r + off,
        0 <= big_l <= big_r <= off,
        big_l > 0 || big_r < off,
    ensures
        big_l == big_r,
{
    if tl < tr {
        lemma_pow2_strictly_increases(tl, tr);
        lemma_pow2_adds(tl, (tr - tl) as nat);
        lemma_pow2_unfold((tr - tl) as nat);
        lemma_pow2_pos((tr - tl - 1) as nat);
        let q = pow2((tr - tl) as nat);
        let w = pow2(tl);
        assert(l * pow2(tr) == (l * w) * q) by (nonlinear_arith)
            requires pow2(tr) == w * q;
        assert((l * w) * q >= 2 * (l * w)) by (nonlinear_arith)
            requires q >= 2, l * w >= 0;
    } else if tl > tr {
        lemma_pow2_strictly_increases(tr, tl);
        assert(l * pow2(tr) < l * pow2(tl)) by (nonlinear_arith)
            requires pow2(tr) < pow2(tl), l >= 1;
    }
}

impl<T: Monoid> Segtree<T> {
    /// The fold of the elements in `range`; the identity when the range is empty.
    pub fn range_query(&self, range: core::ops::Range<usize>) -> (res: T::Value)
        where T::Value: Copy,
        requires
            self.wf(),
            range.end <= self.view_seq().len(),
        ensures
            res == if range.start < range.end {
                fold::<T>(self.view_seq().subrange(range.start as int, range.end as int))
            } else {
                T::spec_id()
            },
    {
        if range.start >= range.end {
            return T::id();
        }
        let ghost a = self.leaves@;
        let ghost off = self.offset as int;
        let ghost d = self.depth@;
        let ghost n = self.net_leaves as int;
        let ghost pad = padded::<T>(a, off);
        let s = range.start;
        let e = range.end;
        let (mut l, Ghost(tl0)) = strip(s + self.offset);
        let (mut r, Ghost(tr0)) = strip(e + self.offset);
        let ghost mut tl = tl0;
        let ghost mut tr = tr0;
        let ghost mut big_l = s as int;
        let ghost mut big_r = e as int;
        let mut acc_l = T::id();
        let mut acc_r = T::id();
        proof {
            assert(a.subrange(s as int, s as int) =~= Seq::<T::Value>::empty());
            assert(a.subrange(e as int, e as int) =~= Seq::<T::Value>::empty());
        }
        loop
            invariant_except_break
                big_l < big_r,
            invariant
                self.wf(),
                a == self.leaves@,
                off == self.offset,
                d == self.depth@,
                n == self.net_leaves,
                pad == padded::<T>(a, off),
                s <= big_l <= big_r <= e,
                e <= n,
                l * pow2(tl) == big_l + off,
                r * pow2(tr) == big_r + off,
                l >= 1 && r >= 1,
                l % 2 == 1 && r % 2 == 1,
                acc_l == fold::<T>(a.subrange(s as int, big_l)),
                acc_r == fold::<T>(a.subrange(big_r, e as int)),
            ensures
                s <= big_l == big_r <= e,
                acc_l == fold::<T>(a.subrange(s as int, big_l)),
                acc_r == fold::<T>(a.subrange(big_r, e as int)),
            decreases big_r - big_l,
        {
            proof {
                lemma_pow2_unfold(d + 1);
                assert(off == pow2(d) && n <= off);
            }
            if l >= r {
                proof {
                    lemma_fit_left(l as int, r as int, tl, tr, big_l, big_r, off);
                    lemma_width_of_scaled(l as int, tl, d);
                    let w = pow2(tl) as int;
                    assert(lo(l as int, off) == big_l && hi(l as int, off) == big_l + w) by {
                        assert((l + 1) * w == l * w + w) by (nonlinear_arith);
                    }
                    assert(l as int <= l * pow2(tl)) by (nonlinear_arith)
                        requires pow2(tl) >= 1, l >= 1;
                    assert(pad.subrange(big_l, big_l + w) =~= a.subrange(big_l, big_l + w));
                    assert(a.subrange(s as int, big_l + w) =~= a.subrange(s as int, big_l) + a.subrange(big_l, big_l + w));
                    lemma_fold_concat::<T>(a.subrange(s as int, big_l), a.subrange(big_l, big_l + w));
                }
                acc_l = T::op(acc_l, self.data[l]);
                let ghost w = pow2(tl) as int;
                let (l2, Ghost(t2)) = strip(l + 1);
                proof {
                    lemma_pow2_adds(tl, t2);
                    assert(l2 * pow2(tl + t2) == (l + 1) * pow2(tl)) by (nonlinear_arith)
                        requires l2 * pow2(t2) == l + 1, pow2(tl + t2) == pow2(tl) * pow2(t2);
                    assert((l + 1) * w == l * w + w) by (nonlinear_arith);
                    lemma_pow2_pos(tl);
                    big_l = big_l + w;
                    tl = tl + t2;
                    assert(big_l > 0);
                }
                l = l2;
            } else {
                proof {
                    lemma_fit_right(l as int, r as int, tl, tr, big_l, big_r, off);
                    let w = pow2(tr) as int;
                    lemma_pow2_pos(tr);
                    assert((r - 1) * w == r * w - w) by (nonlinear_arith);
                    assert((r - 1) * pow2(tr) == big_r - w + off);
                    assert(pow2(d) <= (r - 1) * pow2(tr));
                    assert((r - 1) * pow2(tr) < 2 * pow2(d));
                    lemma_width_of_scaled(r - 1, tr, d);
                    assert(lo(r - 1, off) == big_r - w && hi(r - 1, off) == big_r) by {
                        assert((r - 1 + 1) * w == r * w) by (nonlinear_arith);
                    }
                    assert(r - 1 <= (r - 1) * pow2(tr)) by (nonlinear_arith)
                        requires pow2(tr) >= 1, r >= 2;
                    assert(pad.subrange(big_r - w, big_r) =~= a.subrange(big_r - w, big_r));
                    assert(a.subrange(big_r - w, e as int) =~= a.subrange(big_r - w, big_r) + a.subrange(big_r, e as int));
                    lemma_fold_concat::<T>(a.subrange(big_r - w, big_r), a.subrange(big_r, e as int));
                }
                r -= 1;
                acc_r = T::op(self.data[r], acc_r);
                let ghost w = pow2(tr) as int;
                let (r2, Ghost(t2)) = strip(r);
                proof {
                    lemma_pow2_adds(tr, t2);
                    assert(r2 * pow2(tr + t2) == r * pow2(tr)) by (nonlinear_arith)
                        requires r2 * pow2(t2) == r, pow2(tr + t2) == pow2(tr) * pow2(t2);
                    lemma_pow2_pos(tr);
                    big_r = big_r - w;
                    tr = tr + t2;
                    assert(big_r < off);
                }
                r = r2;
            }
            if l == r {
                proof {
                    lemma_meet(l as int, tl, tr, big_l, big_r, off);
                }
                break;
            }
            proof {
                if big_l == big_r {
                    lemma_odd_part(l as int, tl, r as int, tr);
                }
            }
        }
        proof {
            assert(a.subrange(s as int, e as int) =~= a.subrange(s as int, big_l) + a.subrange(big_l, e as int));
            lemma_fold_concat::<T>(a.subrange(s as int, big_l), a.subrange(big_l, e as int));
        }
        T::op(acc_l, acc_r)
    }
}

/// `pred` accepts `x`.
pub open spec fn accepts<V, F: Fn(V) -> bool>(pred: F, x: V) -> bool {
    call_ensures(pred, (x,), true)
}

/// `pred` rejects `x`.
pub open spec fn rejects<V, F: Fn(V) -> bool>(pred: F, x: V) -> bool {
    call_ensures(pred, (x,), false)
}

/// `pred` may be called on any value, and answers each value the same way every time.
pub open spec fn steady<V, F: Fn(V) -> bool>(pred: F) -> bool {
    &&& forall|x: V| call_requires(pred, (x,))
    &&& forall|x: V, b: bool| call_ensures(pred, (x,), b) ==> b == accepts(pred, x)
}

/// Over the padding the fold does not change.
proof fn lemma_fold_past_end<T: Monoid>(a: Seq<T::Value>, off: int, s: int, e: int)
    requires
        0 <= s <= a.len() <= e <= off,
    ensures
        fold::<T>(padded::<T>(a, off).subrange(s, e)) == fold::<T>(a.subrange(s, a.len() as int)),
{
    let pad = padded::<T>(a, off);
    let n = a.len() as int;
    assert(pad.subrange(s, e) =~= a.subrange(s, n) + pad.subrange(n, e));
    lemma_fold_concat::<T>(a.subrange(s, n), pad.subrange(n, e));
    lemma_fold_padding::<T>(a, off, n, e);
    T::lemma_id(fold::<T>(a.subrange(s, n)));
}

/// Reading a leaf or a node below the middle by `xor` with the number of leaves.
proof fn lemma_xor_off(u: usize, off: usize, d: nat)
    requires
        off == pow2(d),
        1 <= u < 2 * off,
        2 * off <= usize::MAX,
    ensures
        u >= off ==> u ^ off == u - off,
        u < off ==> u ^ off == u + off,
{
    vstd::arithmetic::power2::lemma2_to64();
    vstd::arithmetic::power2::lemma2_to64_rest();
    assert(d < 64) by {
        if d >= 64 {
            if d > 64 {
                lemma_pow2_strictly_increases(64, d);
            }
        }
    }
    let dd = d as usize;
    vstd::bits::lemma_usize_pow2_no_overflow(d);
    vstd::bits::lemma_usize_shl_is_mul(1, dd);
    assert(off == 1usize << dd);
    assert(dd < 64 && off == 1usize << dd && off <= u && u < 2 * off ==> u ^ off == u - off) by (bit_vector);
    assert(dd < 64 && off == 1usize << dd && u < off ==> u ^ off == u + off) by (bit_vector);
}

impl<T: Monoid> Segtree<T> {
    /// The end of the longest run from `l` that `pred` accepts: `r` with `pred` accepting the
    /// fold of `l..r` (unless `r == l`) and rejecting that of `l..r + 1` (unless `r` is the
    /// length). When `pred` accepts every prefix of a run and then none, this is its end.
    pub fn partition_right<F: Fn(T::Value) -> bool>(&self, l: usize, pred: F) -> (r: usize)
        where T::Value: Copy,
        requires
            self.wf(),
            l <= self.view_seq().len(),
            self.view_seq().len() <= usize::MAX / 8,
            steady(pred),
        ensures
            l <= r <= self.view_seq().len(),
            r == l || accepts(pred, fold::<T>(self.view_seq().subrange(l as int, r as int))),
            r == self.view_seq().len() || rejects(pred, fold::<T>(self.view_seq().subrange(l as int, r + 1))),
    {
        let n = self.net_leaves;
        if l >= n {
            return n;
        }
        let ghost a = self.leaves@;
        let ghost off = self.offset as int;
        let ghost d = self.depth@;
        let ghost pad = padded::<T>(a, off);
        let (mut v, Ghost(t0)) = strip(l + self.offset);
        let ghost mut tv = t0;
        let ghost mut big_l = l as int;
        let mut acc = T::id();
        proof {
            assert(pad.subrange(l as int, l as int) =~= Seq::<T::Value>::empty());
        }
        // go up while the blocks are accepted
        loop
            invariant
                self.wf(),
                a == self.leaves@,
                off == self.offset,
                d == self.depth@,
                n == self.net_leaves,
                pad == padded::<T>(a, off),
                n <= usize::MAX / 8,
                steady(pred),
                l < n,
                l <= big_l < off,
                v * pow2(tv) == big_l + off,
                v % 2 == 1,
                v >= 1,
                tv == 0 ==> big_l < n,
                acc == fold::<T>(pad.subrange(l as int, big_l)),
                big_l == l || accepts(pred, acc),
            ensures
                l <= big_l < off,
                v * pow2(tv) == big_l + off,
                v >= 1,
                v < self.data@.len(),
                width(v as int, off) == pow2(tv),
                big_l + pow2(tv) <= off,
                acc == fold::<T>(pad.subrange(l as int, big_l)),
                big_l == l || accepts(pred, acc),
                rejects(pred, fold::<T>(pad.subrange(l as int, big_l + pow2(tv)))),
            decreases off - big_l,
        {
            let ghost w = pow2(tv) as int;
            proof {
                lemma_pow2_unfold(d + 1);
                lemma_pow2_pos(tv);
                lemma_width_of_scaled(v as int, tv, d);
                lemma_node_range(v as int, d);
                assert(lo(v as int, off) == big_l && hi(v as int, off) == big_l + w) by {
                    assert((v + 1) * w == v * w + w) by (nonlinear_arith);
                }
                // the node is stored: a leaf only at the start, below the end of the data
                if tv == 0 {
                    vstd::arithmetic::power2::lemma2_to64();
                    assert(pow2(tv) == 1);
                    assert(v * pow2(tv) == v * 1);
                    assert(v == big_l + off);
                } else {
                    assert(w >= 2) by {
                        lemma_pow2_unfold(tv);
                        lemma_pow2_pos((tv - 1) as nat);
                    }
                    assert(v < off) by (nonlinear_arith)
                        requires v * w < 2 * off, w >= 2;
                }
                assert(pad.subrange(l as int, big_l + w) =~= pad.subrange(l as int, big_l) + pad.subrange(big_l, big_l + w));
                lemma_fold_concat::<T>(pad.subrange(l as int, big_l), pad.subrange(big_l, big_l + w));
            }
            let temp = T::op(acc, self.data[v]);
            if !pred(temp) {
                break;
            }
            acc = temp;
            let (v2, Ghost(t2)) = strip(v + 1);
            proof {
                lemma_pow2_adds(tv, t2);
                assert(v2 * pow2(tv + t2) == (v + 1) * pow2(tv)) by (nonlinear_arith)
                    requires v2 * pow2(t2) == v + 1, pow2(tv + t2) == pow2(tv) * pow2(t2);
                assert((v + 1) * w == v * w + w) by (nonlinear_arith);
                assert(t2 >= 1) by {
                    if t2 == 0 {
                        vstd::arithmetic::power2::lemma2_to64();
                        assert(pow2(t2) == 1);
                        assert(v2 * pow2(t2) == v2 * 1);
                        assert(v2 == v + 1);
                    }
                }
                big_l = big_l + w;
                tv = tv + t2;
            }
            v = v2;
            if v == 1 {
                proof {
                    // the run reached the last leaf
                    lemma_pow2_unfold(d + 1);
                    assert(big_l == off) by {
                        assert(1 * pow2(tv) == pow2(tv));
                        assert(pow2(tv) == big_l + off);
                        lemma_pow2_squeeze(d, tv);
                    }
                    lemma_fold_past_end::<T>(a, off, l as int, off);
                }
                return n;
            }
            proof {
                // short of the last leaf, since an odd number above 1 times a power of two is
                // not a power of two
                if big_l == off {
                    lemma_pow2_unfold(d + 1);
                    assert(v * pow2(tv) == 1 * pow2(d + 1));
                    lemma_odd_part(v as int, tv, 1, d + 1);
                }
            }
        }
        proof {
            assert((v + 1) * pow2(tv) == v * pow2(tv) + pow2(tv)) by (nonlinear_arith);
            assert(lo(v as int, off) == big_l);
            assert(hi(v as int, off) == big_l + pow2(tv));
        }
        // go down into the rejected block
        loop
            invariant
                self.wf(),
                a == self.leaves@,
                off == self.offset,
                d == self.depth@,
                n == self.net_leaves,
                pad == padded::<T>(a, off),
                n <= usize::MAX / 8,
                steady(pred),
                l < n,
                1 <= v < self.data@.len(),
                v < 2 * off,
                l <= lo(v as int, off),
                acc == fold::<T>(pad.subrange(l as int, lo(v as int, off))),
                lo(v as int, off) == l || accepts(pred, acc),
                rejects(pred, fold::<T>(pad.subrange(l as int, hi(v as int, off)))),
            ensures
                1 <= v < self.data@.len(),
                v < 2 * off,
                v >= off || 2 * v >= self.data@.len(),
                l <= lo(v as int, off),
                acc == fold::<T>(pad.subrange(l as int, lo(v as int, off))),
                lo(v as int, off) == l || accepts(pred, acc),
                rejects(pred, fold::<T>(pad.subrange(l as int, hi(v as int, off)))),
            decreases 2 * off - v,
        {
            proof {
                lemma_pow2_unfold(d + 1);
                assert(self.data@.len() <= usize::MAX / 2) by {
                    assert(off <= 2 * n || off == 1);
                }
            }
            // a leaf has no children; past the middle of the data there are none either
            if v >= self.offset {
                break;
            }
            let c = v * 2;
            if c >= self.data.len() {
                break;
            }
            proof {
                lemma_children(v as int, d);
                lemma_node_range(c as int, d);
                lemma_node_range(c + 1, d);
                let lc = lo(v as int, off);
                let m = hi(c as int, off);
                assert(pad.subrange(l as int, m) =~= pad.subrange(l as int, lc) + pad.subrange(lc, m));
                lemma_fold_concat::<T>(pad.subrange(l as int, lc), pad.subrange(lc, m));
                assert(c % 2 == 0);
                assert(c % 2 == 0 ==> c | 1 == c + 1) by (bit_vector);
                assert(c + 1 < self.data@.len()) by {
                    assert(d >= 1) by {
                        if d == 0 {
                            vstd::arithmetic::power2::lemma2_to64();
                        }
                    }
                    lemma_pow2_unfold(d);
                    assert(off % 2 == 0);
                }
            }
            let temp = T::op(acc, self.data[c]);
            if pred(temp) {
                acc = temp;
                v = c | 1;
            } else {
                v = c;
            }
        }
        proof {
            lemma_pow2_unfold(d + 1);
            lemma_node_range(v as int, d);
            lemma_xor_off(v, self.offset, d);
        }
        let x = v ^ self.offset;
        proof {
            if v >= off {
                lemma_leaf(v as int, d);
                let p = v - off;
                assert(x == p);
                if p >= n {
                    // past the end the block adds nothing, so it would have been accepted
                    assert(pad.subrange(l as int, p + 1) =~= pad.subrange(l as int, p) + seq![pad[p]]);
                    lemma_fold_concat::<T>(pad.subrange(l as int, p), seq![pad[p]]);
                    lemma_fold_single::<T>(pad[p]);
                    T::lemma_id(acc);
                } else {
                    assert(pad.subrange(l as int, p) =~= a.subrange(l as int, p));
                    assert(pad.subrange(l as int, p + 1) =~= a.subrange(l as int, p + 1));
                }
            } else {
                // a node past the middle of the data covers only padding
                lemma_width_at_least_two(v as int, d);
                assert(off % 2 == 0) by {
                    assert(d >= 1) by {
                        if d == 0 {
                            vstd::arithmetic::power2::lemma2_to64();
                        }
                    }
                    lemma_pow2_unfold(d);
                }
                assert(lo(v as int, off) >= n);
                lemma_fold_past_end::<T>(a, off, l as int, lo(v as int, off));
            }
        }
        if x < n {
            x
        } else {
            proof {
                if v >= off {
                    lemma_fold_past_end::<T>(a, off, l as int, v - off);
                }
            }
            n
        }
    }
}

/// Whether `v`, odd or 2, is a power of two.
fn is_power_of_two(v: usize) -> (r: bool)
    requires
        v % 2 == 1 || v == 2,
    ensures
        r == (v <= 2),
{
    assert(v % 2 == 1 && v >= 3 ==> v & ((v - 1) as usize) != 0) by (bit_vector);
    assert(v == 1 ==> v & ((v - 1) as usize) == 0) by (bit_vector);
    assert(v == 2 ==> v & ((v - 1) as usize) == 0) by (bit_vector);
    v & (v - 1) == 0
}

/// A node `v - 1` ending at the boundary `v 2^t == R + off`, for odd `v >= 3`, lies within the
/// leaves before `R`.
proof fn lemma_left_block(v: int, t: nat, big_r: int, d: nat)
    requires
        v % 2 == 1,
        v >= 3,
        v * pow2(t) == big_r + pow2(d),
        0 <= big_r <= pow2(d),
    ensures
        big_r >= pow2(t),
{
    lemma_pow2_pos(t);
    lemma_pow2_unfold(d + 1);
    if t >= d {
        if t > d {
            lemma_pow2_strictly_increases(d, t);
        }
        assert(v * pow2(t) >= 3 * pow2(d)) by (nonlinear_arith)
            requires v >= 3, pow2(t) >= pow2(d);
        lemma_pow2_pos(d);
    } else {
        lemma_pow2_adds(t, (d - t) as nat);
        let q = pow2((d - t) as nat);
        let w = pow2(t);
        lemma_pow2_unfold((d - t) as nat);
        lemma_pow2_pos((d - t - 1) as nat);
        assert(q % 2 == 0);
        assert((v - q) * w == big_r) by (nonlinear_arith)
            requires v * w == big_r + w * q;
        assert(v - q >= 0) by (nonlinear_arith)
            requires (v - q) * w >= 0, w >= 1;
        assert(v != q);
        assert((v - q) * w >= w) by (nonlinear_arith)
            requires v - q >= 1, w >= 1;
    }
}

impl<T: Monoid> Segtree<T> {
    /// The start of the longest run ending at `r` that `pred` accepts: `l` with `pred`
    /// accepting the fold of `l..r` (unless `l == r`) and rejecting that of `l - 1..r` (unless
    /// `l` is 0). When `pred` accepts every suffix of a run and then none, this is its start.
    pub fn partition_left<F: Fn(T::Value) -> bool>(&self, r: usize, pred: F) -> (l: usize)
        where T::Value: Copy,
        requires
            self.wf(),
            r <= self.view_seq().len(),
            self.view_seq().len() <= usize::MAX / 8,
            steady(pred),
        ensures
            l <= r,
            l == r || accepts(pred, fold::<T>(self.view_seq().subrange(l as int, r as int))),
            l == 0 || rejects(pred, fold::<T>(self.view_seq().subrange(l - 1, r as int))),
    {
        if r == 0 {
            return 0;
        }
        let n = self.net_leaves;
        let ghost a = self.leaves@;
        let ghost off = self.offset as int;
        let ghost d = self.depth@;
        let ghost pad = padded::<T>(a, off);
        let (mut v, Ghost(t0)) = strip(r + self.offset);
        let ghost mut tv = t0;
        proof {
            lemma_pow2_unfold(d + 1);
            assert(off == pow2(d) && n <= off && (off == 1 || off < 2 * n));
        }
        if v == 1 {
            // `r` is the end of the leaves: the block before it is the whole tree
            proof {
                assert(1 * pow2(tv) == pow2(tv));
                lemma_pow2_squeeze(d, tv);
                assert(pow2(tv) == 2 * pow2(d));
                assert(tv >= 1);
                lemma_pow2_unfold(tv);
                tv = (tv - 1) as nat;
            }
            v = 2;
        }
        let ghost mut big_r = r as int;
        let mut acc = T::id();
        proof {
            assert(pad.subrange(r as int, r as int) =~= Seq::<T::Value>::empty());
        }
        // go up while the blocks are accepted
        loop
            invariant
                self.wf(),
                a == self.leaves@,
                off == self.offset,
                d == self.depth@,
                n == self.net_leaves,
                pad == padded::<T>(a, off),
                n <= usize::MAX / 8,
                steady(pred),
                0 < r <= n,
                0 <= big_r <= r,
                v * pow2(tv) == big_r + off,
                v % 2 == 1 || (v == 2 && big_r == r && big_r == off),
                v >= 1,
                v == 1 ==> big_r == 0,
                acc == fold::<T>(pad.subrange(big_r, r as int)),
                big_r == r || accepts(pred, acc),
            ensures
                2 <= v,
                v - 1 < 2 * off,
                big_r >= pow2(tv),
                width(v - 1, off) == pow2(tv),
                lo(v - 1, off) == big_r - pow2(tv),
                hi(v - 1, off) == big_r,
                v - 1 < self.data@.len(),
                0 <= big_r <= r,
                acc == fold::<T>(pad.subrange(big_r, r as int)),
                big_r == r || accepts(pred, acc),
                rejects(pred, fold::<T>(pad.subrange(big_r - pow2(tv), r as int))),
            decreases big_r,
        {
            proof {
                lemma_pow2_unfold(d + 1);
                lemma_pow2_pos(tv);
            }
            if v == 1 {
                // the boundary reached the first leaf: the stored identity before it changes
                // nothing, and the run is accepted
                let temp = T::op(self.data[0], acc);
                proof {
                    T::lemma_id(acc);
                }
                if !pred(temp) {
                    proof {
                        assert(false);
                    }
                    break;
                }
                acc = temp;
                proof {
                    assert(pad.subrange(0, r as int) =~= a.subrange(0, r as int));
                }
                return 0;
            }
            let ghost w = pow2(tv) as int;
            proof {
                if v % 2 == 1 {
                    lemma_left_block(v as int, tv, big_r, d);
                }
                assert((v - 1) * w == v * w - w) by (nonlinear_arith);
                assert(pow2(d) <= (v - 1) * pow2(tv) < 2 * pow2(d));
                lemma_width_of_scaled(v - 1, tv, d);
                assert(lo(v - 1, off) == big_r - w && hi(v - 1, off) == big_r) by {
                    assert((v - 1 + 1) * w == v * w) by (nonlinear_arith);
                }
                assert(v - 1 <= (v - 1) * pow2(tv)) by (nonlinear_arith)
                    requires pow2(tv) >= 1, v >= 2;
                assert(pad.subrange(big_r - w, r as int) =~= pad.subrange(big_r - w, big_r) + pad.subrange(big_r, r as int));
                lemma_fold_concat::<T>(pad.subrange(big_r - w, big_r), pad.subrange(big_r, r as int));
            }
            let temp = T::op(self.data[v - 1], acc);
            if !pred(temp) {
                break;
            }
            acc = temp;
            if is_power_of_two(v) {
                proof {
                    assert(v == 2);
                    assert(big_r - w == 0);
                    assert(pad.subrange(0, r as int) =~= a.subrange(0, r as int));
                }
                return 0;
            }
            let (v2, Ghost(t2)) = strip(v - 1);
            proof {
                lemma_pow2_adds(tv, t2);
                assert(v2 * pow2(tv + t2) == (v - 1) * pow2(tv)) by (nonlinear_arith)
                    requires v2 * pow2(t2) == v - 1, pow2(tv + t2) == pow2(tv) * pow2(t2);
                big_r = big_r - w;
                tv = tv + t2;
                if v2 == 1 {
                    assert(1 * pow2(tv) == pow2(tv));
                    assert(big_r < off);
                    assert(d >= 1) by {
                        if d == 0 {
                            vstd::arithmetic::power2::lemma2_to64();
                        }
                    }
                    lemma_pow2_unfold(d);
                    if big_r > 0 {
                        lemma_pow2_squeeze(d, tv);
                    }
                }
            }
            v = v2;
        }
        // go down into the rejected block, from its right end
        let mut u = v - 1;
        loop
            invariant
                self.wf(),
                a == self.leaves@,
                off == self.offset,
                d == self.depth@,
                n == self.net_leaves,
                pad == padded::<T>(a, off),
                n <= usize::MAX / 8,
                steady(pred),
                0 < r <= n,
                1 <= u < self.data@.len(),
                u < 2 * off,
                hi(u as int, off) <= r,
                acc == fold::<T>(pad.subrange(hi(u as int, off), r as int)),
                hi(u as int, off) == r || accepts(pred, acc),
                rejects(pred, fold::<T>(pad.subrange(lo(u as int, off), r as int))),
            ensures
                1 <= u < self.data@.len(),
                u < 2 * off,
                u >= off || 2 * u >= self.data@.len(),
                hi(u as int, off) <= r,
                acc == fold::<T>(pad.subrange(hi(u as int, off), r as int)),
                hi(u as int, off) == r || accepts(pred, acc),
                rejects(pred, fold::<T>(pad.subrange(lo(u as int, off), r as int))),
            decreases 2 * off - u,
        {
            proof {
                lemma_pow2_unfold(d + 1);
            }
            if u >= self.offset {
                break;
            }
            let c = u * 2;
            if c >= self.data.len() {
                break;
            }
            proof {
                lemma_children(u as int, d);
                lemma_node_range(c as int, d);
                lemma_node_range(c + 1, d);
                let m = lo(c + 1, off);
                let h = hi(u as int, off);
                assert(pad.subrange(m, r as int) =~= pad.subrange(m, h) + pad.subrange(h, r as int));
                lemma_fold_concat::<T>(pad.subrange(m, h), pad.subrange(h, r as int));
                assert(c % 2 == 0);
                assert(c % 2 == 0 ==> c | 1 == c + 1) by (bit_vector);
                assert(c + 1 < self.data@.len()) by {
                    assert(d >= 1) by {
                        if d == 0 {
                            vstd::arithmetic::power2::lemma2_to64();
                        }
                    }
                    lemma_pow2_unfold(d);
                    assert(off % 2 == 0);
                }
            }
            let temp = T::op(self.data[c | 1], acc);
            if pred(temp) {
                acc = temp;
                u = c;
            } else {
                u = c | 1;
            }
        }
        proof {
            lemma_pow2_unfold(d + 1);
            lemma_node_range(u as int, d);
            if u < off {
                // a node past the middle of the data covers only padding, beyond `r`
                lemma_width_at_least_two(u as int, d);
                assert(off % 2 == 0) by {
                    assert(d >= 1) by {
                        if d == 0 {
                            vstd::arithmetic::power2::lemma2_to64();
                        }
                    }
                    lemma_pow2_unfold(d);
                }
                assert(lo(u as int, off) >= n);
            }
            lemma_leaf(u as int, d);
            lemma_xor_off(u, self.offset, d);
            let p = u - off;
            assert(pad.subrange(p + 1, r as int) =~= a.subrange(p + 1, r as int));
            assert(pad.subrange(p, r as int) =~= a.subrange(p, r as int));
        }
        (u ^ self.offset) + 1
    }
}

} // verus!
