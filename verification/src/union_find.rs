//! Disjoint sets with a value per set, merged by size.

use vstd::prelude::*;
use vstd::set_lib::*;
use crate::ops::{SemiGroup, Commutative};

verus! {

/// Disjoint sets over `0..n`; each set carries a value, and merging two sets combines their
/// values with the semigroup operation.
pub struct UnionFind<T: Commutative + SemiGroup> {
    /// A parent index when non-negative, minus the size of the set at a representative.
    parent_or_size: Vec<i32>,
    /// The value of each representative's set.
    value: Vec<T::Value>,
    /// The representative of each element.
    root: Ghost<Seq<int>>,
    /// Strictly increases along parent links.
    rank: Ghost<Seq<nat>>,
}

/// The elements of `0..n` whose representative is `r`.
pub open spec fn class_of(root: Seq<int>, r: int) -> Set<int> {
    Set::new(|z: int| 0 <= z < root.len() && root[z] == r)
}

/// Parent links lead to representatives, ranks grow along them, and each representative
/// stores minus the size of its set.
#[verifier::opaque]
pub open spec fn links_ok(p: Seq<i32>, root: Seq<int>, rank: Seq<nat>) -> bool {
    let n = p.len();
    forall|x: int| 0 <= x < n ==> {
        &&& 0 <= #[trigger] root[x] < n
        &&& p[root[x]] < 0
        &&& rank[x] < n
        &&& (p[x] < 0 ==> root[x] == x)
        &&& (p[x] >= 0 ==> p[x] < n && rank[x] < rank[p[x] as int] && root[x] == root[p[x] as int])
        &&& (p[x] < 0 ==> -p[x] == class_of(root, x).len() && rank[x] < -p[x])
    }
}

/// What `links_ok` says of one element.
pub(crate) proof fn lemma_links_at(p: Seq<i32>, root: Seq<int>, rank: Seq<nat>, x: int)
    requires
        links_ok(p, root, rank),
        0 <= x < p.len(),
    ensures
        0 <= root[x] < p.len(),
        p[root[x]] < 0,
        rank[x] < p.len(),
        p[x] < 0 ==> root[x] == x,
        p[x] >= 0 ==> p[x] < p.len() && rank[x] < rank[p[x] as int] && root[x] == root[p[x] as int],
        p[x] < 0 ==> -p[x] == class_of(root, x).len() && rank[x] < -p[x],
{
    reveal(links_ok);
    assert(0 <= root[x] < p.len());
}

/// Linking the representative `b` under the representative `a`, whose set is at least as
/// large, keeps the links consistent.
pub(crate) proof fn lemma_link(p: Seq<i32>, root: Seq<int>, rank: Seq<nat>, a: int, b: int)
    requires
        p.len() == root.len() == rank.len(),
        p.len() <= i32::MAX,
        links_ok(p, root, rank),
        0 <= a < p.len(),
        0 <= b < p.len(),
        a != b,
        p[a] < 0,
        p[b] < 0,
        p[a] <= p[b],
    ensures
        ({
            let n = p.len();
            let np = p.update(a, (p[a] + p[b]) as i32).update(b, a as i32);
            let nroot = Seq::new(n, |z: int| if root[z] == b { a } else { root[z] });
            let nrank = rank.update(a, if rank[a] > rank[b] + 1 { rank[a] } else { rank[b] + 1 });
            &&& links_ok(np, nroot, nrank)
            &&& p[a] + p[b] >= i32::MIN
        }),
{
    reveal(links_ok);
    let n = p.len();
    let np = p.update(a, (p[a] + p[b]) as i32).update(b, a as i32);
    let nroot = Seq::new(n, |z: int| if root[z] == b { a } else { root[z] });
    let nrank = rank.update(a, if rank[a] > rank[b] + 1 { rank[a] } else { rank[b] + 1 });
    assert(0 <= root[a] < n);
    assert(0 <= root[b] < n);
    let ca = class_of(root, a);
    let cb = class_of(root, b);
    lemma_class_finite(root, a);
    lemma_class_finite(root, b);
    let cu = class_of(nroot, a);
    assert(cu =~= ca + cb);
    assert(ca.disjoint(cb));
    lemma_set_disjoint_lens(ca, cb);
    lemma_class_finite(nroot, a);
    assert forall|z: int| 0 <= z < n implies {
        &&& 0 <= #[trigger] nroot[z] < n
        &&& np[nroot[z]] < 0
        &&& nrank[z] < n
        &&& (np[z] < 0 ==> nroot[z] == z)
        &&& (np[z] >= 0 ==> np[z] < n && nrank[z] < nrank[np[z] as int] && nroot[z] == nroot[np[z] as int])
        &&& (np[z] < 0 ==> -np[z] == class_of(nroot, z).len() && nrank[z] < -np[z])
    } by {
        assert(0 <= root[z] < n);
        let oz = root[z];
        assert(0 <= root[oz] < n);
        if p[z] >= 0 {
            assert(0 <= root[p[z] as int] < n);
        }
        if z != a && z != b && np[z] < 0 {
            assert(class_of(nroot, z) =~= class_of(root, z));
        }
    }
}

pub(crate) proof fn lemma_class_finite(root: Seq<int>, r: int)
    ensures
        class_of(root, r).finite(),
        class_of(root, r).len() <= root.len(),
{
    lemma_int_range(0, root.len() as int);
    assert(class_of(root, r).subset_of(set_int_range(0, root.len() as int)));
    lemma_len_subset(class_of(root, r), set_int_range(0, root.len() as int));
}

impl<T: Commutative + SemiGroup> UnionFind<T> {
    /// The number of elements.
    pub closed spec fn len(&self) -> nat {
        self.parent_or_size@.len()
    }

    /// The representative of the set holding `x`.
    pub closed spec fn root(&self, x: int) -> int {
        self.root@[x]
    }

    /// The values, meaningful at representatives.
    pub closed spec fn values(&self) -> Seq<T::Value> {
        self.value@
    }

    /// The parent links and sizes as stored.
    pub closed spec fn parent_or_size(&self) -> Seq<i32> {
        self.parent_or_size@
    }

    /// The set of elements whose representative is `r`.
    pub open spec fn class(&self, r: int) -> Set<int> {
        Set::new(|z: int| 0 <= z < self.len() && self.root(z) == r)
    }

    pub closed spec fn wf(&self) -> bool {
        let n = self.parent_or_size@.len();
        &&& n <= i32::MAX
        &&& self.value@.len() == n
        &&& self.root@.len() == n
        &&& self.rank@.len() == n
        &&& links_ok(self.parent_or_size@, self.root@, self.rank@)
    }

    /// Representatives are their own representatives.
    pub proof fn lemma_root_idempotent(&self, x: int)
        requires
            self.wf(),
            0 <= x < self.len(),
        ensures
            0 <= self.root(x) < self.len(),
            self.root(self.root(x)) == self.root(x),
    {
        lemma_links_at(self.parent_or_size@, self.root@, self.rank@, x);
        let r = self.root@[x];
        lemma_links_at(self.parent_or_size@, self.root@, self.rank@, r);
    }

    /// Every element is alone in its set, with the given values.
    pub fn with_values(value: Vec<T::Value>) -> (r: Self)
        requires
            value@.len() <= i32::MAX,
        ensures
            r.wf(),
            r.len() == value@.len(),
            r.values() == value@,
            forall|x: int| 0 <= x < r.len() ==> #[trigger] r.root(x) == x,
    {
        let n = value.len();
        let mut p: Vec<i32> = Vec::new();
        let mut i: usize = 0;
        while i < n
            invariant
                i <= n,
                p@ == Seq::new(i as nat, |_j: int| -1i32),
            decreases n - i,
        {
            p.push(-1);
            i += 1;
        }
        let ghost root = Seq::new(n as nat, |j: int| j);
        let ghost rank = Seq::new(n as nat, |_j: int| 0nat);
        proof {
            reveal(links_ok);
            assert forall|x: int| 0 <= x < n implies class_of(root, x).len() == 1 by {
                assert(class_of(root, x) =~= set![x]);
            }
        }
        UnionFind { parent_or_size: p, value, root: Ghost(root), rank: Ghost(rank) }
    }

    /// The representative of the set holding `x`; halves the path from `x` on the way.
    pub fn find(&mut self, x: usize) -> (r: usize)
        requires
            old(self).wf(),
            x < old(self).len(),
        ensures
            final(self).wf(),
            r == old(self).root(x as int),
            r < old(self).len(),
            final(self).len() == old(self).len(),
            forall|z: int| 0 <= z < old(self).len() ==> #[trigger] final(self).root(z) == old(self).root(z),
            final(self).values() == old(self).values(),
    {
        let ghost n = self.parent_or_size@.len();
        let mut cur = x;
        loop
            invariant
                self.wf(),
                self.parent_or_size@.len() == n,
                n == old(self).parent_or_size@.len(),
                x < n,
                cur < n,
                self.root == old(self).root,
                self.value@ == old(self).value@,
                self.root@[cur as int] == old(self).root@[x as int],
            decreases n - self.rank@[cur as int],
        {
            proof {
                reveal(links_ok);
            }
            let px = self.parent_or_size[cur];
            if px < 0 {
                proof {
                    assert(0 <= self.root@[cur as int] < n);
                }
                return cur;
            }
            let ppx = self.parent_or_size[px as usize];
            if ppx < 0 {
                proof {
                    assert(0 <= self.root@[cur as int] < n);
                    assert(0 <= self.root@[px as int] < n);
                }
                return px as usize;
            }
            proof {
                assert(0 <= self.root@[cur as int] < n);
                assert(0 <= self.root@[px as int] < n);
                assert(0 <= self.root@[ppx as int] < n);
            }
            let ghost before = self.parent_or_size@;
            self.parent_or_size.set(cur, ppx);
            proof {
                assert forall|z: int| 0 <= z < n implies {
                    let p = self.parent_or_size@;
                    &&& 0 <= #[trigger] self.root@[z] < n
                    &&& p[self.root@[z]] < 0
                    &&& self.rank@[z] < n
                    &&& (p[z] < 0 ==> self.root@[z] == z)
                    &&& (p[z] >= 0 ==> p[z] < n && self.rank@[z] < self.rank@[p[z] as int]
                        && self.root@[z] == self.root@[p[z] as int])
                    &&& (p[z] < 0 ==> -p[z] == class_of(self.root@, z).len() && self.rank@[z] < -p[z])
                } by {
                    let r = self.root@[z];
                    assert(0 <= self.root@[z] < n);
                    assert(before[r] < 0);
                    if z != cur as int && before[z] >= 0 {
                        assert(0 <= self.root@[before[z] as int] < n);
                    }
                }
            }
            cur = ppx as usize;
        }
    }

    /// The value of the set holding `x`.
    pub fn find_value(&mut self, x: usize) -> (r: T::Value)
        where T::Value: Copy,
        requires
            old(self).wf(),
            x < old(self).len(),
        ensures
            final(self).wf(),
            r == old(self).values()[old(self).root(x as int)],
            final(self).len() == old(self).len(),
            forall|z: int| 0 <= z < old(self).len() ==> #[trigger] final(self).root(z) == old(self).root(z),
            final(self).values() == old(self).values(),
    {
        let r = self.find(x);
        self.value[r]
    }

    /// Whether `x` and `y` are in the same set.
    pub fn same(&mut self, x: usize, y: usize) -> (r: bool)
        requires
            old(self).wf(),
            x < old(self).len(),
            y < old(self).len(),
        ensures
            final(self).wf(),
            r == (old(self).root(x as int) == old(self).root(y as int)),
            final(self).len() == old(self).len(),
            forall|z: int| 0 <= z < old(self).len() ==> #[trigger] final(self).root(z) == old(self).root(z),
            final(self).values() == old(self).values(),
    {
        let a = self.find(x);
        let b = self.find(y);
        a == b
    }

    /// The number of elements in the set holding `x`.
    pub fn size(&mut self, x: usize) -> (r: usize)
        requires
            old(self).wf(),
            x < old(self).len(),
        ensures
            final(self).wf(),
            r == old(self).class(old(self).root(x as int)).len(),
            final(self).len() == old(self).len(),
            forall|z: int| 0 <= z < old(self).len() ==> #[trigger] final(self).root(z) == old(self).root(z),
            final(self).values() == old(self).values(),
    {
        let r = self.find(x);
        proof {
            assert(self.class(r as int) =~= class_of(self.root@, r as int));
            assert(old(self).class(r as int) =~= class_of(self.root@, r as int));
        }
        let s = self.parent_or_size[r];
        proof {
            lemma_links_at(self.parent_or_size@, self.root@, self.rank@, x as int);
            lemma_links_at(self.parent_or_size@, self.root@, self.rank@, r as int);
            assert(self.root(x as int) == r);
            assert(self.parent_or_size@[r as int] < 0);
            assert(s == self.parent_or_size@[r as int]);
            lemma_class_finite(self.root@, r as int);
            assert(-s == class_of(self.root@, r as int).len());
        }
        (-(s as i64)) as usize
    }

    /// Merges the sets holding `x` and `y`; returns whether they were different sets.
    ///
    /// The larger set's representative (the one of `x` on a tie) stays the representative,
    /// and its value becomes the combination of the two values.
    pub fn union(&mut self, x: usize, y: usize) -> (r: bool)
        where T::Value: Copy,
        requires
            old(self).wf(),
            x < old(self).len(),
            y < old(self).len(),
        ensures
            final(self).wf(),
            final(self).len() == old(self).len(),
            r == (old(self).root(x as int) != old(self).root(y as int)),
            final(self).root(x as int) == final(self).root(y as int),
            final(self).root(x as int) == old(self).root(x as int)
                || final(self).root(x as int) == old(self).root(y as int),
            forall|z: int| 0 <= z < old(self).len() ==> #[trigger] final(self).root(z) == (
                if old(self).root(z) == old(self).root(x as int) || old(self).root(z) == old(self).root(y as int) {
                    final(self).root(x as int)
                } else {
                    old(self).root(z)
                }),
            r ==> final(self).values()[final(self).root(x as int)] == T::spec_op(
                old(self).values()[old(self).root(x as int)],
                old(self).values()[old(self).root(y as int)],
            ),
            forall|z: int| 0 <= z < old(self).len() && z != final(self).root(x as int)
                ==> #[trigger] final(self).values()[z] == old(self).values()[z],
            !r ==> final(self).values() == old(self).values(),
            r ==> final(self).class(final(self).root(x as int)).len() == old(self).class(
                old(self).root(x as int),
            ).len() + old(self).class(old(self).root(y as int)).len(),
    {
        let ghost n = self.parent_or_size@.len();
        let rx = self.find(x);
        let ghost mid_root = self.root@;
        let ry = self.find(y);
        proof {
            assert forall|z: int| 0 <= z < n implies #[trigger] self.root@[z] == old(self).root(z) by {
                assert(self.root(z) == mid_root[z]);
            }
            lemma_links_at(self.parent_or_size@, self.root@, self.rank@, x as int);
            lemma_links_at(self.parent_or_size@, self.root@, self.rank@, y as int);
            assert(self.root(x as int) == rx);
            assert(self.root(y as int) == ry);
            self.lemma_root_idempotent(x as int);
            self.lemma_root_idempotent(y as int);
        }
        if rx == ry {
            return false;
        }
        let mut a = rx;
        let mut b = ry;
        if self.parent_or_size[a] > self.parent_or_size[b] {
            a = ry;
            b = rx;
        }
        let ghost old_root = self.root@;
        let ghost old_rank = self.rank@;
        let ghost old_p = self.parent_or_size@;
        let ghost old_val = self.value@;
        let sa = self.parent_or_size[a];
        let sb = self.parent_or_size[b];
        proof {
            lemma_links_at(old_p, old_root, old_rank, a as int);
            lemma_links_at(old_p, old_root, old_rank, b as int);
            lemma_link(old_p, old_root, old_rank, a as int, b as int);
        }
        self.parent_or_size.set(a, sa + sb);
        let v = T::op(self.value[a], self.value[b]);
        self.value.set(a, v);
        self.parent_or_size.set(b, a as i32);
        proof {
            let new_root = Seq::new(n, |z: int| if old_root[z] == b as int { a as int } else { old_root[z] });
            let ra = old_rank[a as int];
            let rb = old_rank[b as int];
            self.root = Ghost(new_root);
            self.rank = Ghost(old_rank.update(a as int, if ra > rb + 1 { ra } else { rb + 1 }));
            assert(self.parent_or_size@ == old_p.update(a as int, (old_p[a as int] + old_p[b as int]) as i32).update(b as int, a as i32));
            assert(self.root@[x as int] == a);
            assert(self.root@[y as int] == a);
            T::lemma_comm(old_val[rx as int], old_val[ry as int]);
            let ca = class_of(old_root, a as int);
            let cb = class_of(old_root, b as int);
            lemma_class_finite(old_root, a as int);
            lemma_class_finite(old_root, b as int);
            assert(class_of(self.root@, a as int) =~= ca + cb);
            assert(ca.disjoint(cb));
            lemma_set_disjoint_lens(ca, cb);
            assert(self.class(a as int) =~= class_of(self.root@, a as int));
            assert(old(self).class(rx as int) =~= class_of(old_root, rx as int));
            assert(old(self).class(ry as int) =~= class_of(old_root, ry as int));
            assert forall|z: int| 0 <= z < n implies #[trigger] self.root(z) == (
                if old(self).root(z) == rx as int || old(self).root(z) == ry as int {
                    a as int
                } else {
                    old(self).root(z)
                }) by {
                assert(old_root[z] == old(self).root(z));
            }
        }
        true
    }

    /// The parent link and value of every element that is not a representative, in index
    /// order.
    pub fn leaders(&self) -> (r: Vec<(i32, T::Value)>)
        where T::Value: Copy,
        requires
            self.wf(),
        ensures
            r@ == non_roots(self.parent_or_size(), self.values(), self.len() as int),
    {
        let mut out: Vec<(i32, T::Value)> = Vec::new();
        let mut i: usize = 0;
        while i < self.parent_or_size.len()
            invariant
                self.wf(),
                i <= self.len(),
                out@ == non_roots(self.parent_or_size(), self.values(), i as int),
            decreases self.len() - i,
        {
            let p = self.parent_or_size[i];
            if p >= 0 {
                out.push((p, self.value[i]));
            }
            i += 1;
        }
        out
    }
}

/// The pairs `(p[i], v[i])` for `i < k` with `p[i] >= 0`, in index order.
pub open spec fn non_roots<V>(p: Seq<i32>, v: Seq<V>, k: int) -> Seq<(i32, V)>
    decreases k,
{
    if k <= 0 {
        seq![]
    } else if p[k - 1] >= 0 {
        non_roots(p, v, k - 1).push((p[k - 1], v[k - 1]))
    } else {
        non_roots(p, v, k - 1)
    }
}

impl UnionFind<()> {
    /// `n` singleton sets without values.
    pub fn new(n: usize) -> (r: Self)
        requires
            n <= i32::MAX,
        ensures
            r.wf(),
            r.len() == n,
            forall|x: int| 0 <= x < n ==> #[trigger] r.root(x) == x,
    {
        let mut v: Vec<()> = Vec::new();
        let mut i: usize = 0;
        while i < n
            invariant
                i <= n,
                v@.len() == i,
            decreases n - i,
        {
            v.push(());
            i += 1;
        }
        Self::with_values(v)
    }
}

} // verus!
