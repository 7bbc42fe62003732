//! Disjoint sets whose merges can be undone, one at a time or back to a saved point.

use vstd::prelude::*;
use vstd::set_lib::*;
use crate::ops::{SemiGroup, Identity, Monoid, Commutative, fold, lemma_fold_single};
use crate::union_find::{class_of, links_ok, lemma_links_at, lemma_link, lemma_class_finite};

verus! {

/// The parent links of a node array.
pub open spec fn parents<V>(node: Seq<(i32, V)>) -> Seq<i32> {
    Seq::new(node.len(), |i: int| node[i].0)
}

/// The starting values of the elements below `k` whose representative is `r`, in index
/// order.
pub open spec fn class_values<V>(init: Seq<V>, root: Seq<int>, r: int, k: int) -> Seq<V>
    decreases k,
{
    if k <= 0 {
        seq![]
    } else if root[k - 1] == r {
        class_values(init, root, r, k - 1).push(init[k - 1])
    } else {
        class_values(init, root, r, k - 1)
    }
}

/// Each representative holds the fold of the starting values of its set.
pub open spec fn values_ok<T: Monoid>(s: (Seq<(i32, T::Value)>, Seq<int>, Seq<nat>), init: Seq<T::Value>) -> bool {
    forall|r: int| 0 <= r < s.0.len() && (#[trigger] s.0[r]).0 < 0 ==> s.0[r].1 == fold::<T>(
        class_values(init, s.1, r, s.0.len() as int),
    )
}

/// With every element its own representative, a set holds only its own starting value.
proof fn lemma_class_values_alone<V>(init: Seq<V>, root: Seq<int>, r: int, k: int)
    requires
        0 <= r < k <= root.len(),
        forall|z: int| 0 <= z < root.len() ==> #[trigger] root[z] == z,
    ensures
        class_values(init, root, r, k) == seq![init[r]],
    decreases k,
{
    if k - 1 > r {
        lemma_class_values_alone(init, root, r, k - 1);
    } else {
        lemma_class_values_none(init, root, r, k - 1);
        assert(seq![init[r]] =~= Seq::<V>::empty().push(init[r]));
    }
}

/// No element below `k` has `r` as representative when all below `k` are their own and
/// `r >= k`.
proof fn lemma_class_values_none<V>(init: Seq<V>, root: Seq<int>, r: int, k: int)
    requires
        0 <= k <= r,
        k <= root.len(),
        forall|z: int| 0 <= z < root.len() ==> #[trigger] root[z] == z,
    ensures
        class_values(init, root, r, k) == Seq::<V>::empty(),
    decreases k,
{
    if k > 0 {
        lemma_class_values_none(init, root, r, k - 1);
    }
}

/// Relabelling the set of `b` as that of `a` leaves the other sets' values alone.
proof fn lemma_class_values_other<V>(init: Seq<V>, root: Seq<int>, root2: Seq<int>, a: int, b: int, c: int, k: int)
    requires
        0 <= k <= root.len() == root2.len(),
        c != a,
        c != b,
        forall|z: int| 0 <= z < root.len() ==> #[trigger] root2[z] == (if root[z] == b { a } else { root[z] }),
    ensures
        class_values(init, root2, c, k) == class_values(init, root, c, k),
    decreases k,
{
    if k > 0 {
        lemma_class_values_other(init, root, root2, a, b, c, k - 1);
    }
}

/// Relabelling the set of `b` as that of `a` folds the two sets' values together.
proof fn lemma_class_values_join<T: Monoid + Commutative>(
    init: Seq<T::Value>,
    root: Seq<int>,
    root2: Seq<int>,
    a: int,
    b: int,
    k: int,
)
    requires
        0 <= k <= root.len() == root2.len(),
        a != b,
        forall|z: int| 0 <= z < root.len() ==> #[trigger] root2[z] == (if root[z] == b { a } else { root[z] }),
    ensures
        fold::<T>(class_values(init, root2, a, k)) == T::spec_op(
            fold::<T>(class_values(init, root, a, k)),
            fold::<T>(class_values(init, root, b, k)),
        ),
    decreases k,
{
    if k == 0 {
        T::lemma_id(T::spec_id());
    } else {
        lemma_class_values_join::<T>(init, root, root2, a, b, k - 1);
        let fa = fold::<T>(class_values(init, root, a, k - 1));
        let fb = fold::<T>(class_values(init, root, b, k - 1));
        let x = init[k - 1];
        let s2 = class_values(init, root2, a, k - 1);
        if root[k - 1] == a {
            assert(class_values(init, root2, a, k) == s2.push(x));
            assert(s2.push(x).drop_last() =~= s2);
            assert(class_values(init, root, a, k - 1).push(x).drop_last() =~= class_values(init, root, a, k - 1));
            T::lemma_assoc(fa, fb, x);
            T::lemma_comm(fb, x);
            T::lemma_assoc(fa, x, fb);
        } else if root[k - 1] == b {
            assert(class_values(init, root2, a, k) == s2.push(x));
            assert(s2.push(x).drop_last() =~= s2);
            assert(class_values(init, root, b, k - 1).push(x).drop_last() =~= class_values(init, root, b, k - 1));
            T::lemma_assoc(fa, fb, x);
        }
    }
}

/// A saved state: the node array with its representatives and ranks.
pub type Snapshot<V> = (Seq<(i32, V)>, Seq<int>, Seq<nat>);

/// One merge as recorded: the two representatives with their entries before the merge,
/// and the merge's stamp.
pub type Record<V> = (u32, (i32, V), u32, (i32, V), u64);

/// Disjoint sets over `0..n` with a value per set (merged with the commutative monoid
/// operation), whose merges are recorded so that they can be undone.
pub struct RollbackUnionFind<T: Commutative + Monoid> {
    /// Per element: a parent index when non-negative, else minus the set's size; and the
    /// set's value at a representative.
    node: Vec<(i32, T::Value)>,
    /// The merges in effect, oldest first.
    history: Vec<Record<T::Value>>,
    /// The stamp of the next merge.
    next_stamp: u64,
    root: Ghost<Seq<int>>,
    rank: Ghost<Seq<nat>>,
    /// The state before each recorded merge.
    past: Ghost<Seq<Snapshot<T::Value>>>,
    /// The value each element started with.
    init: Ghost<Seq<T::Value>>,
}

/// A saved point: the number of merges in effect and the stamp of the last one.
pub struct Key<T: Commutative + Monoid> {
    len: usize,
    stamp: u64,
    marker: core::marker::PhantomData<T>,
}

impl<T: Commutative + Monoid> Key<T> {
    /// The number of merges in effect at the saved point.
    pub closed spec fn len(&self) -> nat {
        self.len as nat
    }

    /// The stamp of the last merge at the saved point.
    pub closed spec fn stamp(&self) -> u64 {
        self.stamp
    }

    /// Whether the saved point is still reachable by rolling back: the merges in effect then
    /// are all still in effect.
    pub fn is_valid(&self, uf: &RollbackUnionFind<T>) -> (r: bool)
        requires
            uf.wf(),
        ensures
            r == uf.key_valid(self),
    {
        self.len == 0 || (self.len <= uf.history.len() && uf.history[self.len - 1].4 == self.stamp)
    }
}

/// The state after the `k`-th recorded merge: the next saved state, or the current one.
pub open spec fn after<V>(past: Seq<Snapshot<V>>, cur: Snapshot<V>, k: int) -> Snapshot<V> {
    if k + 1 < past.len() { past[k + 1] } else { cur }
}

impl<T: Commutative + Monoid> RollbackUnionFind<T> {
    /// The number of elements.
    pub open spec fn len(&self) -> nat {
        self.current().0.len()
    }

    /// The node array: parent link or minus size, and the value at representatives.
    pub open spec fn nodes(&self) -> Seq<(i32, T::Value)> {
        self.current().0
    }

    /// The representative of the set holding `x`.
    pub open spec fn root(&self, x: int) -> int {
        self.current().1[x]
    }

    /// The set of elements whose representative is `r`.
    pub open spec fn class(&self, r: int) -> Set<int> {
        Set::new(|z: int| 0 <= z < self.len() && self.root(z) == r)
    }

    /// The current state.
    pub closed spec fn current(&self) -> Snapshot<T::Value> {
        (self.node@, self.root@, self.rank@)
    }

    /// The state before each merge in effect, oldest first.
    pub closed spec fn snapshots(&self) -> Seq<Snapshot<T::Value>> {
        self.past@
    }

    /// The stamps of the merges in effect.
    pub closed spec fn stamps(&self) -> Seq<u64> {
        Seq::new(self.history@.len(), |k: int| self.history@[k].4)
    }

    /// The value each element started with.
    pub closed spec fn init(&self) -> Seq<T::Value> {
        self.init@
    }

    /// The stamp the next merge will get.
    pub closed spec fn next_stamp(&self) -> u64 {
        self.next_stamp
    }

    /// The merges in effect when `key` was taken are all still in effect.
    pub open spec fn key_valid(&self, key: &Key<T>) -> bool {
        key.len() <= self.stamps().len() && (key.len() == 0 || self.stamps()[key.len() - 1] == key.stamp())
    }

    /// A consistent state over `n` elements.
    pub open spec fn state_ok(s: Snapshot<T::Value>, n: nat) -> bool {
        &&& s.0.len() == n
        &&& s.1.len() == n
        &&& s.2.len() == n
        &&& links_ok(parents(s.0), s.1, s.2)
    }

    pub closed spec fn wf(&self) -> bool {
        let n = self.node@.len();
        &&& n <= i32::MAX
        &&& Self::state_ok((self.node@, self.root@, self.rank@), n)
        &&& self.past@.len() == self.history@.len()
        &&& forall|k: int| 0 <= k < self.past@.len() ==> Self::state_ok(#[trigger] self.past@[k], n)
        &&& self.init@.len() == n
        &&& values_ok::<T>((self.node@, self.root@, self.rank@), self.init@)
        &&& forall|k: int| 0 <= k < self.past@.len() ==> values_ok::<T>(#[trigger] self.past@[k], self.init@)
        &&& forall|k: int| 0 <= k < self.history@.len() ==> {
            let (x, vx, y, vy, st) = #[trigger] self.history@[k];
            let nxt = after(self.past@, (self.node@, self.root@, self.rank@), k).0;
            &&& x < n && y < n && x != y
            &&& nxt.update(x as int, vx).update(y as int, vy) == self.past@[k].0
            &&& st < self.next_stamp
        }
        &&& forall|a: int, b: int| 0 <= a < b < self.history@.len() ==> (#[trigger] self.history@[a]).4 < (#[trigger] self.history@[b]).4
    }

    /// Every element alone in its set, with the given values; no merges recorded.
    pub fn with_values(values: Vec<T::Value>) -> (r: Self)
        where T::Value: Copy,
        requires
            values@.len() <= i32::MAX,
        ensures
            r.wf(),
            r.len() == values@.len(),
            r.nodes() == Seq::new(values@.len(), |i: int| (-1i32, values@[i])),
            r.init() == values@,
            forall|x: int| 0 <= x < r.len() ==> #[trigger] r.root(x) == x,
            r.snapshots().len() == 0,
            r.stamps().len() == 0,
            r.next_stamp() == 0,
    {
        let n = values.len();
        let mut node: Vec<(i32, T::Value)> = Vec::new();
        let mut i: usize = 0;
        while i < n
            invariant
                i <= n,
                n == values@.len(),
                node@ == Seq::new(i as nat, |j: int| (-1i32, values@[j])),
            decreases n - i,
        {
            node.push((-1, values[i]));
            i += 1;
        }
        let ghost root = Seq::new(n as nat, |j: int| j);
        let ghost rank = Seq::new(n as nat, |_j: int| 0nat);
        proof {
            reveal(links_ok);
            assert(parents(node@) =~= Seq::new(n as nat, |_j: int| -1i32));
            assert forall|x: int| 0 <= x < n implies class_of(root, x).len() == 1 by {
                assert(class_of(root, x) =~= set![x]);
            }
            assert forall|x: int| 0 <= x < node@.len() && (#[trigger] node@[x]).0 < 0 implies node@[x].1 == fold::<T>(
                class_values(values@, root, x, node@.len() as int),
            ) by {
                lemma_class_values_alone(values@, root, x, n as int);
                lemma_fold_single::<T>(values@[x]);
            }
        }
        RollbackUnionFind {
            node,
            history: Vec::new(),
            next_stamp: 0,
            root: Ghost(root),
            rank: Ghost(rank),
            past: Ghost(Seq::empty()),
            init: Ghost(values@),
        }
    }

    /// `n` singleton sets, each valued with the identity; no merges recorded.
    pub fn new(n: usize) -> (r: Self)
        where T::Value: Copy,
        requires
            n <= i32::MAX,
        ensures
            r.wf(),
            r.len() == n,
            r.nodes() == Seq::new(n as nat, |i: int| (-1i32, T::spec_id())),
            r.init() == Seq::new(n as nat, |i: int| T::spec_id()),
            forall|x: int| 0 <= x < n ==> #[trigger] r.root(x) == x,
            r.snapshots().len() == 0,
            r.stamps().len() == 0,
            r.next_stamp() == 0,
    {
        let mut values: Vec<T::Value> = Vec::new();
        let mut i: usize = 0;
        while i < n
            invariant
                i <= n,
                values@ == Seq::new(i as nat, |_j: int| T::spec_id()),
            decreases n - i,
        {
            values.push(T::id());
            i += 1;
        }
        let r = Self::with_values(values);
        proof {
            assert(r.nodes() =~= Seq::new(n as nat, |i: int| (-1i32, T::spec_id())));
            assert(r.init() =~= Seq::new(n as nat, |i: int| T::spec_id()));
        }
        r
    }

    /// The representative of the set holding `x`.
    pub fn find(&self, x: usize) -> (r: usize)
        requires
            self.wf(),
            x < self.len(),
        ensures
            r == self.root(x as int),
            r < self.len(),
    {
        let ghost n = self.node@.len();
        let ghost p = parents(self.node@);
        let mut cur = x;
        while self.node[cur].0 >= 0
            invariant
                self.wf(),
                n == self.node@.len(),
                p == parents(self.node@),
                cur < n,
                self.root@[cur as int] == self.root@[x as int],
            decreases n - self.rank@[cur as int],
        {
            proof {
                lemma_links_at(p, self.root@, self.rank@, cur as int);
                assert(p[cur as int] == self.node@[cur as int].0);
            }
            cur = self.node[cur].0 as usize;
            proof {
                lemma_links_at(p, self.root@, self.rank@, cur as int);
            }
        }
        proof {
            lemma_links_at(p, self.root@, self.rank@, cur as int);
            assert(p[cur as int] == self.node@[cur as int].0);
        }
        cur
    }

    /// Whether `x` and `y` are in the same set.
    pub fn same(&self, x: usize, y: usize) -> (r: bool)
        requires
            self.wf(),
            x < self.len(),
            y < self.len(),
        ensures
            r == (self.root(x as int) == self.root(y as int)),
    {
        self.find(x) == self.find(y)
    }

    /// The size and the value of the set holding `x`.
    pub fn size_value(&self, x: usize) -> (r: (usize, T::Value))
        where T::Value: Copy,
        requires
            self.wf(),
            x < self.len(),
        ensures
            r.0 == self.class(self.root(x as int)).len(),
            r.1 == self.nodes()[self.root(x as int)].1,
            r.1 == fold::<T>(class_values(self.init(), self.current().1, self.root(x as int), self.len() as int)),
    {
        let r = self.find(x);
        let (s, v) = self.node[r];
        proof {
            let p = parents(self.node@);
            lemma_links_at(p, self.root@, self.rank@, x as int);
            lemma_links_at(p, self.root@, self.rank@, r as int);
            assert(p[r as int] == s);
            assert(self.class(r as int) =~= class_of(self.root@, r as int));
            lemma_class_finite(self.root@, r as int);
        }
        ((-(s as i64)) as usize, v)
    }

    /// Merges the sets holding `x` and `y`, recording the merge; returns whether they were
    /// different sets. The larger set's representative (that of `x` on a tie) stays the
    /// representative and gets the combined value.
    pub fn merge(&mut self, x: usize, y: usize) -> (r: bool)
        where T::Value: Copy,
        requires
            old(self).wf(),
            x < old(self).len(),
            y < old(self).len(),
            old(self).next_stamp() < u64::MAX,
        ensures
            final(self).wf(),
            final(self).len() == old(self).len(),
            r == (old(self).root(x as int) != old(self).root(y as int)),
            !r ==> *final(self) == *old(self),
            r ==> final(self).snapshots() == old(self).snapshots().push(old(self).current()),
            r ==> final(self).stamps() == old(self).stamps().push(old(self).next_stamp()),
            r ==> final(self).next_stamp() == old(self).next_stamp() + 1,
            r ==> {
                let rx = old(self).root(x as int);
                let ry = old(self).root(y as int);
                let nr = final(self).root(x as int);
                &&& nr == rx || nr == ry
                &&& forall|z: int| 0 <= z < old(self).len() ==> #[trigger] final(self).root(z) == (
                    if old(self).root(z) == rx || old(self).root(z) == ry { nr } else { old(self).root(z) })
                &&& final(self).nodes()[nr].1 == T::spec_op(old(self).nodes()[rx].1, old(self).nodes()[ry].1)
                &&& final(self).class(nr).len() == old(self).class(rx).len() + old(self).class(ry).len()
            },
    {
        let ghost n = self.node@.len();
        let rx = self.find(x);
        let ry = self.find(y);
        if rx == ry {
            return false;
        }
        let ghost old_root = self.root@;
        let ghost old_rank = self.rank@;
        let ghost old_node = self.node@;
        let ghost p = parents(old_node);
        proof {
            lemma_links_at(p, old_root, old_rank, rx as int);
            lemma_links_at(p, old_root, old_rank, ry as int);
            lemma_links_at(p, old_root, old_rank, x as int);
            lemma_links_at(p, old_root, old_rank, y as int);
        }
        let (sx, vx) = self.node[rx];
        let (sy, vy) = self.node[ry];
        let stamp = self.next_stamp;
        self.history.push((rx as u32, (sx, vx), ry as u32, (sy, vy), stamp));
        self.next_stamp = stamp + 1;
        let (a, b) = if sx > sy { (ry, rx) } else { (rx, ry) };
        let (sa, va) = self.node[a];
        let (sb, vb) = self.node[b];
        proof {
            assert(p[a as int] == sa && p[b as int] == sb);
            lemma_link(p, old_root, old_rank, a as int, b as int);
        }
        let v = T::op(va, vb);
        self.node.set(a, (sa + sb, v));
        self.node.set(b, (a as i32, vb));
        proof {
            let new_root = Seq::new(n, |z: int| if old_root[z] == b as int { a as int } else { old_root[z] });
            let ra = old_rank[a as int];
            let rb = old_rank[b as int];
            self.root = Ghost(new_root);
            self.rank = Ghost(old_rank.update(a as int, if ra > rb + 1 { ra } else { rb + 1 }));
            self.past = Ghost(self.past@.push((old_node, old_root, old_rank)));
            assert(parents(self.node@) =~= p.update(a as int, (p[a as int] + p[b as int]) as i32).update(b as int, a as i32));
            T::lemma_comm(vx, vy);
            let ca = class_of(old_root, a as int);
            let cb = class_of(old_root, b as int);
            lemma_class_finite(old_root, a as int);
            lemma_class_finite(old_root, b as int);
            assert(class_of(self.root@, a as int) =~= ca + cb);
            assert(ca.disjoint(cb));
            lemma_set_disjoint_lens(ca, cb);
            assert(self.class(a as int) =~= class_of(self.root@, a as int));
            assert(old(self).class(rx as int) =~= class_of(old_root, rx as int));
            assert(old(self).class(ry as int) =~= class_of(old_root, ry as int));
            assert(self.root@[x as int] == a);
            let k = self.history@.len() - 1;
            assert(self.node@.update(rx as int, (sx, vx)).update(ry as int, (sy, vy)) =~= old_node);
            assert forall|j: int| 0 <= j < self.history@.len() implies {
                let (x, vx, y, vy, st) = #[trigger] self.history@[j];
                let nxt = after(self.past@, (self.node@, self.root@, self.rank@), j).0;
                &&& x < n && y < n && x != y
                &&& nxt.update(x as int, vx).update(y as int, vy) == self.past@[j].0
                &&& st < self.next_stamp
            } by {
                if j < k {
                    assert(self.history@[j] == old(self).history@[j]);
                }
            }
            assert forall|a: int, b: int| 0 <= a < b < self.history@.len() implies (#[trigger] self.history@[a]).4 < (#[trigger] self.history@[b]).4 by {
                assert(self.history@[a] == old(self).history@[a]);
            }
            assert(self.stamps() =~= old(self).stamps().push(stamp));
            let nn = n as int;
            assert forall|z: int| 0 <= z < nn implies #[trigger] self.root@[z] == (if old_root[z] == b as int { a as int } else { old_root[z] }) by {}
            lemma_class_values_join::<T>(self.init@, old_root, self.root@, a as int, b as int, nn);
            assert(old_node[a as int].0 < 0 && old_node[b as int].0 < 0);
            assert forall|r: int| 0 <= r < self.node@.len() && (#[trigger] self.node@[r]).0 < 0 implies self.node@[r].1 == fold::<T>(
                class_values(self.init@, self.root@, r, self.node@.len() as int),
            ) by {
                if r != a && r != b {
                    lemma_class_values_other(self.init@, old_root, self.root@, a as int, b as int, r, nn);
                    assert(self.node@[r] == old_node[r]);
                }
            }
            assert forall|k: int| 0 <= k < self.past@.len() implies values_ok::<T>(#[trigger] self.past@[k], self.init@) by {
                if k < self.past@.len() - 1 {
                    assert(self.past@[k] == old(self).past@[k]);
                }
            }
        }
        true
    }

    /// Each representative with the size and value of its set, in index order.
    pub fn leaders(&self) -> (r: Vec<(usize, usize, T::Value)>)
        where T::Value: Copy,
        requires
            self.wf(),
        ensures
            r@ == roots_of(self.nodes(), self.len() as int),
            forall|j: int| 0 <= j < r@.len() ==> (#[trigger] r@[j]).2 == fold::<T>(
                class_values(self.init(), self.current().1, r@[j].0 as int, self.len() as int),
            ),
    {
        let mut out: Vec<(usize, usize, T::Value)> = Vec::new();
        let mut i: usize = 0;
        while i < self.node.len()
            invariant
                self.wf(),
                i <= self.len(),
                out@ == roots_of(self.nodes(), i as int),
            decreases self.len() - i,
        {
            let (s, v) = self.node[i];
            if s < 0 {
                out.push((i, (-(s as i64)) as usize, v));
            }
            i += 1;
        }
        proof {
            lemma_roots_of_entries(self.node@, self.node@.len() as int);
        }
        out
    }

    /// Undoes the last merge in effect, if any.
    pub fn undo(&mut self)
        requires
            old(self).wf(),
        ensures
            final(self).wf(),
            final(self).len() == old(self).len(),
            final(self).next_stamp() == old(self).next_stamp(),
            old(self).snapshots().len() == 0 ==> *final(self) == *old(self),
            old(self).snapshots().len() > 0 ==> {
                &&& final(self).current() == old(self).snapshots().last()
                &&& final(self).snapshots() == old(self).snapshots().drop_last()
                &&& final(self).stamps() == old(self).stamps().drop_last()
            },
    {
        if self.history.len() > 0 {
            self.pop_record();
        }
    }

    /// Undoes the last merge in effect.
    fn pop_record(&mut self)
        requires
            old(self).wf(),
            old(self).history@.len() > 0,
        ensures
            final(self).wf(),
            final(self).len() == old(self).len(),
            final(self).next_stamp() == old(self).next_stamp(),
            final(self).current() == old(self).snapshots().last(),
            final(self).snapshots() == old(self).snapshots().drop_last(),
            final(self).stamps() == old(self).stamps().drop_last(),
            final(self).history@ == old(self).history@.drop_last(),
    {
        let ghost k = self.history@.len() - 1;
        let ghost last = self.past@[k];
        let (x, vx, y, vy, _st) = self.history.pop().unwrap();
        proof {
            assert(old(self).history@[k] == (x, vx, y, vy, _st));
            assert(after(old(self).past@, (old(self).node@, old(self).root@, old(self).rank@), k).0 == old(self).node@);
        }
        self.node.set(x as usize, vx);
        self.node.set(y as usize, vy);
        proof {
            self.root = Ghost(last.1);
            self.rank = Ghost(last.2);
            self.past = Ghost(self.past@.drop_last());
            assert(self.node@ == last.0);
            assert forall|j: int| 0 <= j < self.history@.len() implies {
                let (x, vx, y, vy, st) = #[trigger] self.history@[j];
                let nxt = after(self.past@, (self.node@, self.root@, self.rank@), j).0;
                &&& x < self.node@.len() && y < self.node@.len() && x != y
                &&& nxt.update(x as int, vx).update(y as int, vy) == self.past@[j].0
                &&& st < self.next_stamp
            } by {
                assert(self.history@[j] == old(self).history@[j]);
                assert(old(self).past@[j] == self.past@[j]);
                if j + 1 < self.past@.len() {
                    assert(old(self).past@[j + 1] == self.past@[j + 1]);
                }
            }
            assert forall|a: int, b: int| 0 <= a < b < self.history@.len() implies (#[trigger] self.history@[a]).4 < (#[trigger] self.history@[b]).4 by {
                assert(self.history@[a] == old(self).history@[a]);
                assert(self.history@[b] == old(self).history@[b]);
            }
            assert(forall|j: int| 0 <= j < self.past@.len() ==> #[trigger] self.past@[j] == old(self).past@[j]);
            assert((self.node@, self.root@, self.rank@) == last);
            assert(self.stamps() =~= old(self).stamps().drop_last());
        }
    }

    /// A key to the current point, to roll back to later. Before any merge is in effect it
    /// is the key of the state with none, to which a rollback undoes every merge.
    pub fn get_key(&self) -> (r: Key<T>)
        requires
            self.wf(),
        ensures
            r.len() == self.snapshots().len(),
            r.len() > 0 ==> r.stamp() == self.stamps().last(),
            r.len() > 0 ==> r.stamp() < self.next_stamp(),
            self.key_valid(&r),
    {
        let len = self.history.len();
        if len == 0 {
            return Key { len: 0, stamp: 0, marker: core::marker::PhantomData };
        }
        Key { len, stamp: self.history[len - 1].4, marker: core::marker::PhantomData }
    }

    /// Undoes the merges made after `key` was taken, if `key` is still valid; otherwise does
    /// nothing.
    pub fn rollback(&mut self, key: &Key<T>)
        requires
            old(self).wf(),
        ensures
            final(self).wf(),
            final(self).len() == old(self).len(),
            final(self).next_stamp() == old(self).next_stamp(),
            !old(self).key_valid(key) ==> *final(self) == *old(self),
            old(self).key_valid(key) ==> {
                &&& final(self).snapshots() == old(self).snapshots().take(key.len() as int)
                &&& final(self).stamps() == old(self).stamps().take(key.len() as int)
                &&& final(self).current() == after(old(self).snapshots(), old(self).current(), key.len() - 1)
                &&& final(self).key_valid(key)
            },
    {
        if !key.is_valid(self) {
            return;
        }
        let target = key.len;
        proof {
            assert(self.past@ =~= old(self).past@.take(self.past@.len() as int));
            assert(self.history@ =~= old(self).history@.take(self.history@.len() as int));
        }
        while self.history.len() > target
            invariant
                self.wf(),
                self.len() == old(self).len(),
                self.next_stamp == old(self).next_stamp,
                target <= self.history@.len() <= old(self).history@.len(),
                target == key.len(),
                old(self).past@.len() == old(self).history@.len(),
                self.past@ == old(self).past@.take(self.past@.len() as int),
                self.history@ == old(self).history@.take(self.history@.len() as int),
                self.current() == after(old(self).past@, old(self).current(), self.history@.len() - 1),
            decreases self.history@.len(),
        {
            let ghost l = self.history@.len() as int;
            let ghost pb = self.past@;
            let ghost hb = self.history@;
            proof {
                assert(pb.len() == l);
                assert(pb == old(self).past@.take(l));
                assert(pb[l - 1] == old(self).past@[l - 1]);
            }
            self.pop_record();
            proof {
                assert(pb.last() == pb[l - 1]);
                assert(self.past@ =~= old(self).past@.take(l - 1));
                assert(self.history@ =~= old(self).history@.take(l - 1));
            }
        }
        proof {
            assert(self.stamps() =~= old(self).stamps().take(key.len() as int));
        }
    }
}

/// A key that has lost its validity never regains it. From state `a` to state `b` the merges
/// in effect are a prefix of `a`'s followed by new ones, whose stamps are never below
/// `a`'s next stamp (so it is with `merge`, `undo` and `rollback`, one after another); a key
/// stamped before that and invalid in `a` stays invalid in `b`.
pub proof fn lemma_invalid_key_stays_invalid<T: Commutative + Monoid>(
    a: &RollbackUnionFind<T>,
    b: &RollbackUnionFind<T>,
    key: &Key<T>,
    j: int,
    fresh: Seq<u64>,
)
    requires
        0 <= j <= a.stamps().len(),
        b.stamps() == a.stamps().take(j) + fresh,
        forall|i: int| 0 <= i < fresh.len() ==> #[trigger] fresh[i] >= a.next_stamp(),
        key.stamp() < a.next_stamp(),
        !a.key_valid(key),
    ensures
        !b.key_valid(key),
{
    if b.key_valid(key) {
        let i = key.len() - 1;
        if i < j {
            assert(b.stamps()[i] == a.stamps()[i]);
        } else {
            assert(b.stamps()[i] == fresh[i - j]);
        }
    }
}

/// Each entry listed by `roots_of` is a representative with its own size and value.
proof fn lemma_roots_of_entries<V>(node: Seq<(i32, V)>, k: int)
    requires
        0 <= k <= node.len() <= i32::MAX,
    ensures
        forall|j: int| 0 <= j < roots_of(node, k).len() ==> {
            let e = #[trigger] roots_of(node, k)[j];
            &&& 0 <= e.0 < k
            &&& node[e.0 as int].0 < 0
            &&& e.2 == node[e.0 as int].1
        },
    decreases k,
{
    if k > 0 {
        lemma_roots_of_entries(node, k - 1);
        let pre = roots_of(node, k - 1);
        if node[k - 1].0 < 0 {
            assert forall|j: int| 0 <= j < roots_of(node, k).len() implies {
                let e = #[trigger] roots_of(node, k)[j];
                &&& 0 <= e.0 < k
                &&& node[e.0 as int].0 < 0
                &&& e.2 == node[e.0 as int].1
            } by {
                if j < pre.len() {
                    assert(roots_of(node, k)[j] == pre[j]);
                } else {
                    assert(roots_of(node, k)[j] == ((k - 1) as usize, (-node[k - 1].0) as usize, node[k - 1].1));
                    assert(((k - 1) as usize) as int == k - 1);
                }
            }
        }
    }
}

/// The representatives among the first `k` entries, with their sizes and values, in index
/// order.
pub open spec fn roots_of<V>(node: Seq<(i32, V)>, k: int) -> Seq<(usize, usize, V)>
    decreases k,
{
    if k <= 0 {
        seq![]
    } else if node[k - 1].0 < 0 {
        roots_of(node, k - 1).push(((k - 1) as usize, (-node[k - 1].0) as usize, node[k - 1].1))
    } else {
        roots_of(node, k - 1)
    }
}

} // verus!
