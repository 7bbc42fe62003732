//! Disjoint sets whose elements carry potentials in a group, known relative to one another
//! within a set.

use vstd::prelude::*;
use vstd::set_lib::*;
use vstd::laws_eq::obeys_concrete_eq;
use crate::ops::{SemiGroup, Identity, Inverse, Group};
use crate::union_find::{class_of, links_ok, lemma_links_at, lemma_link, lemma_class_finite};

verus! {

/// Disjoint sets over `0..n` in which each element `x` has a potential `P(x)`; within a set,
/// the relative potential `inv(P(t)) · P(s)` of any two elements is known.
pub struct UnionFindWithPotential<T: Group> {
    /// A parent index when non-negative, minus the size of the set at a representative.
    parent_or_size: Vec<i32>,
    /// `inv(P(parent)) · P(x)` for an element with a parent; the identity at a representative.
    weight: Vec<T::Value>,
    /// The representative of each element.
    root: Ghost<Seq<int>>,
    /// Strictly increases along parent links.
    rank: Ghost<Seq<nat>>,
    /// The potential of each element.
    pot: Ghost<Seq<T::Value>>,
}

/// Each element's potential is its parent's times its weight; representatives weigh the
/// identity.
pub open spec fn weights_ok<T: Group>(p: Seq<i32>, w: Seq<T::Value>, pot: Seq<T::Value>) -> bool {
    forall|x: int| 0 <= x < p.len() ==> {
        &&& (#[trigger] p[x] >= 0 ==> pot[x] == T::spec_op(pot[p[x] as int], w[x]))
        &&& (p[x] < 0 ==> w[x] == T::spec_id())
    }
}

/// `inv(y) · x` in a group.
pub open spec fn diff<T: Group>(x: T::Value, y: T::Value) -> T::Value {
    T::spec_op(T::spec_inv(y), x)
}

/// Relative potentials chain: `inv(c) · a == (inv(c) · b) · (inv(b) · a)`.
pub proof fn lemma_diff_chain<T: Group>(a: T::Value, b: T::Value, c: T::Value)
    ensures
        diff::<T>(a, c) == T::spec_op(diff::<T>(b, c), diff::<T>(a, b)),
{
    let ic = T::spec_inv(c);
    let ib = T::spec_inv(b);
    T::lemma_assoc(T::spec_op(ic, b), ib, a);
    T::lemma_assoc(ic, b, ib);
    T::lemma_inv(b);
    T::lemma_id(ic);
}

/// The relative potential of an element to itself is the identity.
pub proof fn lemma_diff_self<T: Group>(a: T::Value)
    ensures
        diff::<T>(a, a) == T::spec_id(),
{
    T::lemma_inv(a);
}

impl<T: Group> UnionFindWithPotential<T> {
    /// The number of elements.
    pub closed spec fn len(&self) -> nat {
        self.parent_or_size@.len()
    }

    /// The representative of the set holding `x`.
    pub closed spec fn root(&self, x: int) -> int {
        self.root@[x]
    }

    /// The set of elements whose representative is `r`.
    pub open spec fn class(&self, r: int) -> Set<int> {
        Set::new(|z: int| 0 <= z < self.len() && self.root(z) == r)
    }

    /// The potential of `s` relative to `t`: `inv(P(t)) · P(s)`. Only its value within a set
    /// is meaningful.
    pub closed spec fn rel(&self, s: int, t: int) -> T::Value {
        diff::<T>(self.pot@[s], self.pot@[t])
    }

    pub closed spec fn wf(&self) -> bool {
        let n = self.parent_or_size@.len();
        &&& n <= i32::MAX
        &&& self.weight@.len() == n
        &&& self.root@.len() == n
        &&& self.rank@.len() == n
        &&& self.pot@.len() == n
        &&& links_ok(self.parent_or_size@, self.root@, self.rank@)
        &&& weights_ok::<T>(self.parent_or_size@, self.weight@, self.pot@)
    }

    /// Relative potentials compose along a set: the potential of `x` relative to `z` is that
    /// of `y` relative to `z` times that of `x` relative to `y`.
    pub proof fn lemma_rel_chain(&self, x: int, y: int, z: int)
        ensures
            self.rel(x, z) == T::spec_op(self.rel(y, z), self.rel(x, y)),
    {
        lemma_diff_chain::<T>(self.pot@[x], self.pot@[y], self.pot@[z]);
    }

    /// An element's potential relative to itself is the identity.
    pub proof fn lemma_rel_self(&self, x: int)
        ensures
            self.rel(x, x) == T::spec_id(),
    {
        lemma_diff_self::<T>(self.pot@[x]);
    }

    /// `n` singleton sets.
    pub fn new(n: usize) -> (r: Self)
        where T::Value: Copy,
        requires
            n <= i32::MAX,
        ensures
            r.wf(),
            r.len() == n,
            forall|x: int| 0 <= x < n ==> #[trigger] r.root(x) == x,
    {
        let mut p: Vec<i32> = Vec::new();
        let mut w: Vec<T::Value> = Vec::new();
        let mut i: usize = 0;
        while i < n
            invariant
                i <= n,
                p@ == Seq::new(i as nat, |_j: int| -1i32),
                w@ == Seq::new(i as nat, |_j: int| T::spec_id()),
            decreases n - i,
        {
            p.push(-1);
            w.push(T::id());
            i += 1;
        }
        let ghost root = Seq::new(n as nat, |j: int| j);
        let ghost rank = Seq::new(n as nat, |_j: int| 0nat);
        let ghost pot = Seq::new(n as nat, |_j: int| T::spec_id());
        proof {
            reveal(links_ok);
            assert forall|x: int| 0 <= x < n implies class_of(root, x).len() == 1 by {
                assert(class_of(root, x) =~= set![x]);
            }
        }
        UnionFindWithPotential { parent_or_size: p, weight: w, root: Ghost(root), rank: Ghost(rank), pot: Ghost(pot) }
    }

    /// The representative of the set holding `x`; halves the path from `x` on the way.
    pub fn find(&mut self, x: usize) -> (r: usize)
        where T::Value: Copy,
        requires
            old(self).wf(),
            x < old(self).len(),
        ensures
            final(self).wf(),
            r == old(self).root(x as int),
            r < old(self).len(),
            final(self).len() == old(self).len(),
            forall|z: int| 0 <= z < old(self).len() ==> #[trigger] final(self).root(z) == old(self).root(z),
            forall|s: int, t: int| #[trigger] final(self).rel(s, t) == old(self).rel(s, t),
    {
        let ghost n = self.parent_or_size@.len();
        let mut cur = x;
        loop
            invariant
                self.wf(),
                self.parent_or_size@.len() == n,
                n == old(self).parent_or_size@.len(),
                x < n,
                cur < n,
                self.root == old(self).root,
                self.pot == old(self).pot,
                self.root@[cur as int] == old(self).root@[x as int],
            decreases n - self.rank@[cur as int],
        {
            proof {
                reveal(links_ok);
            }
            let px = self.parent_or_size[cur];
            if px < 0 {
                proof {
                    assert(0 <= self.root@[cur as int] < n);
                }
                return cur;
            }
            let ppx = self.parent_or_size[px as usize];
            if ppx < 0 {
                proof {
                    assert(0 <= self.root@[cur as int] < n);
                    assert(0 <= self.root@[px as int] < n);
                }
                return px as usize;
            }
            proof {
                assert(0 <= self.root@[cur as int] < n);
                assert(0 <= self.root@[px as int] < n);
                assert(0 <= self.root@[ppx as int] < n);
            }
            let ghost before = self.parent_or_size@;
            let ghost wb = self.weight@;
            let nw = T::op(self.weight[px as usize], self.weight[cur]);
            self.parent_or_size.set(cur, ppx);
            self.weight.set(cur, nw);
            proof {
                let pot = self.pot@;
                assert(pot[px as int] == T::spec_op(pot[ppx as int], wb[px as int]));
                assert(pot[cur as int] == T::spec_op(pot[px as int], wb[cur as int]));
                T::lemma_assoc(pot[ppx as int], wb[px as int], wb[cur as int]);
                assert forall|z: int| 0 <= z < n implies {
                    let p = self.parent_or_size@;
                    &&& 0 <= #[trigger] self.root@[z] < n
                    &&& p[self.root@[z]] < 0
                    &&& self.rank@[z] < n
                    &&& (p[z] < 0 ==> self.root@[z] == z)
                    &&& (p[z] >= 0 ==> p[z] < n && self.rank@[z] < self.rank@[p[z] as int]
                        && self.root@[z] == self.root@[p[z] as int])
                    &&& (p[z] < 0 ==> -p[z] == class_of(self.root@, z).len() && self.rank@[z] < -p[z])
                } by {
                    let r = self.root@[z];
                    assert(0 <= self.root@[z] < n);
                    assert(before[r] < 0);
                    if z != cur as int && before[z] >= 0 {
                        assert(0 <= self.root@[before[z] as int] < n);
                    }
                }
                assert forall|z: int| 0 <= z < n implies {
                    &&& (#[trigger] self.parent_or_size@[z] >= 0 ==> pot[z] == T::spec_op(pot[self.parent_or_size@[z] as int], self.weight@[z]))
                    &&& (self.parent_or_size@[z] < 0 ==> self.weight@[z] == T::spec_id())
                } by {
                    assert(before[z] >= 0 ==> pot[z] == T::spec_op(pot[before[z] as int], wb[z]));
                }
            }
            cur = ppx as usize;
        }
    }

    /// Whether `x` and `y` are in the same set.
    pub fn same(&mut self, x: usize, y: usize) -> (r: bool)
        where T::Value: Copy,
        requires
            old(self).wf(),
            x < old(self).len(),
            y < old(self).len(),
        ensures
            final(self).wf(),
            r == (old(self).root(x as int) == old(self).root(y as int)),
            final(self).len() == old(self).len(),
            forall|z: int| 0 <= z < old(self).len() ==> #[trigger] final(self).root(z) == old(self).root(z),
            forall|s: int, t: int| #[trigger] final(self).rel(s, t) == old(self).rel(s, t),
    {
        let a = self.find(x);
        let b = self.find(y);
        a == b
    }

    /// The number of elements in the set holding `x`.
    pub fn size(&mut self, x: usize) -> (r: usize)
        where T::Value: Copy,
        requires
            old(self).wf(),
            x < old(self).len(),
        ensures
            final(self).wf(),
            r == old(self).class(old(self).root(x as int)).len(),
            final(self).len() == old(self).len(),
            forall|z: int| 0 <= z < old(self).len() ==> #[trigger] final(self).root(z) == old(self).root(z),
            forall|s: int, t: int| #[trigger] final(self).rel(s, t) == old(self).rel(s, t),
    {
        let r = self.find(x);
        proof {
            assert(self.class(r as int) =~= class_of(self.root@, r as int));
            assert(old(self).class(r as int) =~= class_of(self.root@, r as int));
        }
        let s = self.parent_or_size[r];
        proof {
            lemma_links_at(self.parent_or_size@, self.root@, self.rank@, x as int);
            lemma_links_at(self.parent_or_size@, self.root@, self.rank@, r as int);
            assert(self.root(x as int) == r);
            assert(self.parent_or_size@[r as int] < 0);
            assert(s == self.parent_or_size@[r as int]);
            lemma_class_finite(self.root@, r as int);
            assert(-s == class_of(self.root@, r as int).len());
        }
        (-(s as i64)) as usize
    }

    /// The representative of `x` and the potential of `x` relative to it.
    fn weight_to_root(&self, x: usize) -> (r: (usize, T::Value))
        where T::Value: Copy,
        requires
            self.wf(),
            x < self.len(),
        ensures
            r.0 == self.root(x as int),
            r.0 < self.len(),
            r.1 == self.rel(x as int, r.0 as int),
        decreases self.len() - self.rank@[x as int],
    {
        proof {
            lemma_links_at(self.parent_or_size@, self.root@, self.rank@, x as int);
        }
        let p = self.parent_or_size[x];
        if p < 0 {
            proof {
                lemma_diff_self::<T>(self.pot@[x as int]);
            }
            return (x, T::id());
        }
        proof {
            lemma_links_at(self.parent_or_size@, self.root@, self.rank@, p as int);
        }
        let (r, wp) = self.weight_to_root(p as usize);
        let w = T::op(wp, self.weight[x]);
        proof {
            let pot = self.pot@;
            assert(weights_ok::<T>(self.parent_or_size@, self.weight@, pot));
            assert(self.parent_or_size@[x as int] >= 0);
            assert(pot[x as int] == T::spec_op(pot[p as int], self.weight@[x as int]));
            // inv(P(r)) · P(x) == (inv(P(r)) · P(p)) · w[x]
            T::lemma_assoc(T::spec_inv(pot[r as int]), pot[p as int], self.weight@[x as int]);
        }
        (r, w)
    }

    /// The potential of `source` relative to `target`, `inv(P(target)) · P(source)`, if they
    /// are in the same set.
    pub fn potential(&mut self, source: usize, target: usize) -> (r: Option<T::Value>)
        where T::Value: Copy,
        requires
            old(self).wf(),
            source < old(self).len(),
            target < old(self).len(),
        ensures
            final(self).wf(),
            final(self).len() == old(self).len(),
            forall|z: int| 0 <= z < old(self).len() ==> #[trigger] final(self).root(z) == old(self).root(z),
            forall|s: int, t: int| #[trigger] final(self).rel(s, t) == old(self).rel(s, t),
            old(self).root(source as int) != old(self).root(target as int) ==> r is None,
            old(self).root(source as int) == old(self).root(target as int) ==> r == Some(old(self).rel(source as int, target as int)),
    {
        let (rs, ws) = self.weight_to_root(source);
        let (rt, wt) = self.weight_to_root(target);
        if rs != rt {
            return None;
        }
        proof {
            lemma_diff_chain::<T>(self.pot@[source as int], self.pot@[rs as int], self.pot@[target as int]);
            lemma_inv_diff::<T>(self.pot@[target as int], self.pot@[rs as int]);
        }
        Some(T::op(T::inv(wt), ws))
    }

    /// Adds the relation `P(source) = P(target) · potential`.
    ///
    /// Returns `Err(())` if the two are already in one set with another relative potential,
    /// `Ok(false)` if they are in one set with this one, and `Ok(true)` after merging their
    /// sets; the larger set's representative (that of `source` on a tie) stays the
    /// representative.
    pub fn union(&mut self, source: usize, target: usize, potential: T::Value) -> (r: Result<bool, ()>)
        where T::Value: Copy + PartialEq,
        requires
            old(self).wf(),
            source < old(self).len(),
            target < old(self).len(),
            obeys_concrete_eq::<T::Value>(),
        ensures
            final(self).wf(),
            final(self).len() == old(self).len(),
            ({
                let same = old(self).root(source as int) == old(self).root(target as int);
                let agrees = old(self).rel(source as int, target as int) == potential;
                &&& (same && agrees) <==> r == Ok::<bool, ()>(false)
                &&& (same && !agrees) <==> r == Err::<bool, ()>(())
                &&& !same <==> r == Ok::<bool, ()>(true)
            }),
            r != Ok::<bool, ()>(true) ==> forall|z: int| 0 <= z < old(self).len() ==> #[trigger] final(self).root(z) == old(self).root(z),
            r != Ok::<bool, ()>(true) ==> forall|s: int, t: int| #[trigger] final(self).rel(s, t) == old(self).rel(s, t),
            r == Ok::<bool, ()>(true) ==> {
                let rs = old(self).root(source as int);
                let rt = old(self).root(target as int);
                let nr = final(self).root(source as int);
                &&& nr == rs || nr == rt
                &&& forall|z: int| 0 <= z < old(self).len() ==> #[trigger] final(self).root(z) == (
                    if old(self).root(z) == rs || old(self).root(z) == rt { nr } else { old(self).root(z) })
                &&& final(self).rel(source as int, target as int) == potential
                &&& forall|s: int, t: int| 0 <= s < old(self).len() && 0 <= t < old(self).len()
                    && old(self).root(s) == old(self).root(t) ==> #[trigger] final(self).rel(s, t) == old(self).rel(s, t)
                &&& final(self).class(nr).len() == old(self).class(rs).len() + old(self).class(rt).len()
            },
    {
        let ghost n = self.parent_or_size@.len();
        let (rs, ws) = self.weight_to_root(source);
        let (rt, wt) = self.weight_to_root(target);
        if rs == rt {
            proof {
                lemma_diff_chain::<T>(self.pot@[source as int], self.pot@[rs as int], self.pot@[target as int]);
                lemma_inv_diff::<T>(self.pot@[target as int], self.pot@[rs as int]);
                reveal(obeys_concrete_eq);
            }
            let p = T::op(T::inv(wt), ws);
            if potential == p {
                return Ok(false);
            } else {
                return Err(());
            }
        }
        proof {
            lemma_links_at(self.parent_or_size@, self.root@, self.rank@, source as int);
            lemma_links_at(self.parent_or_size@, self.root@, self.rank@, target as int);
            lemma_links_at(self.parent_or_size@, self.root@, self.rank@, rs as int);
            lemma_links_at(self.parent_or_size@, self.root@, self.rank@, rt as int);
        }
        // Hang `b` under `a`, with the weight that makes `P(source) = P(target) · potential`.
        let (a, b, wb) = if self.parent_or_size[rs] <= self.parent_or_size[rt] {
            // P(rt) = P(rs) · ws · inv(potential) · inv(wt)
            (rs, rt, T::op(T::op(ws, T::inv(potential)), T::inv(wt)))
        } else {
            // P(rs) = P(rt) · wt · potential · inv(ws)
            (rt, rs, T::op(T::op(wt, potential), T::inv(ws)))
        };
        let ghost old_root = self.root@;
        let ghost old_rank = self.rank@;
        let ghost old_p = self.parent_or_size@;
        let ghost old_pot = self.pot@;
        let ghost old_w = self.weight@;
        let sa = self.parent_or_size[a];
        let sb = self.parent_or_size[b];
        proof {
            lemma_link(old_p, old_root, old_rank, a as int, b as int);
        }
        self.parent_or_size.set(a, sa + sb);
        self.parent_or_size.set(b, a as i32);
        self.weight.set(b, wb);
        proof {
            let new_root = Seq::new(n, |z: int| if old_root[z] == b as int { a as int } else { old_root[z] });
            let ra = old_rank[a as int];
            let rb = old_rank[b as int];
            // the set of `b` moves so that `P'(b) = P(a) · wb`
            let shift = T::spec_op(T::spec_op(old_pot[a as int], wb), T::spec_inv(old_pot[b as int]));
            let new_pot = Seq::new(n, |z: int| if old_root[z] == b as int { T::spec_op(shift, old_pot[z]) } else { old_pot[z] });
            self.root = Ghost(new_root);
            self.rank = Ghost(old_rank.update(a as int, if ra > rb + 1 { ra } else { rb + 1 }));
            self.pot = Ghost(new_pot);
            assert(self.parent_or_size@ == old_p.update(a as int, (old_p[a as int] + old_p[b as int]) as i32).update(b as int, a as i32));
            lemma_shift_root::<T>(old_pot[a as int], wb, old_pot[b as int]);
            assert(new_pot[b as int] == T::spec_op(new_pot[a as int], wb));
            assert forall|z: int| 0 <= z < n implies {
                &&& (#[trigger] self.parent_or_size@[z] >= 0 ==> new_pot[z] == T::spec_op(new_pot[self.parent_or_size@[z] as int], self.weight@[z]))
                &&& (self.parent_or_size@[z] < 0 ==> self.weight@[z] == T::spec_id())
            } by {
                lemma_links_at(old_p, old_root, old_rank, z);
                if z != b as int && old_p[z] >= 0 {
                    let q = old_p[z] as int;
                    lemma_links_at(old_p, old_root, old_rank, q);
                    assert(old_pot[z] == T::spec_op(old_pot[q], old_w[z]));
                    if old_root[z] == b as int {
                        T::lemma_assoc(shift, old_pot[q], old_w[z]);
                    }
                }
            }
            // the relation just added
            lemma_union_rel::<T>(old_pot[source as int], old_pot[target as int], old_pot[rs as int], old_pot[rt as int], ws, wt, potential, shift, a == rs);
            assert(ws == diff::<T>(old_pot[source as int], old_pot[rs as int]));
            assert(wt == diff::<T>(old_pot[target as int], old_pot[rt as int]));
            // sizes
            let ca = class_of(old_root, a as int);
            let cb = class_of(old_root, b as int);
            lemma_class_finite(old_root, a as int);
            lemma_class_finite(old_root, b as int);
            assert(class_of(self.root@, a as int) =~= ca + cb);
            assert(ca.disjoint(cb));
            lemma_set_disjoint_lens(ca, cb);
            assert(self.class(a as int) =~= class_of(self.root@, a as int));
            assert(old(self).class(rs as int) =~= class_of(old_root, rs as int));
            assert(old(self).class(rt as int) =~= class_of(old_root, rt as int));
            assert(self.root@[source as int] == a);
            assert forall|s: int, t: int| 0 <= s < n && 0 <= t < n && old(self).root(s) == old(self).root(t)
                implies #[trigger] self.rel(s, t) == old(self).rel(s, t) by {
                if old_root[s] == b as int {
                    lemma_shift_diff::<T>(shift, old_pot[s], old_pot[t]);
                }
            }
        }
        Ok(true)
    }
}

/// `inv(inv(y) · x) == inv(x) · y`.
proof fn lemma_inv_diff<T: Group>(x: T::Value, y: T::Value)
    ensures
        T::spec_inv(diff::<T>(x, y)) == diff::<T>(y, x),
{
    lemma_inv_op::<T>(T::spec_inv(y), x);
    lemma_inv_inv::<T>(y);
}

/// Shifting two potentials by the same element on the left keeps their difference.
proof fn lemma_shift_diff<T: Group>(c: T::Value, x: T::Value, y: T::Value)
    ensures
        diff::<T>(T::spec_op(c, x), T::spec_op(c, y)) == diff::<T>(x, y),
{
    lemma_inv_op::<T>(c, y);
    let iy = T::spec_inv(y);
    let ic = T::spec_inv(c);
    T::lemma_assoc(T::spec_op(iy, ic), c, x);
    T::lemma_assoc(iy, ic, c);
    T::lemma_inv(c);
    T::lemma_id(iy);
}

/// `inv(a · b) == inv(b) · inv(a)`.
proof fn lemma_inv_op<T: Group>(a: T::Value, b: T::Value)
    ensures
        T::spec_inv(T::spec_op(a, b)) == T::spec_op(T::spec_inv(b), T::spec_inv(a)),
{
    let z = T::spec_op(a, b);
    let w = T::spec_op(T::spec_inv(b), T::spec_inv(a));
    // z · w == id
    T::lemma_assoc(a, b, w);
    T::lemma_assoc(b, T::spec_inv(b), T::spec_inv(a));
    T::lemma_inv(b);
    T::lemma_id(T::spec_inv(a));
    T::lemma_inv(a);
    // inv(z) == inv(z) · (z · w) == w
    T::lemma_inv(z);
    T::lemma_assoc(T::spec_inv(z), z, w);
    T::lemma_id(T::spec_inv(z));
    T::lemma_id(w);
}

/// `((pa · wb) · inv(pb)) · pb == pa · wb`.
proof fn lemma_shift_root<T: Group>(pa: T::Value, wb: T::Value, pb: T::Value)
    ensures
        T::spec_op(T::spec_op(T::spec_op(pa, wb), T::spec_inv(pb)), pb) == T::spec_op(pa, wb),
{
    let q = T::spec_op(pa, wb);
    T::lemma_assoc(q, T::spec_inv(pb), pb);
    T::lemma_inv(pb);
    T::lemma_id(q);
}

/// After hanging one representative under the other with the chosen weight, the potential
/// of `source` relative to `target` is `potential`.
proof fn lemma_union_rel<T: Group>(
    ps: T::Value, pt: T::Value, prs: T::Value, prt: T::Value,
    ws: T::Value, wt: T::Value, potential: T::Value, shift: T::Value, a_is_rs: bool,
)
    requires
        ws == diff::<T>(ps, prs),
        wt == diff::<T>(pt, prt),
        a_is_rs ==> shift == T::spec_op(T::spec_op(prs, T::spec_op(T::spec_op(ws, T::spec_inv(potential)), T::spec_inv(wt))), T::spec_inv(prt)),
        !a_is_rs ==> shift == T::spec_op(T::spec_op(prt, T::spec_op(T::spec_op(wt, potential), T::spec_inv(ws))), T::spec_inv(prs)),
    ensures
        a_is_rs ==> diff::<T>(ps, T::spec_op(shift, pt)) == potential,
        !a_is_rs ==> diff::<T>(T::spec_op(shift, ps), pt) == potential,
{
    // P(s) = P(rs) · ws and P(t) = P(rt) · wt
    T::lemma_inv(prs);
    T::lemma_inv(prt);
    T::lemma_assoc(prs, T::spec_inv(prs), ps);
    T::lemma_id(ps);
    T::lemma_assoc(prt, T::spec_inv(prt), pt);
    T::lemma_id(pt);
    assert(ps == T::spec_op(prs, ws));
    assert(pt == T::spec_op(prt, wt));
    if a_is_rs {
        // shift · pt == prs · ws · inv(potential), so inv(shift · pt) · ps == potential
        let x = T::spec_op(T::spec_op(ws, T::spec_inv(potential)), T::spec_inv(wt));
        T::lemma_assoc(T::spec_op(prs, x), T::spec_inv(prt), pt);
        T::lemma_assoc(T::spec_inv(prt), prt, wt);
        T::lemma_id(wt);
        T::lemma_assoc(prs, x, wt);
        T::lemma_assoc(T::spec_op(ws, T::spec_inv(potential)), T::spec_inv(wt), wt);
        T::lemma_inv(wt);
        T::lemma_id(T::spec_op(ws, T::spec_inv(potential)));
        T::lemma_assoc(prs, ws, T::spec_inv(potential));
        let y = T::spec_op(ps, T::spec_inv(potential));
        assert(T::spec_op(shift, pt) == y);
        lemma_inv_op::<T>(ps, T::spec_inv(potential));
        lemma_inv_inv::<T>(potential);
        T::lemma_assoc(potential, T::spec_inv(ps), ps);
        T::lemma_inv(ps);
        T::lemma_id(potential);
    } else {
        let x = T::spec_op(T::spec_op(wt, potential), T::spec_inv(ws));
        T::lemma_assoc(T::spec_op(prt, x), T::spec_inv(prs), ps);
        T::lemma_assoc(T::spec_inv(prs), prs, ws);
        T::lemma_id(ws);
        T::lemma_assoc(prt, x, ws);
        T::lemma_assoc(T::spec_op(wt, potential), T::spec_inv(ws), ws);
        T::lemma_inv(ws);
        T::lemma_id(T::spec_op(wt, potential));
        T::lemma_assoc(prt, wt, potential);
        assert(T::spec_op(shift, ps) == T::spec_op(pt, potential));
        T::lemma_assoc(T::spec_inv(pt), pt, potential);
        T::lemma_inv(pt);
        T::lemma_id(potential);
    }
}

/// `inv(inv(a)) == a`.
proof fn lemma_inv_inv<T: Group>(a: T::Value)
    ensures
        T::spec_inv(T::spec_inv(a)) == a,
{
    let b = T::spec_inv(a);
    T::lemma_inv(b);
    T::lemma_inv(a);
    // inv(b) == inv(b) · (b · a) == (inv(b) · b) · a == a
    T::lemma_assoc(T::spec_inv(b), b, a);
    T::lemma_id(T::spec_inv(b));
    T::lemma_id(a);
}

} // verus!
