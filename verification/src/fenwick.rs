//! Fenwick trees (binary indexed trees) over commutative monoids.

use vstd::prelude::*;
use crate::ops::{SemiGroup, Identity, Monoid, Inverse, Group, Commutative, fold, lemma_fold_concat, lemma_fold_single, lemma_fold_ids};
use crate::segtree::{accepts, rejects, steady};

verus! {

/// The start of the block that ends at the 1-based position `m`: `m` with its lowest set
/// bit cleared.
pub open spec fn low(m: usize) -> usize {
    m & ((m - 1) as usize)
}

proof fn lemma_low_lt(m: usize)
    requires
        m > 0,
    ensures
        low(m) < m,
{
    assert(m > 0 ==> (m & ((m - 1) as usize)) < m) by (bit_vector);
}

/// Inside the block of `m`, every block starts no earlier than the block of `m`.
proof fn lemma_low_inside(m: usize, k: usize)
    requires
        low(m) < k < m,
    ensures
        low(k) >= low(m),
        low(k) < k,
{
    assert((m & ((m - 1) as usize)) < k && k < m ==> (k & ((k - 1) as usize)) >= (m & ((m - 1) as usize)))
        by (bit_vector);
    lemma_low_lt(k);
}

/// Stepping from `j` to `nj`, the next block that contains position `j - 1`.
proof fn lemma_next_block(j: usize, nj: usize)
    requires
        0 < j,
        nj == j + (j - low(j)),
    ensures
        j < nj,
        low(nj) <= low(j),
        forall|m: usize| j < m < nj ==> #[trigger] low(m) >= j,
{
    lemma_low_lt(j);
    assert(0 < j && nj == j + (j - (j & ((j - 1) as usize))) ==> (nj & ((nj - 1) as usize)) <= (j & ((j - 1) as usize)))
        by (bit_vector);
    assert forall|m: usize| j < m < nj implies #[trigger] low(m) >= j by {
        assert(0 < j && nj == j + (j - (j & ((j - 1) as usize))) && j < m && m < nj
            ==> (m & ((m - 1) as usize)) >= j) by (bit_vector);
    }
}

/// `op(op(a, b), op(c, d))` rearranged, for a commutative operation.
proof fn lemma_rearrange<T: SemiGroup + Commutative>(a: T::Value, b: T::Value, c: T::Value, d: T::Value)
    ensures
        T::spec_op(T::spec_op(a, b), T::spec_op(c, d)) == T::spec_op(a, T::spec_op(T::spec_op(c, b), d)),
        T::spec_op(T::spec_op(a, b), T::spec_op(c, d)) == T::spec_op(a, T::spec_op(c, T::spec_op(d, b))),
{
    T::lemma_assoc(a, b, T::spec_op(c, d));
    T::lemma_assoc(b, c, d);
    T::lemma_comm(b, c);
    T::lemma_assoc(c, b, d);
    T::lemma_comm(b, d);
    T::lemma_assoc(c, d, b);
}

/// In a commutative group, `x` cancels against its inverse from either side of `y`.
proof fn lemma_cancel<T: Group + Commutative>(x: T::Value, y: T::Value)
    ensures
        T::spec_op(T::spec_op(x, y), T::spec_inv(x)) == y,
{
    T::lemma_comm(x, y);
    T::lemma_assoc(y, x, T::spec_inv(x));
    T::lemma_inv(x);
    T::lemma_id(y);
}

/// In a commutative group, the inverse of `op(x, y)` is `op(inv(x), inv(y))`.
proof fn lemma_inv_op<T: Group + Commutative>(x: T::Value, y: T::Value)
    ensures
        T::spec_inv(T::spec_op(x, y)) == T::spec_op(T::spec_inv(x), T::spec_inv(y)),
{
    let z = T::spec_op(x, y);
    let w = T::spec_op(T::spec_inv(x), T::spec_inv(y));
    // z · w == id
    lemma_rearrange::<T>(x, y, T::spec_inv(x), T::spec_inv(y));
    T::lemma_inv(y);
    T::lemma_id(T::spec_inv(x));
    T::lemma_inv(x);
    T::lemma_comm(T::spec_inv(x), y);
    T::lemma_assoc(x, y, T::spec_inv(y));
    assert(T::spec_op(z, w) == T::spec_id()) by {
        T::lemma_assoc(T::spec_op(x, y), T::spec_inv(x), T::spec_inv(y));
        lemma_cancel::<T>(x, y);
        T::lemma_assoc(x, T::spec_op(y, T::spec_inv(x)), T::spec_inv(y));
        T::lemma_assoc(T::spec_op(x, y), T::spec_inv(x), T::spec_inv(y));
    }
    // inv(z) == inv(z) · (z · w) == (inv(z) · z) · w == w
    T::lemma_inv(z);
    T::lemma_assoc(T::spec_inv(z), z, w);
    T::lemma_id(T::spec_inv(z));
    T::lemma_id(w);
}

/// Combining `x` into one element of a range combines it into the fold of the range.
proof fn lemma_fold_update<T: Monoid + Commutative>(a: Seq<T::Value>, i: int, x: T::Value, s: int, e: int)
    requires
        0 <= s <= i < e <= a.len(),
    ensures
        fold::<T>(a.update(i, T::spec_op(a[i], x)).subrange(s, e)) == T::spec_op(fold::<T>(a.subrange(s, e)), x),
{
    let b = a.update(i, T::spec_op(a[i], x));
    let l = a.subrange(s, i);
    let r = a.subrange(i + 1, e);
    assert(a.subrange(s, e) =~= l + seq![a[i]] + r);
    assert(b.subrange(s, e) =~= l + seq![T::spec_op(a[i], x)] + r);
    lemma_fold_concat::<T>(l + seq![a[i]], r);
    lemma_fold_concat::<T>(l, seq![a[i]]);
    lemma_fold_concat::<T>(l + seq![T::spec_op(a[i], x)], r);
    lemma_fold_concat::<T>(l, seq![T::spec_op(a[i], x)]);
    assert(seq![a[i]].drop_last() =~= Seq::<T::Value>::empty());
    assert(seq![T::spec_op(a[i], x)].drop_last() =~= Seq::<T::Value>::empty());
    T::lemma_id(a[i]);
    T::lemma_id(T::spec_op(a[i], x));
    lemma_fold_single::<T>(a[i]);
    lemma_fold_single::<T>(T::spec_op(a[i], x));
    let fl = fold::<T>(l);
    let fr = fold::<T>(r);
    let aa = T::spec_op(fl, a[i]);
    T::lemma_assoc(fl, a[i], x);
    T::lemma_assoc(aa, x, fr);
    T::lemma_comm(x, fr);
    T::lemma_assoc(aa, fr, x);
}

/// Updating one element changes the prefix folds that cover it, and only those: after
/// `a[i]` becomes `op(a[i], x)`, the fold of the first `n` elements is the old one combined
/// with `x` when `n > i`, and unchanged otherwise.
pub proof fn lemma_prefix_after_update<T: Monoid + Commutative>(a: Seq<T::Value>, i: int, x: T::Value, n: int)
    requires
        0 <= i < a.len(),
        0 <= n <= a.len(),
    ensures
        fold::<T>(a.update(i, T::spec_op(a[i], x)).subrange(0, n)) == (if n > i {
            T::spec_op(fold::<T>(a.subrange(0, n)), x)
        } else {
            fold::<T>(a.subrange(0, n))
        }),
{
    if n > i {
        lemma_fold_update::<T>(a, i, x, 0, n);
    } else {
        assert(a.update(i, T::spec_op(a[i], x)).subrange(0, n) =~= a.subrange(0, n));
    }
}

/// Prefix folds of a sequence of a commutative monoid under point updates.
pub struct FenwickTree<T: SemiGroup + Commutative> {
    lefts: Vec<T::Value>,
    data: Ghost<Seq<T::Value>>,
}

impl<T: Monoid + Commutative> FenwickTree<T> {
    /// The sequence the tree stands for.
    pub closed spec fn view_seq(&self) -> Seq<T::Value> {
        self.data@
    }

    pub closed spec fn wf(&self) -> bool {
        &&& self.lefts@.len() == self.data@.len()
        &&& self.data@.len() <= usize::MAX / 2
        &&& forall|m: usize| 0 < m <= self.data@.len() ==> #[trigger] self.lefts@[m - 1] == fold::<T>(
            self.data@.subrange(low(m) as int, m as int),
        )
    }

    /// `n` copies of the identity.
    pub fn new(n: usize) -> (r: Self)
        where T::Value: Copy,
        requires
            n <= usize::MAX / 2,
        ensures
            r.wf(),
            r.view_seq() == Seq::new(n as nat, |i: int| T::spec_id()),
    {
        let mut lefts: Vec<T::Value> = Vec::new();
        let mut i: usize = 0;
        while i < n
            invariant
                i <= n,
                lefts@ == Seq::new(i as nat, |j: int| T::spec_id()),
            decreases n - i,
        {
            lefts.push(T::id());
            i += 1;
        }
        let ghost data = Seq::new(n as nat, |i: int| T::spec_id());
        proof {
            assert forall|m: usize| 0 < m <= n implies #[trigger] lefts@[m - 1] == fold::<T>(
                data.subrange(low(m) as int, m as int),
            ) by {
                lemma_low_lt(m);
                lemma_fold_ids::<T>(data.subrange(low(m) as int, m as int));
                assert(data.subrange(low(m) as int, m as int).len() == m - low(m));
            }
        }
        FenwickTree { lefts, data: Ghost(data) }
    }

    /// Builds the tree over `value`.
    pub fn from(value: Vec<T::Value>) -> (r: Self)
        where T::Value: Copy,
        requires
            value@.len() <= usize::MAX / 2,
        ensures
            r.wf(),
            r.view_seq() == value@,
    {
        let ghost a = value@;
        let n = value.len();
        let mut lefts = value;
        let mut m: usize = 1;
        while m <= n
            invariant
                a.len() == n,
                n <= usize::MAX / 2,
                1 <= m <= n + 1,
                lefts@.len() == n,
                forall|j: int| m - 1 <= j < n ==> #[trigger] lefts@[j] == a[j],
                forall|q: usize| 0 < q < m ==> #[trigger] lefts@[q - 1] == fold::<T>(a.subrange(low(q) as int, q as int)),
            decreases n + 1 - m,
        {
            let lm = m & (m - 1);
            proof {
                lemma_low_lt(m);
                assert(a.subrange(m - 1, m as int) =~= seq![a[m - 1]]);
                lemma_fold_single::<T>(a[m - 1]);
            }
            let mut acc = lefts[m - 1];
            let mut k: usize = m - 1;
            while k > lm
                invariant
                    lm == low(m),
                    lm <= k < m <= n,
                    a.len() == n,
                    lefts@.len() == n,
                    forall|q: usize| 0 < q < m ==> #[trigger] lefts@[q - 1] == fold::<T>(a.subrange(low(q) as int, q as int)),
                    acc == fold::<T>(a.subrange(k as int, m as int)),
                decreases k,
            {
                proof {
                    lemma_low_inside(m, k);
                    lemma_fold_concat::<T>(a.subrange(low(k) as int, k as int), a.subrange(k as int, m as int));
                    assert(a.subrange(low(k) as int, k as int) + a.subrange(k as int, m as int) =~= a.subrange(
                        low(k) as int,
                        m as int,
                    ));
                }
                acc = T::op(lefts[k - 1], acc);
                k = k & (k - 1);
            }
            lefts.set(m - 1, acc);
            m += 1;
        }
        FenwickTree { lefts, data: Ghost(a) }
    }

    /// The fold of the first `n` elements.
    pub fn prefix_query(&self, n: usize) -> (r: T::Value)
        where T::Value: Copy,
        requires
            self.wf(),
            n <= self.view_seq().len(),
        ensures
            r == fold::<T>(self.view_seq().subrange(0, n as int)),
    {
        let ghost a = self.data@;
        let mut res = T::id();
        let mut k = n;
        proof {
            assert(a.subrange(n as int, n as int) =~= Seq::<T::Value>::empty());
        }
        while k > 0
            invariant
                self.wf(),
                a == self.data@,
                k <= n <= a.len(),
                res == fold::<T>(a.subrange(k as int, n as int)),
            decreases k,
        {
            proof {
                lemma_low_lt(k);
                lemma_fold_concat::<T>(a.subrange(low(k) as int, k as int), a.subrange(k as int, n as int));
                assert(a.subrange(low(k) as int, k as int) + a.subrange(k as int, n as int) =~= a.subrange(
                    low(k) as int,
                    n as int,
                ));
            }
            res = T::op(self.lefts[k - 1], res);
            k = k & (k - 1);
        }
        res
    }

    /// Combines `additional` into the `i`-th element: it becomes `op(a[i], additional)`.
    pub fn point_update(&mut self, i: usize, additional: T::Value)
        where T::Value: Copy,
        requires
            old(self).wf(),
            i < old(self).view_seq().len(),
        ensures
            final(self).wf(),
            final(self).view_seq() == old(self).view_seq().update(
                i as int,
                T::spec_op(old(self).view_seq()[i as int], additional),
            ),
    {
        let ghost a = self.data@;
        let ghost b = a.update(i as int, T::spec_op(a[i as int], additional));
        let n = self.lefts.len();
        let mut j = i + 1;
        proof {
            lemma_low_lt(j);
            assert(low(j) <= i) by {
                assert((j & ((j - 1) as usize)) <= ((j - 1) as usize)) by (bit_vector);
            }
        }
        proof {
            assert forall|m: usize| 0 < m <= n && (m < j || low(m) > i || m <= i) implies
                #[trigger] fold::<T>(a.subrange(low(m) as int, m as int)) == fold::<T>(b.subrange(low(m) as int, m as int)) by {
                lemma_low_lt(m);
                assert(a.subrange(low(m) as int, m as int) =~= b.subrange(low(m) as int, m as int));
            }
        }
        while j <= n
            invariant
                a == self.data@,
                b == a.update(i as int, T::spec_op(a[i as int], additional)),
                n == a.len(),
                n <= usize::MAX / 2,
                self.lefts@.len() == n,
                i < j,
                j <= n ==> low(j) <= i,
                forall|m: usize| 0 < m <= n ==> #[trigger] self.lefts@[m - 1] == (if m < j || low(m) > i || m <= i {
                    fold::<T>(b.subrange(low(m) as int, m as int))
                } else {
                    fold::<T>(a.subrange(low(m) as int, m as int))
                }),
            decreases usize::MAX - j,
        {
            proof {
                lemma_fold_update::<T>(a, i as int, additional, low(j) as int, j as int);
                lemma_low_lt(j);
            }
            let v = T::op(self.lefts[j - 1], additional);
            self.lefts.set(j - 1, v);
            let nj = j + (j - (j & (j - 1)));
            proof {
                lemma_next_block(j, nj);
            }
            j = nj;
        }
        proof {
            assert forall|m: usize| 0 < m <= n implies #[trigger] self.lefts@[m - 1] == fold::<T>(
                b.subrange(low(m) as int, m as int),
            ) by {
                if low(m) > i || m <= i {
                    lemma_low_lt(m);
                    assert(a.subrange(low(m) as int, m as int) =~= b.subrange(low(m) as int, m as int));
                }
            }
        }
        self.data = Ghost(b);
    }

    /// The number of leading elements whose fold `pred` accepts, found by halving steps, with
    /// that fold: `i` with `pred` accepting the fold of the first `i` elements (unless `i` is
    /// 0) and rejecting that of the first `i + 1` (unless `i` is the length). When `pred`
    /// accepts the folds of all prefixes up to some length and none beyond, this is that length.
    pub fn partition_point<F: Fn(&T::Value) -> bool>(&self, pred: F) -> (r: (usize, T::Value))
        where T::Value: Copy,
        requires
            self.wf(),
            self.view_seq().len() > 0,
            steady(pred),
        ensures
            r.0 <= self.view_seq().len(),
            r.1 == fold::<T>(self.view_seq().subrange(0, r.0 as int)),
            r.0 == 0 || accepts(pred, &r.1),
            r.0 == self.view_seq().len() || rejects(pred, &fold::<T>(self.view_seq().subrange(0, r.0 + 1))),
    {
        let ghost a = self.data@;
        let n = self.lefts.len();
        let mut additional: usize = 1;
        proof {
            assert(1usize & 0usize == 0) by (bit_vector);
        }
        while additional <= n / 2
            invariant
                1 <= additional <= n,
                n <= usize::MAX / 2,
                additional & ((additional - 1) as usize) == 0,
            decreases n - additional,
        {
            proof {
                let x = additional;
                assert(x & ((x - 1) as usize) == 0 && 1 <= x && x <= n / 2
                    ==> ((x * 2) as usize) & ((((x * 2) as usize) - 1) as usize) == 0) by (bit_vector);
            }
            additional = additional * 2;
        }
        let mut i: usize = 0;
        let mut prefix = T::id();
        let ghost mut span: int = 2 * additional;
        proof {
            assert(a.subrange(0, 0) =~= Seq::<T::Value>::empty());
            let x = additional;
            assert(x & ((x - 1) as usize) == 0 && x >= 1 ==> (0usize & ((((x * 2) as usize) - 1) as usize)) == 0) by (bit_vector);
        }
        while additional > 0
            invariant
                self.wf(),
                a == self.data@,
                n == a.len(),
                n <= usize::MAX / 2,
                steady(pred),
                i <= n,
                prefix == fold::<T>(a.subrange(0, i as int)),
                i == 0 || accepts(pred, &prefix),
                additional > 0 ==> i + additional <= n && span == 2 * additional
                    && additional & ((additional - 1) as usize) == 0
                    && i & ((((additional * 2) as usize) - 1) as usize) == 0,
                additional == 0 ==> span == 1,
                i + span > n || rejects(pred, &fold::<T>(a.subrange(0, i + span))),
            decreases additional,
        {
            let m = i + additional;
            proof {
                let x = additional;
                assert(x & ((x - 1) as usize) == 0 && x >= 1
                    && i & ((((x * 2) as usize) - 1) as usize) == 0
                    ==> ((i + x) as usize) & ((((i + x) as usize) - 1) as usize) == i) by (bit_vector);
                assert(low(m) == i);
                assert(self.lefts@[m - 1] == fold::<T>(a.subrange(low(m) as int, m as int)));
                lemma_fold_concat::<T>(a.subrange(0, i as int), a.subrange(i as int, m as int));
                assert(a.subrange(0, i as int) + a.subrange(i as int, m as int) =~= a.subrange(0, m as int));
            }
            let temp = T::op(prefix, self.lefts[i + additional - 1]);
            let ghost old_i = i;
            if pred(&temp) {
                prefix = temp;
                i = i + additional;
            }
            proof {
                let x = additional;
                assert(x & ((x - 1) as usize) == 0 && x >= 1
                    && old_i & ((((x * 2) as usize) - 1) as usize) == 0
                    ==> ((old_i + x) as usize) & ((x - 1) as usize) == 0 && old_i & ((x - 1) as usize) == 0) by (bit_vector);
            }
            proof {
                span = additional as int;
            }
            additional = additional / 2;
            proof {
                let x = span as usize;
                assert(x & ((x - 1) as usize) == 0 && x >= 2
                    ==> (x / 2) & ((x / 2 - 1) as usize) == 0 && ((x / 2) * 2) as usize == x) by (bit_vector);
            }
            let ghost half = additional;
            while i + additional > n
                invariant
                    additional <= half,
                    half <= n,
                    self.wf(),
                    a == self.data@,
                    n == a.len(),
                    steady(pred),
                    prefix == fold::<T>(a.subrange(0, i as int)),
                    i == 0 || accepts(pred, &prefix),
                    i <= n,
                    n <= usize::MAX / 2,
                    additional > 0 ==> span == 2 * additional && additional & ((additional - 1) as usize) == 0
                        && i & ((((additional * 2) as usize) - 1) as usize) == 0,
                    additional == 0 ==> span == 1,
                    i + span > n || rejects(pred, &fold::<T>(a.subrange(0, i + span))),
                decreases additional,
            {
                proof {
                    let x = additional;
                    assert(x & ((x - 1) as usize) == 0 && x >= 2 && i & ((((x * 2) as usize) - 1) as usize) == 0
                        ==> (x / 2) & ((x / 2 - 1) as usize) == 0 && ((x / 2) * 2) as usize == x
                        && i & ((x - 1) as usize) == 0) by (bit_vector);
                }
                proof {
                    span = additional as int;
                }
                additional = additional / 2;
            }
        }
        (i, prefix)
    }
}

impl<T: Group + Commutative> FenwickTree<T> {
    /// The group difference of the prefix folds up to `range.end` and up to `range.start`;
    /// the fold of `range` when `range.start <= range.end`.
    pub fn range_query(&self, range: core::ops::Range<usize>) -> (r: T::Value)
        where T::Value: Copy,
        requires
            self.wf(),
            range.start <= self.view_seq().len(),
            range.end <= self.view_seq().len(),
        ensures
            r == T::spec_op(
                fold::<T>(self.view_seq().subrange(0, range.end as int)),
                T::spec_inv(fold::<T>(self.view_seq().subrange(0, range.start as int))),
            ),
            range.start <= range.end ==> r == fold::<T>(
                self.view_seq().subrange(range.start as int, range.end as int),
            ),
    {
        let ghost a = self.data@;
        let ghost target = T::spec_op(
            fold::<T>(a.subrange(0, range.end as int)),
            T::spec_inv(fold::<T>(a.subrange(0, range.start as int))),
        );
        let mut l = range.start;
        let mut r = range.end;
        let mut res = T::id();
        proof {
            T::lemma_id(target);
        }
        while l != r
            invariant
                self.wf(),
                a == self.data@,
                l <= a.len(),
                r <= a.len(),
                T::spec_op(res, T::spec_op(
                    fold::<T>(a.subrange(0, r as int)),
                    T::spec_inv(fold::<T>(a.subrange(0, l as int))),
                )) == target,
            decreases l + r,
        {
            if r > l {
                let ghost pl = T::spec_inv(fold::<T>(a.subrange(0, l as int)));
                proof {
                    lemma_low_lt(r);
                    lemma_prefix_split::<T>(a, low(r) as int, r as int);
                    lemma_rearrange::<T>(res, self.lefts@[r - 1], fold::<T>(a.subrange(0, low(r) as int)), pl);
                }
                res = T::op(res, self.lefts[r - 1]);
                r = r & (r - 1);
            } else {
                let ghost pr = fold::<T>(a.subrange(0, r as int));
                proof {
                    lemma_low_lt(l);
                    lemma_prefix_split::<T>(a, low(l) as int, l as int);
                    lemma_inv_op::<T>(fold::<T>(a.subrange(0, low(l) as int)), self.lefts@[l - 1]);
                    lemma_rearrange::<T>(
                        res,
                        T::spec_inv(self.lefts@[l - 1]),
                        pr,
                        T::spec_inv(fold::<T>(a.subrange(0, low(l) as int))),
                    );
                    T::lemma_assoc(pr, T::spec_inv(fold::<T>(a.subrange(0, low(l) as int))), T::spec_inv(self.lefts@[l - 1]));
                }
                res = T::op(res, T::inv(self.lefts[l - 1]));
                l = l & (l - 1);
            }
        }
        proof {
            let p = fold::<T>(a.subrange(0, l as int));
            T::lemma_inv(p);
            T::lemma_id(res);
            if range.start <= range.end {
                lemma_prefix_split_any::<T>(a, range.start as int, range.end as int);
                lemma_cancel::<T>(
                    fold::<T>(a.subrange(0, range.start as int)),
                    fold::<T>(a.subrange(range.start as int, range.end as int)),
                );
            }
        }
        res
    }
}

/// The fold of the prefix up to `e` splits at the block start `s`.
proof fn lemma_prefix_split<T: Monoid>(a: Seq<T::Value>, s: int, e: int)
    requires
        0 <= s <= e <= a.len(),
    ensures
        fold::<T>(a.subrange(0, e)) == T::spec_op(fold::<T>(a.subrange(0, s)), fold::<T>(a.subrange(s, e))),
{
    lemma_prefix_split_any::<T>(a, s, e);
}

proof fn lemma_prefix_split_any<T: Monoid>(a: Seq<T::Value>, s: int, e: int)
    requires
        0 <= s <= e <= a.len(),
    ensures
        fold::<T>(a.subrange(0, e)) == T::spec_op(fold::<T>(a.subrange(0, s)), fold::<T>(a.subrange(s, e))),
{
    assert(a.subrange(0, s) + a.subrange(s, e) =~= a.subrange(0, e));
    lemma_fold_concat::<T>(a.subrange(0, s), a.subrange(s, e));
}

} // verus!
