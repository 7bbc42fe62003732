//! Constant-time range folds for idempotent semigroups.

use vstd::prelude::*;
use vstd::arithmetic::power2::*;
use crate::ops::{SemiGroup, Idempotent, fold1, lemma_fold1_split, lemma_fold1_overlap};
use crate::bits::ilog2;

verus! {

/// Level `w` of the table, stored from `partition[w]`, holds the fold of every window of
/// length `2^w` of `a`.
pub open spec fn level_ok<T: SemiGroup>(
    table: Seq<T::Value>,
    partition: Seq<usize>,
    a: Seq<T::Value>,
    w: int,
) -> bool {
    let n = a.len() as int;
    let p = pow2(w as nat) as int;
    &&& 0 <= w
    &&& w + 1 < partition.len()
    &&& p <= n
    &&& partition[w] + (n - p + 1) == partition[w + 1]
    &&& partition[w + 1] <= table.len()
    &&& forall|k: int| 0 <= k <= n - p ==> #[trigger] table[partition[w] + k] == fold1::<T>(
        a.subrange(k, k + p),
    )
}

/// Answers fold queries over ranges of a fixed sequence, for an idempotent operation.
pub struct SparseTable<T: SemiGroup + Idempotent> {
    table: Vec<T::Value>,
    partition: Vec<usize>,
    data: Ghost<Seq<T::Value>>,
}

impl<T: SemiGroup + Idempotent> SparseTable<T> {
    /// The sequence the table was built from.
    pub closed spec fn view_seq(&self) -> Seq<T::Value> {
        self.data@
    }

    pub closed spec fn wf(&self) -> bool {
        let n = self.data@.len();
        &&& n == 0 ==> self.partition@.len() == 0
        &&& n > 0 ==> {
            &&& self.partition@.len() >= 2
            &&& self.partition@[0] == 0
            &&& self.partition@[1] == n
            &&& forall|w: int| 0 <= w && pow2(w as nat) <= n ==> level_ok::<T>(
                self.table@,
                self.partition@,
                self.data@,
                w,
            )
        }
    }

    /// Builds the table over `value`.
    pub fn from(value: Vec<T::Value>) -> (r: Self)
        where T::Value: Copy,
        requires
            value@.len() <= usize::MAX / 128,
        ensures
            r.wf(),
            r.view_seq() == value@,
    {
        let n = value.len();
        let ghost a = value@;
        if n == 0 {
            return SparseTable { table: value, partition: Vec::new(), data: Ghost(a) };
        }
        let (h, _) = ilog2(n);
        let height = h + 1;
        let mut table = value;
        let mut partition: Vec<usize> = Vec::new();
        partition.push(0);
        partition.push(n);
        let mut half: usize = 1;
        let mut i: usize = 0;
        proof {
            lemma2_to64();
            assert forall|k: int| 0 <= k <= n - 1 implies #[trigger] table@[partition@[0] + k] == fold1::<T>(
                a.subrange(k, k + 1),
            ) by {
                assert(a.subrange(k, k + 1).len() == 1);
            }
        }
        while i < height
            invariant
                a.len() == n,
                n >= 1,
                n <= usize::MAX / 128,
                height == h + 1,
                pow2(h as nat) <= n < pow2((h + 1) as nat),
                h < 64,
                i <= height,
                half == pow2(i as nat),
                partition@.len() == i + 2,
                partition@[0] == 0,
                partition@[1] == n,
                table@.len() == partition@[i + 1],
                table@.len() <= n * (i + 1),
                table@.len() >= n,
                table@.subrange(0, n as int) == a,
                forall|w: int| 0 <= w <= i && pow2(w as nat) <= n ==> level_ok::<T>(
                    table@,
                    partition@,
                    a,
                    w,
                ),
            decreases height - i,
        {
            let start = partition[i];
            let end = partition[i + 1];
            proof {
                lemma_pow2_unfold((i + 1) as nat);
            }
            if half <= n {
                proof {
                    assert(level_ok::<T>(table@, partition@, a, i as int));
                }
                proof {
                    lemma_pow2_pos(i as nat);
                }
                let cnt: usize = if end - start >= half { end - start - half } else { 0 };
                proof {
                    assert(table@.len() <= 64 * n) by (nonlinear_arith)
                        requires
                            table@.len() <= n * (i + 1),
                            i < 64,
                    ;
                }
                let mut k: usize = 0;
                while k < cnt
                    invariant
                        a.len() == n,
                        start == partition@[i as int],
                        end == partition@[i + 1],
                        end == start + (n - half + 1),
                        half == pow2(i as nat),
                        half <= n,
                        cnt == if n + 1 >= 2 * half { n + 1 - 2 * half } else { 0 },
                        k <= cnt,
                        cnt <= n,
                        end <= n * (i + 1),
                        table@.len() == end + k,
                        end <= 64 * n,
                        n <= usize::MAX / 128,
                        table@.len() >= n,
                        i < 64,
                        partition@.len() == i + 2,
                        table@.subrange(0, n as int) == a,
                        forall|w: int| 0 <= w <= i && pow2(w as nat) <= n ==> level_ok::<T>(
                            table@,
                            partition@,
                            a,
                            w,
                        ),
                        forall|kk: int| 0 <= kk < k ==> #[trigger] table@[end + kk]
                            == fold1::<T>(a.subrange(kk, kk + 2 * half)),
                    decreases cnt - k,
                {
                    proof {
                        lemma_pow2_pos(i as nat);
                        assert(level_ok::<T>(table@, partition@, a, i as int));
                        assert(table@[start + k] == fold1::<T>(a.subrange(k as int, k + half)));
                        assert(table@[start + (k + half)] == fold1::<T>(a.subrange(k + half, k + 2 * half)));
                        lemma_fold1_split::<T>(a, k as int, k + half, k + 2 * half);
                    }
                    let v = T::op(table[start + k], table[start + k + half]);
                    let ghost before = table@;
                    table.push(v);
                    proof {
                        assert(table@.subrange(0, n as int) =~= before.subrange(0, n as int));
                        assert forall|w: int| 0 <= w <= i && pow2(w as nat) <= n implies level_ok::<T>(
                            table@,
                            partition@,
                            a,
                            w,
                        ) by {
                            assert(level_ok::<T>(before, partition@, a, w));
                            let p = pow2(w as nat) as int;
                            assert forall|kk: int| 0 <= kk <= n - p implies #[trigger] table@[partition@[w] + kk]
                                == fold1::<T>(a.subrange(kk, kk + p)) by {
                                assert(before[partition@[w] + kk] == fold1::<T>(a.subrange(kk, kk + p)));
                            }
                        }
                    }
                    k += 1;
                }
                proof {
                    assert(table@.len() <= n * (i + 2)) by (nonlinear_arith)
                        requires
                            table@.len() <= n * (i + 1) + n,
                    ;
                }
                let ghost before = partition@;
                partition.push(table.len());
                proof {
                    assert forall|w: int| 0 <= w <= i + 1 && pow2(w as nat) <= n implies level_ok::<T>(
                        table@,
                        partition@,
                        a,
                        w,
                    ) by {
                        if w <= i {
                            assert(level_ok::<T>(table@, before, a, w));
                        } else {
                            let p = pow2(w as nat) as int;
                            assert(p == 2 * half);
                            assert forall|kk: int| 0 <= kk <= n - p implies #[trigger] table@[partition@[w] + kk]
                                == fold1::<T>(a.subrange(kk, kk + p)) by {
                                assert(table@[end + kk] == fold1::<T>(a.subrange(kk, kk + 2 * half)));
                                assert(partition@[w] == end);
                            }
                        }
                    }
                }
            } else {
                proof {
                    assert(false) by {
                        if i < h {
                            lemma_pow2_strictly_increases(i as nat, h as nat);
                        }
                    }
                }
                partition.push(table.len());
            }
            proof {
                lemma2_to64();
                if i + 1 >= 64 {
                    lemma_pow2_strictly_increases(63, (i + 1) as nat);
                }
            }
            half = half * 2;
            i += 1;
        }
        proof {
            assert(table@.subrange(0, n as int) == a);
            assert forall|w: int| 0 <= w && pow2(w as nat) <= n implies level_ok::<T>(
                table@,
                partition@,
                a,
                w,
            ) by {
                if w > h {
                    lemma_pow2_strictly_increases(h as nat, w as nat);
                    if w > h + 1 {
                        lemma_pow2_strictly_increases((h + 1) as nat, w as nat);
                    }
                }
            }
        }
        SparseTable { table, partition, data: Ghost(a) }
    }

    /// The fold of `range` over the sequence, or `None` if the range is empty.
    pub fn range_query(&self, range: core::ops::Range<usize>) -> (r: Option<T::Value>)
        where T::Value: Copy,
        requires
            self.wf(),
            range.end <= self.view_seq().len(),
        ensures
            range.start >= range.end ==> r is None,
            range.start < range.end ==> r == Some(fold1::<T>(self.view_seq().subrange(range.start as int, range.end as int))),
    {
        let l = range.start;
        let r = range.end;
        if l >= r {
            return None;
        }
        let (w, p) = ilog2(r - l);
        proof {
            let a = self.data@;
            assert(level_ok::<T>(self.table@, self.partition@, a, w as int));
            lemma_pow2_unfold((w + 1) as nat);
            lemma_fold1_overlap::<T>(a, l as int, (r - p) as int, (l + p) as int, r as int);
            assert(self.table@[self.partition@[w as int] + (r - p)] == fold1::<T>(a.subrange((r - p) as int, (r - p) + p)));
        }
        let base = self.partition[w];
        Some(T::op(self.table[base + l], self.table[base + (r - p)]))
    }
}

} // verus!
