//! Sorting unsigned integers one byte at a time.

use vstd::prelude::*;
use crate::compress::{radix_sort_pairs, key, low, sorted_by, occurs_in, contains_all, same_elems};
use crate::hilbert_sort::{is_perm, permuted};

verus! {

/// In-place sorting in increasing order.
pub trait RadixSort {
    /// The sequence is short enough to be sorted.
    spec fn sortable(&self) -> bool;

    fn radix_sort(&mut self)
        requires
            old(self).sortable(),
    ;
}

/// Non-decreasing.
pub open spec fn sorted_u32(s: Seq<u32>) -> bool {
    forall|p: int, q: int| 0 <= p <= q < s.len() ==> #[trigger] s[p] <= #[trigger] s[q]
}

proof fn lemma_low4(v: u32)
    ensures
        low(v, 4) == v,
{
    assert(low(v, 4) == v as int % 0x1_0000_0000);
    vstd::arithmetic::div_mod::lemma_small_mod(v as nat, 0x1_0000_0000);
}

impl RadixSort for [u32] {
    /// Positions are kept as `u32` during the sort.
    open spec fn sortable(&self) -> bool {
        self@.len() <= 0x1_0000_0000
    }

    /// Sorts by the bytes of the values, lowest byte first, each pass stable.
    fn radix_sort(&mut self)
        ensures
            sorted_u32(final(self)@),
            exists|p: Seq<int>| is_perm(p, old(self)@.len() as int) && permuted(final(self)@, old(self)@, p),
    {
        let n = self.len();
        let ghost s0 = self@;
        let mut pairs: Vec<(u32, u32)> = Vec::with_capacity(n);
        let mut i: usize = 0;
        while i < n
            invariant
                n == self@.len(),
                s0 == self@,
                n <= 0x1_0000_0000,
                i <= n,
                pairs@.len() == i,
                forall|j: int| 0 <= j < i ==> #[trigger] pairs@[j] == (j as u32, s0[j]),
            decreases n - i,
        {
            pairs.push((i as u32, self[i]));
            i += 1;
        }
        let ghost a = pairs@;
        proof {
            assert forall|p: int, q: int| 0 <= p < q < a.len() implies key(#[trigger] a[p], 0) < key(#[trigger] a[q], 0) by {
                assert(low(a[p].1, 0) == 0 && low(a[q].1, 0) == 0);
            }
        }
        let b = radix_sort_pairs(pairs);
        let ghost bs = b@;
        let ghost perm = Seq::new(n as nat, |k: int| bs[k].0 as int);
        proof {
            reveal(contains_all);
            assert forall|k: int| 0 <= k < n implies #[trigger] bs[k] == a[perm[k]] && 0 <= perm[k] < n by {
                assert(occurs_in(a, bs[k]));
                let j = choose|j: int| 0 <= j < a.len() && #[trigger] a[j] == bs[k];
                assert(a[j].0 == j as u32);
            }
        }
        let mut i: usize = 0;
        while i < n
            invariant
                n == self@.len(),
                bs == b@,
                bs.len() == n,
                i <= n,
                forall|j: int| 0 <= j < i ==> #[trigger] self@[j] == bs[j].1,
            decreases n - i,
        {
            self[i] = b[i].1;
            i += 1;
        }
        proof {
            assert forall|p: int, q: int| 0 <= p <= q < self@.len() implies #[trigger] self@[p] <= #[trigger] self@[q] by {
                if p < q {
                    lemma_low4(bs[p].1);
                    lemma_low4(bs[q].1);
                    assert(key(bs[p], 4) < key(bs[q], 4));
                }
            }
            assert forall|i: int, j: int| 0 <= i < n && 0 <= j < n && i != j implies #[trigger] perm[i] != #[trigger] perm[j] by {
                if perm[i] == perm[j] {
                    assert(bs[i] == bs[j]);
                    if i < j {
                        assert(key(bs[i], 4) < key(bs[j], 4));
                    } else {
                        assert(key(bs[j], 4) < key(bs[i], 4));
                    }
                }
            }
            assert(is_perm(perm, n as int));
            assert forall|k: int| 0 <= k < n implies #[trigger] self@[k] == s0[perm[k]] by {
                assert(bs[k] == a[perm[k]]);
            }
            assert(permuted(self@, s0, perm));
        }
    }
}

/// Non-decreasing.
pub open spec fn sorted_u16(s: Seq<u16>) -> bool {
    forall|p: int, q: int| 0 <= p <= q < s.len() ==> #[trigger] s[p] <= #[trigger] s[q]
}

impl RadixSort for [u16] {
    /// Positions are kept as `u32` during the sort.
    open spec fn sortable(&self) -> bool {
        self@.len() <= 0x1_0000_0000
    }

    /// Sorts the values widened to `u32`, whose order they keep.
    fn radix_sort(&mut self)
        ensures
            sorted_u16(final(self)@),
            exists|p: Seq<int>| is_perm(p, old(self)@.len() as int) && permuted(final(self)@, old(self)@, p),
    {
        let n = self.len();
        let ghost s0 = self@;
        let mut wide: Vec<u32> = Vec::with_capacity(n);
        let mut i: usize = 0;
        while i < n
            invariant
                n == self@.len(),
                s0 == self@,
                i <= n,
                wide@.len() == i,
                forall|j: int| 0 <= j < i ==> #[trigger] wide@[j] == s0[j] as u32,
            decreases n - i,
        {
            wide.push(self[i] as u32);
            i += 1;
        }
        let ghost w0 = wide@;
        wide.as_mut_slice().radix_sort();
        let ghost w1 = wide@;
        let ghost p = choose|p: Seq<int>| is_perm(p, w0.len() as int) && permuted(w1, w0, p);
        let mut i: usize = 0;
        while i < n
            invariant
                n == self@.len(),
                w1 == wide@,
                w1.len() == n,
                is_perm(p, n as int),
                permuted(w1, w0, p),
                forall|j: int| 0 <= j < n ==> #[trigger] w0[j] == s0[j] as u32,
                i <= n,
                forall|j: int| 0 <= j < i ==> #[trigger] self@[j] == s0[p[j]],
            decreases n - i,
        {
            proof {
                assert(w1[i as int] == w0[p[i as int]]);
            }
            self[i] = wide[i] as u16;
            i += 1;
        }
        proof {
            assert forall|a: int, b: int| 0 <= a <= b < self@.len() implies #[trigger] self@[a] <= #[trigger] self@[b] by {
                assert(w1[a] <= w1[b]);
                assert(w1[a] == w0[p[a]] && w1[b] == w0[p[b]]);
            }
            assert(permuted(self@, s0, p));
        }
    }
}

/// Non-decreasing.
pub open spec fn sorted_u8(s: Seq<u8>) -> bool {
    forall|p: int, q: int| 0 <= p <= q < s.len() ==> #[trigger] s[p] <= #[trigger] s[q]
}

impl RadixSort for [u8] {
    /// Positions are kept as `u32` during the sort.
    open spec fn sortable(&self) -> bool {
        self@.len() <= 0x1_0000_0000
    }

    /// Sorts the values widened to `u32`, whose order they keep.
    fn radix_sort(&mut self)
        ensures
            sorted_u8(final(self)@),
            exists|p: Seq<int>| is_perm(p, old(self)@.len() as int) && permuted(final(self)@, old(self)@, p),
    {
        let n = self.len();
        let ghost s0 = self@;
        let mut wide: Vec<u32> = Vec::with_capacity(n);
        let mut i: usize = 0;
        while i < n
            invariant
                n == self@.len(),
                s0 == self@,
                i <= n,
                wide@.len() == i,
                forall|j: int| 0 <= j < i ==> #[trigger] wide@[j] == s0[j] as u32,
            decreases n - i,
        {
            wide.push(self[i] as u32);
            i += 1;
        }
        let ghost w0 = wide@;
        wide.as_mut_slice().radix_sort();
        let ghost w1 = wide@;
        let ghost p = choose|p: Seq<int>| is_perm(p, w0.len() as int) && permuted(w1, w0, p);
        let mut i: usize = 0;
        while i < n
            invariant
                n == self@.len(),
                w1 == wide@,
                w1.len() == n,
                is_perm(p, n as int),
                permuted(w1, w0, p),
                forall|j: int| 0 <= j < n ==> #[trigger] w0[j] == s0[j] as u32,
                i <= n,
                forall|j: int| 0 <= j < i ==> #[trigger] self@[j] == s0[p[j]],
            decreases n - i,
        {
            proof {
                assert(w1[i as int] == w0[p[i as int]]);
            }
            self[i] = wide[i] as u8;
            i += 1;
        }
        proof {
            assert forall|a: int, b: int| 0 <= a <= b < self@.len() implies #[trigger] self@[a] <= #[trigger] self@[b] by {
                assert(w1[a] <= w1[b]);
                assert(w1[a] == w0[p[a]] && w1[b] == w0[p[b]]);
            }
            assert(permuted(self@, s0, p));
        }
    }
}

} // verus!
