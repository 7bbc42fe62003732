//! Dense multi-dimensional arrays stored in row-major order.

use vstd::prelude::*;
use vstd::pervasive::cloned;

verus! {

/// The product of the first `k` lengths.
pub open spec fn prefix_product(len: Seq<usize>, k: int) -> int
    decreases k,
{
    if k <= 0 { 1 } else { prefix_product(len, k - 1) * len[k - 1] }
}

/// The row-major position of the first `k` coordinates of `index`.
pub open spec fn flat_index(len: Seq<usize>, index: Seq<usize>, k: int) -> int
    decreases k,
{
    if k <= 0 { 0 } else { flat_index(len, index, k - 1) * len[k - 1] + index[k - 1] }
}

proof fn lemma_prefix_product_nonneg(len: Seq<usize>, k: int)
    ensures
        prefix_product(len, k) >= 0,
    decreases k,
{
    if k > 0 {
        lemma_prefix_product_nonneg(len, k - 1);
        vstd::arithmetic::mul::lemma_mul_nonnegative(prefix_product(len, k - 1), len[k - 1] as int);
    }
}

proof fn lemma_flat_index_nonneg(len: Seq<usize>, index: Seq<usize>, k: int)
    ensures
        flat_index(len, index, k) >= 0,
    decreases k,
{
    if k > 0 {
        lemma_flat_index_nonneg(len, index, k - 1);
        vstd::arithmetic::mul::lemma_mul_nonnegative(flat_index(len, index, k - 1), len[k - 1] as int);
    }
}

/// An array of `D` dimensions with lengths `len`, its entries stored in row-major order.
pub struct NDArray<T, const D: usize> {
    data: Vec<T>,
    len: [usize; D],
}

impl<T, const D: usize> NDArray<T, D> {
    /// The entries in row-major order.
    pub closed spec fn entries(&self) -> Seq<T> {
        self.data@
    }

    /// The length of each dimension.
    pub closed spec fn lens(&self) -> Seq<usize> {
        self.len@
    }

    /// An array with every entry a clone of `value`.
    pub fn repeat(len: [usize; D], value: T) -> (r: Self)
        where T: Clone,
        requires
            forall|k: int| 0 <= k <= D ==> #[trigger] prefix_product(len@, k) <= usize::MAX,
        ensures
            r.lens() == len@,
            r.entries().len() == prefix_product(len@, D as int),
            forall|i: int| 0 <= i < r.entries().len() ==> cloned(value, #[trigger] r.entries()[i]),
    {
        let mut n: usize = 1;
        let mut k: usize = 0;
        while k < D
            invariant
                k <= D,
                n == prefix_product(len@, k as int),
                forall|j: int| 0 <= j <= D ==> #[trigger] prefix_product(len@, j) <= usize::MAX,
            decreases D - k,
        {
            proof {
                assert(prefix_product(len@, (k + 1) as int) <= usize::MAX);
                assert(len@[k as int] == len[k as int]);
            }
            n = n * len[k];
            k += 1;
        }
        let mut data: Vec<T> = Vec::new();
        let mut i: usize = 0;
        while i < n
            invariant
                i <= n,
                data@.len() == i,
                forall|j: int| 0 <= j < i ==> cloned(value, #[trigger] data@[j]),
            decreases n - i,
        {
            data.push(value.clone());
            i += 1;
        }
        NDArray { data, len }
    }

    /// Sets every entry to a clone of `value`.
    pub fn fill(&mut self, value: T)
        where T: Clone,
        ensures
            final(self).lens() == old(self).lens(),
            final(self).entries().len() == old(self).entries().len(),
            forall|i: int| 0 <= i < final(self).entries().len() ==> cloned(value, #[trigger] final(self).entries()[i]),
    {
        let n = self.data.len();
        let mut i: usize = 0;
        while i < n
            invariant
                i <= n,
                n == self.data@.len(),
                self.len == old(self).len,
                forall|j: int| 0 <= j < i ==> cloned(value, #[trigger] self.data@[j]),
            decreases n - i,
        {
            self.data.set(i, value.clone());
            i += 1;
        }
    }

    /// The row-major position of `index`.
    fn position(&self, index: [usize; D]) -> (r: usize)
        requires
            forall|k: int| 0 <= k <= D ==> #[trigger] flat_index(self.lens(), index@, k) <= usize::MAX,
            self.lens().len() == D,
        ensures
            r == flat_index(self.lens(), index@, D as int),
    {
        let mut acc: usize = 0;
        let mut k: usize = 0;
        while k < D
            invariant
                k <= D,
                self.lens().len() == D,
                acc == flat_index(self.lens(), index@, k as int),
                forall|j: int| 0 <= j <= D ==> #[trigger] flat_index(self.lens(), index@, j) <= usize::MAX,
            decreases D - k,
        {
            proof {
                assert(flat_index(self.lens(), index@, (k + 1) as int) <= usize::MAX);
                assert(self.lens()[k as int] == self.len[k as int]);
                assert(index@[k as int] == index[k as int]);
                lemma_flat_index_nonneg(self.lens(), index@, k as int);
                vstd::arithmetic::mul::lemma_mul_nonnegative(acc as int, self.len[k as int] as int);
            }
            acc = acc * self.len[k] + index[k];
            k += 1;
        }
        acc
    }

    /// The entry at `index`, found at its row-major position.
    pub fn index(&self, index: [usize; D]) -> (r: &T)
        requires
            forall|k: int| 0 <= k <= D ==> #[trigger] flat_index(self.lens(), index@, k) <= usize::MAX,
            flat_index(self.lens(), index@, D as int) < self.entries().len(),
        ensures
            *r == self.entries()[flat_index(self.lens(), index@, D as int)],
    {
        let i = self.position(index);
        &self.data[i]
    }

    /// The entry at `index`, borrowed mutably.
    pub fn index_mut(&mut self, index: [usize; D]) -> (r: &mut T)
        requires
            forall|k: int| 0 <= k <= D ==> #[trigger] flat_index(old(self).lens(), index@, k) <= usize::MAX,
            flat_index(old(self).lens(), index@, D as int) < old(self).entries().len(),
        ensures
            *r == old(self).entries()[flat_index(old(self).lens(), index@, D as int)],
            final(self).lens() == old(self).lens(),
            final(self).entries() == old(self).entries().update(flat_index(old(self).lens(), index@, D as int), *final(r)),
    {
        let i = self.position(index);
        &mut self.data[i]
    }
}

} // verus!
