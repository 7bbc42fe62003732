//! Constant-time range folds for any semigroup, without assuming idempotence.

use vstd::prelude::*;
use vstd::arithmetic::power2::*;
use vstd::arithmetic::div_mod::{lemma_fundamental_div_mod, lemma_div_is_ordered, lemma_div_pos_is_pos};
use vstd::bits::{lemma_u64_shr_is_div, lemma_u64_shl_is_mul};
use crate::ops::{SemiGroup, fold1, lemma_fold1_concat, lemma_fold1_split};
use crate::bits::ilog2;

verus! {

/// The end of the block of width `w` that starts at `s`, cut at `n`.
pub open spec fn block_end(s: int, w: int, n: int) -> int {
    if s + w < n { s + w } else { n }
}

/// What a row of blocks of width `w` holds at position `j` of `a`: in a block with an even
/// index, the fold from `j` to the block's end; in a block with an odd index, the fold from
/// the block's start through `j`.
pub open spec fn cell<T: SemiGroup>(a: Seq<T::Value>, w: int, j: int) -> T::Value {
    let c = j / w;
    if c % 2 == 0 {
        fold1::<T>(a.subrange(j, block_end(c * w, w, a.len() as int)))
    } else {
        fold1::<T>(a.subrange(c * w, j + 1))
    }
}

/// Answers fold queries over ranges of a fixed sequence, for any semigroup.
pub struct DisjointSparseTable<T: SemiGroup> {
    /// Row `i` holds `cell(a, 2^i, j)` at `i * len + j`.
    table: Vec<T::Value>,
    len: usize,
    /// The number of rows after the first.
    rows: Ghost<nat>,
    data: Ghost<Seq<T::Value>>,
}

impl<T: SemiGroup> DisjointSparseTable<T> {
    /// The sequence the table was built from.
    pub closed spec fn view_seq(&self) -> Seq<T::Value> {
        self.data@
    }

    pub closed spec fn wf(&self) -> bool {
        let n = self.len as int;
        let h = self.rows@ as int;
        &&& self.data@.len() == n
        &&& n <= usize::MAX / 128
        &&& (n <= 1 ==> h == 0)
        &&& (n > 1 ==> pow2(h as nat) <= n - 1 < pow2((h + 1) as nat))
        &&& h < 64
        &&& self.table@.len() == n * (h + 1)
        &&& forall|i: int, j: int| 0 <= i <= h && 0 <= j < n ==> #[trigger] self.table@[i * n + j] == cell::<T>(
            self.data@,
            pow2(i as nat) as int,
            j,
        )
    }

    /// Builds the table over `value`.
    pub fn from(value: Vec<T::Value>) -> (r: Self)
        where T::Value: Copy,
        requires
            value@.len() <= usize::MAX / 128,
        ensures
            r.wf(),
            r.view_seq() == value@,
    {
        let n = value.len();
        let ghost a = value@;
        proof {
            lemma2_to64();
            assert forall|j: int| 0 <= j < n implies #[trigger] value@[0 * (n as int) + j] == cell::<T>(a, pow2(0) as int, j) by {
                assert(0 * (n as int) + j == j);
                assert(a.subrange(j, j + 1).len() == 1);
                assert(block_end(j, 1, n as int) == j + 1);
            }
        }
        if n <= 1 {
            return DisjointSparseTable { table: value, len: n, rows: Ghost(0), data: Ghost(a) };
        }
        let (h, _) = ilog2(n - 1);
        let mut table = value;
        let mut i: usize = 1;
        let mut w: usize = 2;
        proof {
            lemma_pow2_unfold(1);
        }
        while i <= h
            invariant
                a.len() == n,
                2 <= n <= usize::MAX / 128,
                pow2(h as nat) <= n - 1 < pow2((h + 1) as nat),
                h < 64,
                1 <= i <= h + 1,
                w == pow2(i as nat),
                table@.len() == n * i,
                table@.subrange(0, n as int) == a,
                forall|q: int, j: int| 0 <= q < i && 0 <= j < n ==> #[trigger] table@[q * n + j] == cell::<T>(
                    a,
                    pow2(q as nat) as int,
                    j,
                ),
            decreases h + 1 - i,
        {
            proof {
                if i < h {
                    lemma_pow2_strictly_increases(i as nat, h as nat);
                }
                assert(n * i + n <= usize::MAX) by (nonlinear_arith)
                    requires
                        n <= usize::MAX / 128,
                        i <= h,
                        h < 64,
                ;
                lemma_pow2_pos(i as nat);
            }
            let base = table.len();
            let ghost t0 = table@;
            proof {
                assert(n * i >= n) by (nonlinear_arith) requires i >= 1;
            }
            self::copy_row(&mut table, n, Ghost(a));
            proof {
                assert(table@.subrange(base as int, base + n) =~= a);
                assert(table@.subrange(0, n as int) =~= a) by {
                    assert(table@.subrange(0, n as int) =~= t0.subrange(0, n as int));
                }
            }
            self::fill_row::<T>(&mut table, base, n, w, Ghost(a));
            proof {
                assert forall|x: int| 0 <= x < base implies #[trigger] table@[x] == t0[x] by {
                    assert(table@.subrange(0, base as int)[x] == (t0 + a).subrange(0, base as int)[x]);
                }
                assert(table@.subrange(0, n as int) =~= a) by {
                    assert forall|x: int| 0 <= x < n implies table@[x] == a[x] by {
                        assert(t0.subrange(0, n as int)[x] == t0[x]);
                    }
                }
                assert forall|q: int, j: int| 0 <= q < i + 1 && 0 <= j < n implies #[trigger] table@[q * n + j] == cell::<T>(
                    a,
                    pow2(q as nat) as int,
                    j,
                ) by {
                    if q == i {
                        assert(q * n + j == base + j) by (nonlinear_arith)
                            requires q == i, base == n * i;
                    } else {
                        assert(q * n + j < base) by (nonlinear_arith)
                            requires q < i, j < n, base == n * i;
                        assert(0 <= q * n + j) by (nonlinear_arith) requires q >= 0, j >= 0, n >= 0;
                        assert(t0[q * n + j] == cell::<T>(a, pow2(q as nat) as int, j));
                    }
                }
                assert(table@.len() == n * (i + 1)) by (nonlinear_arith)
                    requires table@.len() == n * i + n;
                lemma_pow2_unfold((i + 1) as nat);
                if i < h {
                    lemma_pow2_strictly_increases(i as nat, h as nat);
                }
                lemma2_to64();
            }
            i += 1;
            w = w * 2;
        }
        DisjointSparseTable { table, len: n, rows: Ghost(h as nat), data: Ghost(a) }
    }

    /// The fold of `range` over the sequence, or `None` if the range is empty.
    pub fn range_query(&self, range: core::ops::Range<usize>) -> (r: Option<T::Value>)
        where T::Value: Copy,
        requires
            self.wf(),
            range.end <= self.view_seq().len(),
        ensures
            range.start >= range.end ==> r is None,
            range.start < range.end ==> r == Some(fold1::<T>(self.view_seq().subrange(range.start as int, range.end as int))),
    {
        let l = range.start;
        let r = range.end;
        let n = self.len;
        let ghost a = self.data@;
        if l >= r {
            return None;
        }
        proof {
            assert(n * (self.rows@ + 1) >= n) by (nonlinear_arith) requires self.rows@ >= 0;
        }
        if l + 1 == r {
            proof {
                assert(self.table@[0 * (n as int) + l] == cell::<T>(a, pow2(0) as int, l as int));
                lemma2_to64();
                assert(0 * (n as int) + l == l);
                assert(block_end(l as int, 1, n as int) == l + 1);
                assert(l as int / 1 == l as int);
                assert(l as int * 1 == l as int);
            }
            return Some(self.table[l]);
        }
        let rm = r - 1;
        proof {
            assert(l != rm ==> (l ^ rm) >= 1) by (bit_vector);
        }
        let (m, p) = ilog2(l ^ rm);
        proof {
            let h = self.rows@;
            lemma_block_split(l, (r - 1) as usize, m, p, h, n);
            let c = l as int / p as int;
            let mid = (c + 1) * p;
            lemma_pow2_pos(m as nat);
            lemma_fundamental_div_mod(l as int, p as int);
            lemma_fundamental_div_mod((r - 1) as int, p as int);
            assert(mid <= r - 1) by (nonlinear_arith)
                requires
                    (r - 1) as int == p * ((r - 1) as int / p as int) + (r - 1) as int % p as int,
                    (r - 1) as int % p as int >= 0,
                    (r - 1) as int / p as int == c + 1,
                    mid == (c + 1) * p;
            assert(c * p <= l) by (nonlinear_arith)
                requires
                    l as int == p * c + l as int % p as int,
                    l as int % p as int >= 0;
            assert(self.table@[m * n + l] == cell::<T>(a, p as int, l as int));
            assert(self.table@[m * n + (r - 1)] == cell::<T>(a, p as int, (r - 1) as int));
            assert(c * p + p == mid) by (nonlinear_arith) requires mid == (c + 1) * p;
            assert(block_end(c * p, p as int, n as int) == mid);
            lemma_fold1_split::<T>(a, l as int, mid, r as int);
            assert(m * n + (r - 1) < self.table@.len()) by (nonlinear_arith)
                requires m <= h, r - 1 < n, self.table@.len() == n * (h + 1);
            assert(m * n <= m * n + l) by (nonlinear_arith) requires m >= 0, n >= 0, l >= 0;
            assert(n * (h + 1) <= usize::MAX) by (nonlinear_arith)
                requires n <= usize::MAX / 128, h < 64;
        }
        let base = m * n;
        Some(T::op(self.table[base + l], self.table[base + (r - 1)]))
    }
}

/// Appends a copy of the first `n` entries (the sequence itself) to `table`.
fn copy_row<V: Copy>(table: &mut Vec<V>, n: usize, Ghost(a): Ghost<Seq<V>>)
    requires
        old(table)@.len() >= n,
        old(table)@.subrange(0, n as int) == a,
        a.len() == n,
        old(table)@.len() + n <= usize::MAX,
    ensures
        final(table)@ == old(table)@ + a,
{
    let ghost start = table@;
    let mut j: usize = 0;
    while j < n
        invariant
            j <= n,
            a.len() == n,
            start.subrange(0, n as int) == a,
            start.len() >= n,
            table@ == start + a.subrange(0, j as int),
        decreases n - j,
    {
        proof {
            assert(table@[j as int] == start[j as int]);
        }
        let v = table[j];
        table.push(v);
        proof {
            assert(a.subrange(0, j + 1) =~= a.subrange(0, j as int).push(a[j as int]));
        }
        j += 1;
    }
    proof {
        assert(a.subrange(0, n as int) =~= a);
    }
}

/// Turns the copy of `a` at `base` into the row of blocks of width `w`.
fn fill_row<T: SemiGroup>(table: &mut Vec<T::Value>, base: usize, n: usize, w: usize, Ghost(a): Ghost<Seq<T::Value>>)
    where T::Value: Copy,
    requires
        old(table)@.len() == base + n,
        base + n <= usize::MAX,
        old(table)@.subrange(base as int, base + n) == a,
        a.len() == n,
        w >= 1,
    ensures
        final(table)@.len() == old(table)@.len(),
        final(table)@.subrange(0, base as int) == old(table)@.subrange(0, base as int),
        forall|j: int| 0 <= j < n ==> #[trigger] final(table)@[base + j] == cell::<T>(a, w as int, j),
{
    let ghost before = table@;
    let mut cs: usize = 0;
    let mut even = true;
    let ghost mut k: int = 0;
    while cs < n
        invariant
            table@.len() == base + n,
            base + n <= usize::MAX,
            a.len() == n,
            w >= 1,
            table@.subrange(0, base as int) == before.subrange(0, base as int),
            before.subrange(base as int, base + n) == a,
            0 <= cs <= n,
            k >= 0,
            cs < n ==> cs == k * w,
            even == (k % 2 == 0),
            forall|j: int| 0 <= j < cs ==> #[trigger] table@[base + j] == cell::<T>(a, w as int, j),
            forall|j: int| cs <= j < n ==> #[trigger] table@[base + j] == a[j],
        decreases n - cs,
    {
        let ce = if n - cs > w { cs + w } else { n };
        proof {
            assert(block_end(k * w, w as int, n as int) == ce);
        }
        if even {
            let mut j = ce - 1;
            proof {
                assert(a.subrange(j as int, ce as int).len() == 1);
            }
            while j > cs
                invariant
                    table@.len() == base + n,
                    base + n <= usize::MAX,
                    a.len() == n,
                    cs <= j < ce <= n,
                    table@.subrange(0, base as int) == before.subrange(0, base as int),
                    forall|q: int| 0 <= q < cs ==> #[trigger] table@[base + q] == cell::<T>(a, w as int, q),
                    forall|q: int| j < q < ce ==> #[trigger] table@[base + q] == fold1::<T>(a.subrange(q, ce as int)),
                    table@[base + j] == fold1::<T>(a.subrange(j as int, ce as int)),
                    forall|q: int| cs <= q < j ==> #[trigger] table@[base + q] == a[q],
                    forall|q: int| ce <= q < n ==> #[trigger] table@[base + q] == a[q],
                decreases j,
            {
                let v = T::op(table[base + j - 1], table[base + j]);
                proof {
                    assert(a.subrange(j - 1, ce as int) =~= seq![a[j - 1]] + a.subrange(j as int, ce as int));
                    lemma_fold1_concat::<T>(seq![a[j - 1]], a.subrange(j as int, ce as int));
                    assert(seq![a[j - 1]].len() == 1);
                }
                table.set(base + j - 1, v);
                j -= 1;
            }
        } else {
            let mut j = cs + 1;
            proof {
                assert(a.subrange(cs as int, cs + 1).len() == 1);
            }
            while j < ce
                invariant
                    table@.len() == base + n,
                    base + n <= usize::MAX,
                    a.len() == n,
                    cs < j <= ce <= n,
                    table@.subrange(0, base as int) == before.subrange(0, base as int),
                    forall|q: int| 0 <= q < cs ==> #[trigger] table@[base + q] == cell::<T>(a, w as int, q),
                    forall|q: int| cs <= q < j ==> #[trigger] table@[base + q] == fold1::<T>(a.subrange(cs as int, q + 1)),
                    forall|q: int| j <= q < n ==> #[trigger] table@[base + q] == a[q],
                decreases ce - j,
            {
                proof {
                    assert(table@[base + (j - 1)] == fold1::<T>(a.subrange(cs as int, (j - 1) + 1)));
                    assert(table@[base + j] == a[j as int]);
                }
                let v = T::op(table[base + j - 1], table[base + j]);
                proof {
                    assert(a.subrange(cs as int, j + 1).drop_last() =~= a.subrange(cs as int, j as int));
                    assert(a.subrange(cs as int, j + 1).last() == a[j as int]);
                    assert(fold1::<T>(a.subrange(cs as int, j + 1)) == T::spec_op(
                        fold1::<T>(a.subrange(cs as int, j as int)),
                        a[j as int],
                    ));
                }
                table.set(base + j, v);
                j += 1;
            }
        }
        proof {
            assert forall|q: int| 0 <= q < ce implies #[trigger] table@[base + q] == cell::<T>(a, w as int, q) by {
                if q >= cs {
                    lemma_div_in_block(q, k, w as int);
                }
            }
            if ce < n {
                assert(ce == (k + 1) * w) by (nonlinear_arith) requires ce == cs + w, cs == k * w;
            }
        }
        cs = ce;
        even = !even;
        proof {
            k = k + 1;
        }
    }
}

/// A position in `[k w, k w + w)` lies in block `k`.
proof fn lemma_div_in_block(j: int, k: int, w: int)
    requires
        w >= 1,
        k >= 0,
        k * w <= j < k * w + w,
    ensures
        j / w == k,
{
    vstd::arithmetic::div_mod::lemma_fundamental_div_mod(j, w);
    let q = j / w;
    let r = j % w;
    assert(q == k) by (nonlinear_arith)
        requires
            j == w * q + r,
            0 <= r < w,
            k * w <= j < k * w + w,
            w >= 1;
}

/// For `x < y < n` with `2^m <= x ^ y < 2^(m+1)`: blocks of width `2^m` put `x` in an even
/// block and `y` in the next one, and `m` is at most the number of extra rows.
proof fn lemma_block_split(x: usize, y: usize, m: usize, p: usize, h: nat, n: usize)
    requires
        x < y < n,
        2 <= n,
        pow2(h) <= n - 1 < pow2(h + 1),
        h < 64,
        p == pow2(m as nat),
        pow2(m as nat) <= (x ^ y) < pow2((m + 1) as nat),
    ensures
        m <= h,
        (x as int / p as int) % 2 == 0,
        y as int / p as int == x as int / p as int + 1,
{
    let x64 = x as u64;
    let y64 = y as u64;
    let z64 = x64 ^ y64;
    assert(z64 == (x ^ y) as u64) by (bit_vector)
        requires x64 == x as u64, y64 == y as u64, z64 == x64 ^ y64;
    lemma2_to64();
    lemma2_to64_rest();
    // m < 64, and m <= h because x ^ y < 2^(h+1)
    if m >= 64 {
        if m > 64 {
            lemma_pow2_strictly_increases(64, m as nat);
        }
        assert(false);
    }
    let s = (h + 1) as u64;
    if h + 1 < 64 {
        lemma_u64_shl_is_mul(1, s);
        assert(x64 < (1u64 << s) && y64 < (1u64 << s) ==> (x64 ^ y64) < (1u64 << s)) by (bit_vector)
            requires s < 64;
    }
    if m > h {
        lemma_pow2_strictly_increases((h + 1) as nat, m as nat);
        if m > h + 1 {
        }
    }
    if m >= h + 1 {
        if m > h + 1 {
            lemma_pow2_strictly_increases((h + 1) as nat, m as nat);
        }
        assert(false);
    }
    // the bit `m` is the highest where x and y differ
    let mm = m as u64;
    lemma_u64_shr_is_div(z64, mm);
    lemma_pow2_unfold((m + 1) as nat);
    lemma_pow2_pos(m as nat);
    assert(z64 as int / p as int == 1) by (nonlinear_arith)
        requires p <= z64 < 2 * p, p > 0;
    assert(z64 >> mm == 1 && x64 < y64 && z64 == x64 ^ y64 && mm < 64 ==> ((x64 >> mm) & 1) == 0 && (y64 >> mm) == (x64 >> mm) + 1)
        by (bit_vector);
    lemma_u64_shr_is_div(x64, mm);
    lemma_u64_shr_is_div(y64, mm);
    let q = x64 >> mm;
    assert((q & 1) == 0 ==> q % 2 == 0) by (bit_vector);
}

} // verus!
