//! Coordinate compression of `u32` values, by a byte-wise radix sort.

use vstd::prelude::*;
use vstd::arithmetic::div_mod::{lemma_mod_breakdown, lemma_div_pos_is_pos, lemma_mod_bound};
use vstd::bits::lemma_u32_shr_is_div;
use vstd::arithmetic::power2::{pow2, lemma2_to64};

verus! {

/// `256^k`.
pub open spec fn base(k: nat) -> int {
    if k == 0 { 1 } else if k == 1 { 0x100 } else if k == 2 { 0x1_0000 } else if k == 3 { 0x100_0000 } else { 0x1_0000_0000 }
}

/// The `k`-th byte of `v`.
pub open spec fn digit(v: u32, k: nat) -> int {
    (v as int / base(k)) % 256
}

/// The lowest `k` bytes of `v`.
pub open spec fn low(v: u32, k: nat) -> int {
    v as int % base(k)
}

/// The sort key after sorting by the lowest `k` bytes: those bytes first, then the position.
pub open spec fn key(x: (u32, u32), k: nat) -> int {
    low(x.1, k) * 0x1_0000_0000 + x.0
}

/// Strictly increasing by `key(_, k)`.
pub open spec fn sorted_by(s: Seq<(u32, u32)>, k: nat) -> bool {
    forall|p: int, q: int| 0 <= p < q < s.len() ==> key(#[trigger] s[p], k) < key(#[trigger] s[q], k)
}

/// `x` is an element of `a`.
pub open spec fn occurs_in(a: Seq<(u32, u32)>, x: (u32, u32)) -> bool {
    exists|j: int| 0 <= j < a.len() && #[trigger] a[j] == x
}

/// Every element of `b` is an element of `a`.
#[verifier::opaque]
pub open spec fn contains_all(a: Seq<(u32, u32)>, b: Seq<(u32, u32)>) -> bool {
    forall|p: int| 0 <= p < b.len() ==> #[trigger] occurs_in(a, b[p])
}

/// `b` holds the elements of `a`, and the other way round.
pub open spec fn same_elems(a: Seq<(u32, u32)>, b: Seq<(u32, u32)>) -> bool {
    &&& a.len() == b.len()
    &&& contains_all(a, b)
    &&& contains_all(b, a)
}

/// The number of elements among the first `j` of `a` whose `k`-th byte is `d`.
pub open spec fn cnt(a: Seq<(u32, u32)>, j: int, k: nat, d: int) -> int
    decreases j,
{
    if j <= 0 { 0 } else { cnt(a, j - 1, k, d) + (if digit(a[j - 1].1, k) == d { 1int } else { 0 }) }
}

/// The number of elements among the first `j` of `a` whose `k`-th byte is below `e`.
pub open spec fn cnt_below(a: Seq<(u32, u32)>, j: int, k: nat, e: int) -> int
    decreases e,
{
    if e <= 0 { 0 } else { cnt_below(a, j, k, e - 1) + cnt(a, j, k, e - 1) }
}

proof fn lemma_digit_range(v: u32, k: nat)
    ensures
        0 <= digit(v, k) < 256,
        0 <= low(v, k) < base(k),
{
    assert(base(k) > 0);
    lemma_div_pos_is_pos(v as int, base(k));
    lemma_mod_bound(v as int / base(k), 256);
    lemma_mod_bound(v as int, base(k));
}

/// The lowest `k + 1` bytes are the `k`-th byte above the lowest `k`.
proof fn lemma_low_step(v: u32, k: nat)
    requires
        k < 4,
    ensures
        low(v, k + 1) == digit(v, k) * base(k) + low(v, k),
{
    assert(base(k + 1) == base(k) * 256);
    lemma_mod_breakdown(v as int, base(k), 256);
    vstd::arithmetic::mul::lemma_mul_is_commutative(base(k), digit(v, k));
}

proof fn lemma_cnt_bounds(a: Seq<(u32, u32)>, j: int, k: nat, d: int)
    requires
        0 <= j <= a.len(),
    ensures
        0 <= cnt(a, j, k, d) <= j,
    decreases j,
{
    if j > 0 {
        lemma_cnt_bounds(a, j - 1, k, d);
    }
}

proof fn lemma_cnt_below_step(a: Seq<(u32, u32)>, j: int, k: nat, e: int)
    requires
        0 <= j < a.len(),
        0 <= e,
    ensures
        cnt_below(a, j + 1, k, e) == cnt_below(a, j, k, e) + (if digit(a[j].1, k) < e { 1int } else { 0 }),
    decreases e,
{
    if e > 0 {
        lemma_cnt_below_step(a, j, k, e - 1);
    }
}

/// Every element has one byte below 256.
proof fn lemma_cnt_below_total(a: Seq<(u32, u32)>, j: int, k: nat)
    requires
        0 <= j <= a.len(),
    ensures
        cnt_below(a, j, k, 256) == j,
    decreases j,
{
    if j == 0 {
        assert forall|e: int| 0 <= e <= 256 implies #[trigger] cnt_below(a, 0, k, e) == 0 by {
            lemma_cnt_below_zero(a, k, e);
        }
    } else {
        lemma_cnt_below_total(a, j - 1, k);
        lemma_cnt_below_step(a, j - 1, k, 256);
        lemma_digit_range(a[j - 1].1, k);
    }
}

proof fn lemma_cnt_below_zero(a: Seq<(u32, u32)>, k: nat, e: int)
    ensures
        cnt_below(a, 0, k, e) == 0,
    decreases e,
{
    if e > 0 {
        lemma_cnt_below_zero(a, k, e - 1);
    }
}

proof fn lemma_cnt_below_mono(a: Seq<(u32, u32)>, j: int, k: nat, e: int, f: int)
    requires
        0 <= j <= a.len(),
        0 <= e <= f,
    ensures
        cnt_below(a, j, k, e) + cnt(a, j, k, e) <= cnt_below(a, j, k, f) || e == f,
        cnt_below(a, j, k, e) <= cnt_below(a, j, k, f),
    decreases f - e,
{
    if e < f {
        lemma_cnt_below_mono(a, j, k, e, f - 1);
        lemma_cnt_bounds(a, j, k, f - 1);
        if e < f - 1 {
            lemma_cnt_below_mono(a, j, k, e + 1, f - 1);
        }
    }
}

/// The `k`-th byte of `v`, computed by shifting.
fn digit_of(v: u32, k: u32) -> (d: usize)
    requires
        k < 4,
    ensures
        d == digit(v, k as nat),
        d < 256,
{
    let s = 8 * k;
    let x = (v >> s) & 0xff;
    proof {
        lemma_u32_shr_is_div(v, s);
        lemma2_to64();
        assert(pow2(s as nat) == base(k as nat));
        let y = v >> s;
        assert(y & 0xff == y % 256) by (bit_vector);
    }
    x as usize
}

/// One stable counting-sort pass on the `k`-th byte: from an order by the lowest `k`
/// bytes (then position) to an order by the lowest `k + 1` bytes (then position).
#[verifier::rlimit(60)]
fn counting_pass(a: &Vec<(u32, u32)>, k: u32) -> (b: Vec<(u32, u32)>)
    requires
        k < 4,
        a@.len() <= usize::MAX,
        sorted_by(a@, k as nat),
    ensures
        sorted_by(b@, (k + 1) as nat),
        same_elems(a@, b@),
{
    let n = a.len();
    let ghost kk = k as nat;
    // counts
    let mut count: Vec<usize> = Vec::new();
    let mut d: usize = 0;
    while d < 256
        invariant
            d <= 256,
            count@.len() == d,
            forall|e: int| 0 <= e < d ==> #[trigger] count@[e] == 0,
        decreases 256 - d,
    {
        count.push(0);
        d += 1;
    }
    let mut j: usize = 0;
    while j < n
        invariant
            j <= n,
            n == a@.len(),
            k < 4,
            kk == k as nat,
            count@.len() == 256,
            forall|e: int| 0 <= e < 256 ==> #[trigger] count@[e] == cnt(a@, j as int, kk, e),
        decreases n - j,
    {
        let dj = digit_of(a[j].1, k);
        proof {
            lemma_cnt_bounds(a@, j as int, kk, dj as int);
        }
        let c = count[dj];
        count.set(dj, c + 1);
        j += 1;
    }
    // bucket starts
    let mut start: Vec<usize> = Vec::new();
    start.push(0);
    let mut d: usize = 0;
    proof {
        lemma_cnt_below_total(a@, n as int, kk);
    }
    while d < 256
        invariant
            d <= 256,
            n == a@.len(),
            count@.len() == 256,
            forall|e: int| 0 <= e < 256 ==> #[trigger] count@[e] == cnt(a@, n as int, kk, e),
            cnt_below(a@, n as int, kk, 256) == n,
            start@.len() == d + 1,
            forall|e: int| 0 <= e <= d ==> #[trigger] start@[e] == cnt_below(a@, n as int, kk, e),
        decreases 256 - d,
    {
        proof {
            lemma_cnt_below_mono(a@, n as int, kk, d + 1, 256);
        }
        let v = start[d] + count[d];
        start.push(v);
        d += 1;
    }
    // placement
    let mut b: Vec<(u32, u32)> = Vec::new();
    let mut p: usize = 0;
    while p < n
        invariant
            p <= n,
            b@.len() == p,
        decreases n - p,
    {
        b.push((0, 0));
        p += 1;
    }
    let mut ptr = start.clone();
    proof {
        assert(ptr@ == start@);
        assert forall|e: int| 0 <= e < 256 implies #[trigger] cnt(a@, 0, kk, e) == 0 by {}
    }
    let ghost mut src: Seq<int> = Seq::new(n as nat, |q: int| 0int);
    let mut j: usize = 0;
    while j < n
        invariant
            j <= n,
            n == a@.len(),
            k < 4,
            kk == k as nat,
            sorted_by(a@, kk),
            b@.len() == n,
            src.len() == n,
            start@.len() == 257,
            ptr@.len() == 257,
            start@[256] == n,
            forall|e: int| 0 <= e <= 256 ==> #[trigger] start@[e] == cnt_below(a@, n as int, kk, e),
            forall|e: int| 0 <= e < 256 ==> #[trigger] ptr@[e] == start@[e] + cnt(a@, j as int, kk, e),
            forall|e: int| 0 <= e < 256 ==> start@[e] + cnt(a@, n as int, kk, e) == #[trigger] start@[e + 1],
            // the filled slots of each bucket hold earlier elements with that byte
            forall|e: int, q: int| #![trigger src[q], ptr@[e]] 0 <= e < 256 && start@[e] <= q < ptr@[e] ==> {
                &&& 0 <= src[q] < j
                &&& b@[q] == a@[src[q]]
                &&& digit(a@[src[q]].1, kk) == e
            },
            // every earlier element was placed
            forall|i: int| 0 <= i < j ==> {
                let e = digit(a@[i].1, kk);
                &&& start@[e] <= #[trigger] pos_of(a@, i, kk, start@) < ptr@[e]
                &&& src[pos_of(a@, i, kk, start@)] == i
            },
        decreases n - j,
    {
        let x = a[j];
        let dj = digit_of(x.1, k);
        proof {
            lemma_digit_range(x.1, kk);
            lemma_cnt_bounds(a@, n as int, kk, dj as int);
            lemma_cnt_prefix_le(a@, j as int, n as int, kk, dj as int);
            lemma_cnt_below_mono(a@, n as int, kk, dj + 1, 256);
            assert(start@[dj as int + 1] == start@[dj as int] + cnt(a@, n as int, kk, dj as int));
        }
        let q = ptr[dj];
        let ghost ptr0 = ptr@;
        let ghost b0 = b@;
        let ghost src0 = src;
        let ghost jo = j as int;
        b.set(q, x);
        ptr.set(dj, q + 1);
        proof {
            src = src.update(q as int, j as int);
            lemma_pos_of_new(a@, j as int, kk, start@);
        }
        j += 1;
        proof {
            assert forall|e: int| 0 <= e < 256 implies #[trigger] ptr0[e] <= start@[e + 1] by {
                lemma_cnt_mono(a@, jo, n as int, kk, e);
            }
            lemma_cnt_bounds(a@, jo, kk, dj as int);
            assert(start@[dj as int] <= q < start@[dj as int + 1]);
            assert(x == a@[jo]);
            assert(b@[q as int] == x);
            assert(src[q as int] == jo);
            assert(digit(x.1, kk) == dj);
            assert forall|e: int, q2: int| #![trigger src[q2], ptr@[e]] 0 <= e < 256 && start@[e] <= q2 < ptr@[e] implies {
                &&& 0 <= src[q2] < j
                &&& b@[q2] == a@[src[q2]]
                &&& digit(a@[src[q2]].1, kk) == e
            } by {
                assert(ptr0[e] <= start@[e + 1]);
                assert(ptr0[dj as int] <= start@[dj as int + 1]);
                if q2 == q as int {
                    if e != dj as int {
                        lemma_buckets_apart(a@, n as int, kk, start@, e, dj as int, q2, q as int);
                    }
                    assert(src[q2] == jo);
                    assert(b@[q2] == a@[jo]);
                } else {
                    assert(q2 < ptr0[e]);
                    lemma_cnt_below_mono(a@, n as int, kk, e + 1, 256);
                    assert(q2 < n);
                    assert(0 <= src0[q2] < jo);
                    assert(b0[q2] == a@[src0[q2]]);
                    assert(digit(a@[src0[q2]].1, kk) == e);
                    assert(src[q2] == src0[q2]);
                    assert(b@[q2] == b0[q2]);
                }
            }
            assert forall|i: int| 0 <= i < j implies {
                let e = digit(a@[i].1, kk);
                &&& start@[e] <= #[trigger] pos_of(a@, i, kk, start@) < ptr@[e]
                &&& src[pos_of(a@, i, kk, start@)] == i
            } by {
                lemma_digit_range(a@[i].1, kk);
                let e = digit(a@[i].1, kk);
                let pi = pos_of(a@, i, kk, start@);
                if i < jo {
                    assert(start@[e] <= pi < ptr0[e] && src0[pi] == i);
                    assert(ptr0[e] <= start@[e + 1]);
                    assert(ptr0[dj as int] <= start@[dj as int + 1]);
                    lemma_cnt_below_mono(a@, n as int, kk, e + 1, 256);
                    assert(pi < n);
                    assert(pi != q) by {
                        if e == dj as int {
                            assert(pi < q);
                        } else {
                            lemma_buckets_apart(a@, n as int, kk, start@, e, dj as int, pi, q as int);
                        }
                    }
                    assert(src[pi] == src0[pi]);
                    assert(ptr0[e] <= ptr@[e]);
                } else {
                    assert(i == jo);
                    assert(e == dj as int);
                    assert(pi == q as int);
                }
            }
        }
    }
    proof {
        // every slot is filled, and the filled slots are in order
        lemma_placed_sorted(a@, b@, src, n as int, kk, start@, ptr@);
    }
    b
}

/// Where the pass puts the `i`-th element: its bucket's start plus the earlier elements
/// with the same byte.
pub open spec fn pos_of(a: Seq<(u32, u32)>, i: int, k: nat, start: Seq<usize>) -> int {
    start[digit(a[i].1, k)] + cnt(a, i, k, digit(a[i].1, k))
}

proof fn lemma_pos_of_new(a: Seq<(u32, u32)>, j: int, k: nat, start: Seq<usize>)
    requires
        0 <= j < a.len(),
    ensures
        pos_of(a, j, k, start) == start[digit(a[j].1, k)] + cnt(a, j, k, digit(a[j].1, k)),
{
}

proof fn lemma_cnt_prefix_le(a: Seq<(u32, u32)>, j: int, n: int, k: nat, d: int)
    requires
        0 <= j < n <= a.len(),
        digit(a[j].1, k) == d,
    ensures
        cnt(a, j, k, d) < cnt(a, n, k, d),
    decreases n - j,
{
    if n > j + 1 {
        lemma_cnt_prefix_le(a, j, n - 1, k, d);
    }
}

/// Distinct buckets occupy disjoint ranges.
proof fn lemma_buckets_apart(a: Seq<(u32, u32)>, n: int, k: nat, start: Seq<usize>, e: int, f: int, p: int, q: int)
    requires
        0 <= n <= a.len(),
        0 <= e < 256,
        0 <= f < 256,
        e != f,
        start.len() == 257,
        forall|x: int| 0 <= x <= 256 ==> #[trigger] start[x] == cnt_below(a, n, k, x),
        forall|x: int| 0 <= x < 256 ==> start[x] + cnt(a, n, k, x) == #[trigger] start[x + 1],
        start[e] <= p < start[e + 1],
        start[f] <= q < start[f + 1],
    ensures
        p != q,
{
    if e < f {
        lemma_cnt_below_mono(a, n, k, e + 1, f);
    } else {
        lemma_cnt_below_mono(a, n, k, f + 1, e);
    }
}

/// After the pass every slot holds one placed element, and the slots are in key order.
proof fn lemma_placed_sorted(
    a: Seq<(u32, u32)>,
    b: Seq<(u32, u32)>,
    src: Seq<int>,
    n: int,
    k: nat,
    start: Seq<usize>,
    ptr: Seq<usize>,
)
    requires
        k < 4,
        n == a.len() == b.len() == src.len(),
        sorted_by(a, k),
        start.len() == 257,
        ptr.len() == 257,
        start[0] == 0,
        start[256] == n,
        forall|e: int| 0 <= e <= 256 ==> #[trigger] start[e] == cnt_below(a, n, k, e),
        forall|e: int| 0 <= e < 256 ==> #[trigger] ptr[e] == start[e] + cnt(a, n, k, e),
        forall|e: int| 0 <= e < 256 ==> start[e] + cnt(a, n, k, e) == #[trigger] start[e + 1],
        forall|e: int, q: int| #![trigger src[q], ptr[e]] 0 <= e < 256 && start[e] <= q < ptr[e] ==> {
            &&& 0 <= src[q] < n
            &&& b[q] == a[src[q]]
            &&& digit(a[src[q]].1, k) == e
        },
        forall|i: int| 0 <= i < n ==> {
            let e = digit(a[i].1, k);
            &&& start[e] <= #[trigger] pos_of(a, i, k, start) < ptr[e]
            &&& src[pos_of(a, i, k, start)] == i
        },
    ensures
        sorted_by(b, (k + 1) as nat),
        same_elems(a, b),
{
    assert forall|p: int, q: int| 0 <= p < q < n implies key(#[trigger] b[p], (k + 1) as nat) < key(#[trigger] b[q], (k + 1) as nat) by {
        lemma_in_some_bucket(start, p, 256);
        lemma_in_some_bucket(start, q, 256);
        let e = choose|e: int| 0 <= e < 256 && start[e] <= p < #[trigger] start[e + 1];
        let f = choose|f: int| 0 <= f < 256 && start[f] <= q < #[trigger] start[f + 1];
        assert(ptr[e] == start[e] + cnt(a, n, k, e));
        assert(ptr[f] == start[f] + cnt(a, n, k, f));
        assert(0 <= src[p] < n && b[p] == a[src[p]] && digit(a[src[p]].1, k) == e);
        assert(0 <= src[q] < n && b[q] == a[src[q]] && digit(a[src[q]].1, k) == f);
        let i = src[p];
        let i2 = src[q];
        lemma_low_step(a[i].1, k);
        lemma_low_step(a[i2].1, k);
        lemma_digit_range(a[i].1, k);
        lemma_digit_range(a[i2].1, k);
        if e == f {
            // same byte: earlier in the bucket means earlier in `a`
            assert(pos_of(a, i, k, start) == p) by {
                lemma_src_pos(a, src, n, k, start, ptr, e, p);
            }
            assert(pos_of(a, i2, k, start) == q) by {
                lemma_src_pos(a, src, n, k, start, ptr, f, q);
            }
            lemma_cnt_order(a, i, i2, k, e);
            assert(key(a[i], k) < key(a[i2], k));
            assert(b[p] == a[i] && b[q] == a[i2]);
        } else if e < f {
            assert(b[p] == a[i] && b[q] == a[i2]);
            assert(digit(a[i].1, k) == e && digit(a[i2].1, k) == f);
            assert(low(a[i].1, k + 1) < low(a[i2].1, k + 1)) by (nonlinear_arith)
                requires
                    low(a[i].1, k + 1) == e * base(k) + low(a[i].1, k),
                    low(a[i2].1, k + 1) == f * base(k) + low(a[i2].1, k),
                    0 <= low(a[i].1, k) < base(k),
                    0 <= low(a[i2].1, k),
                    e < f;
        } else {
            lemma_cnt_below_mono(a, n, k, f + 1, e);
            assert(false);
        }
    }
    reveal(contains_all);
    assert forall|p: int| 0 <= p < n implies #[trigger] occurs_in(a, b[p]) by {
        lemma_in_some_bucket(start, p, 256);
        let e = choose|e: int| 0 <= e < 256 && start[e] <= p < #[trigger] start[e + 1];
        assert(ptr[e] == start[e] + cnt(a, n, k, e));
        assert(0 <= src[p] < n && b[p] == a[src[p]]);
    }
    assert forall|j: int| 0 <= j < n implies #[trigger] occurs_in(b, a[j]) by {
        let e = digit(a[j].1, k);
        lemma_digit_range(a[j].1, k);
        let p = pos_of(a, j, k, start);
        assert(start[e] <= p < ptr[e]);
        assert(0 <= src[p] < n && b[p] == a[src[p]]);
        lemma_cnt_below_mono(a, n, k, e + 1, 256);
        assert(ptr[e] == start[e] + cnt(a, n, k, e));
    }
}

proof fn lemma_in_some_bucket(start: Seq<usize>, q: int, m: int)
    requires
        0 < m <= 256,
        start.len() == 257,
        start[0] == 0,
        start[0] <= q < start[m],
    ensures
        exists|e: int| 0 <= e < m && start[e] <= q < #[trigger] start[e + 1],
    decreases m,
{
    if q >= start[m - 1] {
        assert(start[m - 1] <= q < start[(m - 1) + 1]);
    } else {
        lemma_in_some_bucket(start, q, m - 1);
        let e = choose|e: int| 0 <= e < m - 1 && start[e] <= q < #[trigger] start[e + 1];
    }
}

/// The element a filled slot came from is placed at that slot.
proof fn lemma_src_pos(
    a: Seq<(u32, u32)>,
    src: Seq<int>,
    n: int,
    k: nat,
    start: Seq<usize>,
    ptr: Seq<usize>,
    e: int,
    p: int,
)
    requires
        n == a.len() == src.len(),
        start.len() == 257,
        ptr.len() == 257,
        0 <= e < 256,
        start[e] <= p < start[e + 1],
        forall|x: int| 0 <= x < 256 ==> #[trigger] ptr[x] == start[x] + cnt(a, n, k, x),
        forall|x: int| 0 <= x < 256 ==> start[x] + cnt(a, n, k, x) == #[trigger] start[x + 1],
        forall|x: int, q: int| #![trigger src[q], ptr[x]] 0 <= x < 256 && start[x] <= q < ptr[x] ==> {
            &&& 0 <= src[q] < n
            &&& digit(a[src[q]].1, k) == x
        },
        forall|i: int| 0 <= i < n ==> {
            let x = digit(a[i].1, k);
            &&& start[x] <= #[trigger] pos_of(a, i, k, start) < ptr[x]
            &&& src[pos_of(a, i, k, start)] == i
        },
    ensures
        pos_of(a, src[p], k, start) == p,
{
    // the slots of bucket `e` are taken by the elements with byte `e`, one each
    let i = src[p];
    assert(ptr[e] == start[e] + cnt(a, n, k, e));
    assert(0 <= i < n && digit(a[i].1, k) == e);
    lemma_bucket_bijection(a, src, n, k, start, ptr, e, p);
}

/// Within bucket `e`, the positions given to its elements fill every slot, so each slot is
/// the position of the element it came from.
proof fn lemma_bucket_bijection(
    a: Seq<(u32, u32)>,
    src: Seq<int>,
    n: int,
    k: nat,
    start: Seq<usize>,
    ptr: Seq<usize>,
    e: int,
    p: int,
)
    requires
        n == a.len() == src.len(),
        start.len() == 257,
        ptr.len() == 257,
        0 <= e < 256,
        start[e] <= p < start[e + 1],
        forall|x: int| 0 <= x < 256 ==> #[trigger] ptr[x] == start[x] + cnt(a, n, k, x),
        forall|x: int| 0 <= x < 256 ==> start[x] + cnt(a, n, k, x) == #[trigger] start[x + 1],
        forall|x: int, q: int| #![trigger src[q], ptr[x]] 0 <= x < 256 && start[x] <= q < ptr[x] ==> {
            &&& 0 <= src[q] < n
            &&& digit(a[src[q]].1, k) == x
        },
        forall|i: int| 0 <= i < n ==> {
            let x = digit(a[i].1, k);
            &&& start[x] <= #[trigger] pos_of(a, i, k, start) < ptr[x]
            &&& src[pos_of(a, i, k, start)] == i
        },
    ensures
        pos_of(a, src[p], k, start) == p,
{
    // the positions of the elements of bucket `e`, in order of `a`, are start[e], start[e]+1, ...
    let i = src[p];
    assert(ptr[e] == start[e] + cnt(a, n, k, e));
    assert(0 <= src[p] < n);
    let q = pos_of(a, i, k, start);
    assert(digit(a[i].1, k) == e);
    assert(src[q] == i);
    // if q != p, then the element placed at q is i, and the one at p is i too, so src is not
    // injective on positions; but positions of distinct elements differ
    if q != p {
        lemma_positions_cover(a, src, n, k, start, ptr, e, p);
        let i2 = choose|i2: int| 0 <= i2 < n && digit(a[i2].1, k) == e && #[trigger] pos_of(a, i2, k, start) == p;
        assert(src[p] == i2);
        assert(false);
    }
}

/// Every slot of bucket `e` is the position of some element with byte `e`.
proof fn lemma_positions_cover(
    a: Seq<(u32, u32)>,
    src: Seq<int>,
    n: int,
    k: nat,
    start: Seq<usize>,
    ptr: Seq<usize>,
    e: int,
    p: int,
)
    requires
        n == a.len(),
        start.len() == 257,
        0 <= e < 256,
        start[e] <= p < start[e + 1],
        forall|x: int| 0 <= x < 256 ==> start[x] + cnt(a, n, k, x) == #[trigger] start[x + 1],
    ensures
        exists|i2: int| 0 <= i2 < n && digit(a[i2].1, k) == e && #[trigger] pos_of(a, i2, k, start) == p,
{
    lemma_cnt_hits(a, n, k, e, p - start[e]);
    let i2 = choose|i2: int| 0 <= i2 < n && digit(a[i2].1, k) == e && cnt(a, i2, k, e) == p - start[e];
    assert(pos_of(a, i2, k, start) == p);
}

/// Each count below the total is reached just before some element with that byte.
proof fn lemma_cnt_hits(a: Seq<(u32, u32)>, n: int, k: nat, e: int, c: int)
    requires
        0 <= n <= a.len(),
        0 <= c < cnt(a, n, k, e),
    ensures
        exists|i2: int| 0 <= i2 < n && digit(a[i2].1, k) == e && cnt(a, i2, k, e) == c,
    decreases n,
{
    if cnt(a, n - 1, k, e) > c {
        lemma_cnt_hits(a, n - 1, k, e, c);
        let i2 = choose|i2: int| 0 <= i2 < n - 1 && digit(a[i2].1, k) == e && cnt(a, i2, k, e) == c;
    } else {
        assert(digit(a[n - 1].1, k) == e);
        assert(cnt(a, n - 1, k, e) == c);
    }
}

/// Among elements with the same byte, a smaller count before means an earlier element, so a
/// smaller key.
proof fn lemma_cnt_order(a: Seq<(u32, u32)>, i: int, i2: int, k: nat, e: int)
    requires
        sorted_by(a, k),
        0 <= i < a.len(),
        0 <= i2 < a.len(),
        digit(a[i].1, k) == e,
        digit(a[i2].1, k) == e,
        cnt(a, i, k, e) < cnt(a, i2, k, e),
    ensures
        key(a[i], k) < key(a[i2], k),
{
    if i2 <= i {
        lemma_cnt_mono(a, i2, i, k, e);
        assert(false);
    }
}

proof fn lemma_cnt_mono(a: Seq<(u32, u32)>, i: int, j: int, k: nat, e: int)
    requires
        0 <= i <= j <= a.len(),
    ensures
        cnt(a, i, k, e) <= cnt(a, j, k, e),
    decreases j - i,
{
    if i < j {
        lemma_cnt_mono(a, i, j - 1, k, e);
    }
}


proof fn lemma_covers_trans(a: Seq<(u32, u32)>, b: Seq<(u32, u32)>, c: Seq<(u32, u32)>)
    requires
        contains_all(a, b),
        contains_all(b, c),
    ensures
        contains_all(a, c),
{
    reveal(contains_all);
    assert forall|p: int| 0 <= p < c.len() implies #[trigger] occurs_in(a, c[p]) by {
        assert(occurs_in(b, c[p]));
        let q = choose|q: int| 0 <= q < b.len() && #[trigger] b[q] == c[p];
        assert(occurs_in(a, b[q]));
        let j = choose|j: int| 0 <= j < a.len() && #[trigger] a[j] == b[q];
        assert(a[j] == c[p]);
    }
}

proof fn lemma_same_elems_trans(a: Seq<(u32, u32)>, b: Seq<(u32, u32)>, c: Seq<(u32, u32)>)
    requires
        same_elems(a, b),
        same_elems(b, c),
    ensures
        same_elems(a, c),
{
    lemma_covers_trans(a, b, c);
    lemma_covers_trans(c, b, a);
}

proof fn lemma_covers_refl(a: Seq<(u32, u32)>)
    ensures
        contains_all(a, a),
{
    reveal(contains_all);
    assert forall|p: int| 0 <= p < a.len() implies #[trigger] occurs_in(a, a[p]) by {
        assert(a[p] == a[p]);
    }
}

/// Sorts pairs `(position, value)`, given in order of position, by value and then
/// position, one byte of the value at a time.
pub(crate) fn radix_sort_pairs(a: Vec<(u32, u32)>) -> (r: Vec<(u32, u32)>)
    requires
        sorted_by(a@, 0),
    ensures
        sorted_by(r@, 4),
        same_elems(a@, r@),
{
    let ghost orig = a@;
    let mut cur = a;
    let mut k: u32 = 0;
    let len = cur.len();
    proof {
        lemma_covers_refl(orig);
    }
    while k < 4
        invariant
            k <= 4,
            cur@.len() == orig.len(),
            orig.len() == len,
            sorted_by(cur@, k as nat),
            same_elems(orig, cur@),
        decreases 4 - k,
    {
        let next = counting_pass(&cur, k);
        proof {
            lemma_same_elems_trans(orig, cur@, next@);
        }
        cur = next;
        k += 1;
    }
    cur
}

/// Strictly increasing.
pub open spec fn increasing(s: Seq<u32>) -> bool {
    forall|p: int, q: int| 0 <= p < q < s.len() ==> #[trigger] s[p] < #[trigger] s[q]
}

/// Replaces each value of `text` by `MIN` plus its rank among the distinct values, and
/// returns those values in increasing order, to restore the originals.
pub fn compress<const MIN: u32>(text: &[u32]) -> (r: (Vec<u32>, Vec<u32>))
    requires
        text@.len() <= 0x1_0000_0000,
        MIN as int + text@.to_set().len() <= u32::MAX as int + 1,
    ensures
        r.0@.len() == text@.len(),
        increasing(r.1@),
        forall|v: u32| r.1@.contains(v) <==> text@.contains(v),
        forall|i: int| 0 <= i < text@.len() ==> MIN <= #[trigger] r.0@[i] && r.0@[i] - MIN < r.1@.len()
            && r.1@[r.0@[i] - MIN] == text@[i],
{
    let n = text.len();
    let mut pairs: Vec<(u32, u32)> = Vec::new();
    let mut i: usize = 0;
    while i < n
        invariant
            i <= n,
            n == text@.len(),
            n <= 0x1_0000_0000,
            pairs@.len() == i,
            forall|j: int| 0 <= j < i ==> #[trigger] pairs@[j] == (j as u32, text@[j]),
        decreases n - i,
    {
        pairs.push((i as u32, text[i]));
        i += 1;
    }
    let ghost init = pairs@;
    proof {
        assert forall|j: int| 0 <= j < n implies (#[trigger] init[j]).0 == j by {
            assert(init[j] == (j as u32, text@[j]));
        }
        assert forall|p: int, q: int| 0 <= p < q < init.len() implies key(#[trigger] init[p], 0) < key(#[trigger] init[q], 0) by {
            assert(low(init[p].1, 0) == 0 && low(init[q].1, 0) == 0);
        }
    }
    let sorted = radix_sort_pairs(pairs);
    let ghost ss = sorted@;
    proof {
        lemma_sorted_pairs(text@, init, ss);
    }
    let mut compressed: Vec<u32> = Vec::new();
    let mut i: usize = 0;
    while i < n
        invariant
            i <= n,
            compressed@.len() == i,
        decreases n - i,
    {
        compressed.push(0);
        i += 1;
    }
    let mut restore: Vec<u32> = Vec::new();
    let mut p: usize = 0;
    while p < n
        invariant
            p <= n,
            n == text@.len(),
            n == ss.len(),
            sorted@ == ss,
            sorted_by(ss, 4),
            forall|q: int| 0 <= q < n ==> (#[trigger] ss[q]).0 < n && ss[q].1 == text@[ss[q].0 as int],
            forall|q: int, q2: int| 0 <= q < q2 < n ==> (#[trigger] ss[q]).0 != (#[trigger] ss[q2]).0,
            MIN as int + text@.to_set().len() <= u32::MAX as int + 1,
            compressed@.len() == n,
            increasing(restore@),
            p == 0 <==> restore@.len() == 0,
            p > 0 ==> restore@[restore@.len() - 1] == ss[p - 1].1,
            forall|x: int| 0 <= x < restore@.len() ==> #[trigger] text@.contains(restore@[x]),
            forall|q: int| 0 <= q < p ==> {
                let c = #[trigger] compressed@[ss[q].0 as int];
                &&& MIN <= c && c - MIN < restore@.len()
                &&& restore@[c - MIN] == ss[q].1
            },
        decreases n - p,
    {
        let (i, v) = sorted[p];
        let ghost rb = restore@;
        let ghost cb = compressed@;
        if p == 0 || v != sorted[p - 1].1 {
            proof {
                if p > 0 {
                    lemma_value_order(ss, (p - 1) as int, p as int);
                }
            }
            restore.push(v);
        }
        proof {
            assert(text@.contains(v)) by {
                assert(text@[ss[p as int].0 as int] == v);
            }
            assert forall|x: int| 0 <= x < restore@.len() implies #[trigger] text@.contains(restore@[x]) by {
                if x < rb.len() {
                    assert(restore@[x] == rb[x]);
                }
            }
            lemma_distinct_values_fit(restore@, text@);
        }
        let c = MIN + (restore.len() - 1) as u32;
        compressed.set(i as usize, c);
        proof {
            assert forall|q: int| 0 <= q < p + 1 implies {
                let c = #[trigger] compressed@[ss[q].0 as int];
                &&& MIN <= c && c - MIN < restore@.len()
                &&& restore@[c - MIN] == ss[q].1
            } by {
                if q < p {
                    assert(ss[q].0 != ss[p as int].0);
                    assert(compressed@[ss[q].0 as int] == cb[ss[q].0 as int]);
                    let cq = cb[ss[q].0 as int];
                    assert(restore@[cq - MIN] == rb[cq - MIN]);
                }
            }
        }
        p += 1;
    }
    proof {
        assert forall|v: u32| restore@.contains(v) <==> text@.contains(v) by {
            if text@.contains(v) {
                let i = choose|i: int| 0 <= i < n && text@[i] == v;
                assert(occurs_in(ss, (i as u32, text@[i])));
                let q = choose|q: int| 0 <= q < n && #[trigger] ss[q] == (i as u32, text@[i]);
                let c = compressed@[ss[q].0 as int];
                assert(restore@[c - MIN] == v);
            }
            if restore@.contains(v) {
                let x = choose|x: int| 0 <= x < restore@.len() && restore@[x] == v;
                assert(text@.contains(restore@[x]));
            }
        }
        assert forall|i: int| 0 <= i < n implies MIN <= #[trigger] compressed@[i] && compressed@[i] - MIN < restore@.len()
            && restore@[compressed@[i] - MIN] == text@[i] by {
            assert(occurs_in(ss, (i as u32, text@[i])));
            let q = choose|q: int| 0 <= q < n && #[trigger] ss[q] == (i as u32, text@[i]);
            assert(ss[q].0 == i);
        }
    }
    (compressed, restore)
}

/// Distinct values of `text`, kept in increasing order, are no more than the distinct
/// values that `text` has.
proof fn lemma_distinct_values_fit(r: Seq<u32>, text: Seq<u32>)
    requires
        increasing(r),
        forall|x: int| 0 <= x < r.len() ==> #[trigger] text.contains(r[x]),
    ensures
        r.len() <= text.to_set().len(),
{
    assert(r.no_duplicates()) by {
        assert forall|x: int, y: int| 0 <= x < r.len() && 0 <= y < r.len() && x != y implies r[x] != r[y] by {
            if x < y {
                assert(r[x] < r[y]);
            } else {
                assert(r[y] < r[x]);
            }
        }
    }
    r.unique_seq_to_set();
    assert(r.to_set().subset_of(text.to_set())) by {
        assert forall|w: u32| r.to_set().contains(w) implies text.to_set().contains(w) by {
            let x = choose|x: int| 0 <= x < r.len() && r[x] == w;
            assert(text.contains(r[x]));
        }
    }
    vstd::set_lib::lemma_len_subset(r.to_set(), text.to_set());
}

/// The sorted pairs are the pairs `(i, text[i])`, each once.
proof fn lemma_sorted_pairs(text: Seq<u32>, init: Seq<(u32, u32)>, ss: Seq<(u32, u32)>)
    requires
        init.len() == text.len(),
        text.len() <= 0x1_0000_0000,
        forall|j: int| 0 <= j < init.len() ==> #[trigger] init[j] == (j as u32, text[j]),
        forall|j: int| 0 <= j < init.len() ==> (#[trigger] init[j]).0 == j,
        same_elems(init, ss),
        sorted_by(ss, 4),
    ensures
        ss.len() == text.len(),
        forall|q: int| 0 <= q < ss.len() ==> (#[trigger] ss[q]).0 < ss.len() && ss[q].1 == text[ss[q].0 as int],
        forall|q: int, q2: int| 0 <= q < q2 < ss.len() ==> (#[trigger] ss[q]).0 != (#[trigger] ss[q2]).0,
        forall|i: int| 0 <= i < text.len() ==> #[trigger] occurs_in(ss, (i as u32, text[i])),
{
    reveal(contains_all);
    assert forall|q: int| 0 <= q < ss.len() implies (#[trigger] ss[q]).0 < ss.len() && ss[q].1 == text[ss[q].0 as int] by {
        assert(occurs_in(init, ss[q]));
        let j = choose|j: int| 0 <= j < init.len() && #[trigger] init[j] == ss[q];
        assert(init[j] == (j as u32, text[j]));
    }
    assert forall|q: int, q2: int| 0 <= q < q2 < ss.len() implies (#[trigger] ss[q]).0 != (#[trigger] ss[q2]).0 by {
        assert(occurs_in(init, ss[q]));
        assert(occurs_in(init, ss[q2]));
        let j = choose|j: int| 0 <= j < init.len() && #[trigger] init[j] == ss[q];
        let j2 = choose|j: int| 0 <= j < init.len() && #[trigger] init[j] == ss[q2];
        assert(key(ss[q], 4) < key(ss[q2], 4));
        assert(init[j].0 == j && init[j2].0 == j2);
    }
    assert forall|i: int| 0 <= i < text.len() implies #[trigger] occurs_in(ss, (i as u32, text[i])) by {
        assert(occurs_in(ss, init[i]));
        assert(init[i] == (i as u32, text[i]));
    }
}

/// Sorted by value then position, a pair with the same value as the one before it comes
/// later, and one with another value has a larger value.
proof fn lemma_value_order(ss: Seq<(u32, u32)>, p: int, q: int)
    requires
        sorted_by(ss, 4),
        0 <= p < q < ss.len(),
    ensures
        ss[p].1 <= ss[q].1,
{
    assert(key(ss[p], 4) < key(ss[q], 4));
    assert(low(ss[p].1, 4) == ss[p].1 as int);
    assert(low(ss[q].1, 4) == ss[q].1 as int);
}

} // verus!
