//! A table of least prime factors, sieved over the numbers coprime to 30.

use vstd::prelude::*;
use vstd::arithmetic::power2::{pow2, lemma_pow2_unfold, lemma_pow2_strictly_increases};

verus! {

/// The residues modulo 30 of the numbers coprime to 30, in increasing order.
pub open spec fn wheel(i: int) -> int {
    if i == 0 { 1 } else if i == 1 { 7 } else if i == 2 { 11 } else if i == 3 { 13 }
    else if i == 4 { 17 } else if i == 5 { 19 } else if i == 6 { 23 } else { 29 }
}

/// The number stored at slot `x` of the table: `30 * (x / 8) + wheel(x % 8)`.
pub open spec fn value(x: int) -> int {
    30 * (x / 8) + wheel(x % 8)
}

/// Not divisible by 2, 3 or 5.
pub open spec fn coprime30(n: int) -> bool {
    n % 2 != 0 && n % 3 != 0 && n % 5 != 0
}

/// `p` is the least factor of `n` above 1.
pub open spec fn is_min_factor(n: int, p: int) -> bool {
    &&& 2 <= p
    &&& n % p == 0
    &&& forall|d: int| 2 <= d < p ==> #[trigger] (n % d) != 0
}

/// `n` is a prime number.
pub open spec fn prime(n: int) -> bool {
    n >= 2 && forall|d: int| 2 <= d < n ==> #[trigger] (n % d) != 0
}

/// The slot of the residue `r` among the wheel's residues.
pub open spec fn slot(r: int) -> int {
    if r == 1 { 0 } else if r == 7 { 1 } else if r == 11 { 2 } else if r == 13 { 3 }
    else if r == 17 { 4 } else if r == 19 { 5 } else if r == 23 { 6 } else { 7 }
}

/// The slot of a number coprime to 30.
pub open spec fn index_of(n: int) -> int {
    8 * (n / 30) + slot(n % 30)
}

proof fn lemma_residues(r: u32)
    requires
        r < 30,
        r % 2 != 0 && r % 3 != 0 && r % 5 != 0,
    ensures
        r == 1 || r == 7 || r == 11 || r == 13 || r == 17 || r == 19 || r == 23 || r == 29,
{
    assert(r < 30 && r % 2 != 0 && r % 3 != 0 && r % 5 != 0 ==> r == 1 || r == 7 || r == 11 || r == 13
        || r == 17 || r == 19 || r == 23 || r == 29) by (bit_vector);
}

/// The slots enumerate the numbers coprime to 30, in increasing order.
proof fn lemma_value(x: int)
    requires
        x >= 0,
    ensures
        value(x) >= 1,
        x >= 1 ==> value(x) >= 7,
        value(x) < value(x + 1),
        value(x + 1) - value(x) <= 6,
        value(x) % 30 == wheel(x % 8),
        value(x) / 30 == x / 8,
        coprime30(value(x)),
        index_of(value(x)) == x,
{
    let k = x / 8;
    let i = x % 8;
    assert(0 <= i < 8);
    assert(value(x) == 30 * k + wheel(i));
    assert((30 * k + wheel(i)) % 30 == wheel(i)) by {
        vstd::arithmetic::div_mod::lemma_fundamental_div_mod_converse(30 * k + wheel(i), 30, k, wheel(i));
    }
    assert((30 * k + wheel(i)) / 30 == k) by {
        vstd::arithmetic::div_mod::lemma_fundamental_div_mod_converse(30 * k + wheel(i), 30, k, wheel(i));
    }
    if i < 7 {
        assert((x + 1) / 8 == k && (x + 1) % 8 == i + 1);
    } else {
        assert((x + 1) / 8 == k + 1 && (x + 1) % 8 == 0);
    }
    let v = value(x);
    assert(v % 2 == wheel(i) % 2) by {
        vstd::arithmetic::div_mod::lemma_fundamental_div_mod_converse(v, 2, 15 * k + wheel(i) / 2, wheel(i) % 2);
    }
    assert(v % 3 == wheel(i) % 3) by {
        vstd::arithmetic::div_mod::lemma_fundamental_div_mod_converse(v, 3, 10 * k + wheel(i) / 3, wheel(i) % 3);
    }
    assert(v % 5 == wheel(i) % 5) by {
        vstd::arithmetic::div_mod::lemma_fundamental_div_mod_converse(v, 5, 6 * k + wheel(i) / 5, wheel(i) % 5);
    }
}

/// Every number coprime to 30 sits in the slot `index_of` gives.
proof fn lemma_index_of(n: int)
    requires
        n >= 1,
        coprime30(n),
    ensures
        index_of(n) >= 0,
        value(index_of(n)) == n,
        coprime30(n % 30),
        n >= 7 ==> index_of(n) >= 1,
{
    let k = n / 30;
    let r = n % 30;
    assert(n == 30 * k + r);
    assert(r % 2 == n % 2) by {
        vstd::arithmetic::div_mod::lemma_fundamental_div_mod_converse(n, 2, 15 * k + r / 2, r % 2);
    }
    assert(r % 3 == n % 3) by {
        vstd::arithmetic::div_mod::lemma_fundamental_div_mod_converse(n, 3, 10 * k + r / 3, r % 3);
    }
    assert(r % 5 == n % 5) by {
        vstd::arithmetic::div_mod::lemma_fundamental_div_mod_converse(n, 5, 6 * k + r / 5, r % 5);
    }
    lemma_residues(r as u32);
    let x = index_of(n);
    assert(x / 8 == k && x % 8 == slot(r)) by {
        vstd::arithmetic::div_mod::lemma_fundamental_div_mod_converse(x, 8, k, slot(r));
    }
}

/// Slots are ordered as the numbers in them.
proof fn lemma_value_mono(x: int, y: int)
    requires
        0 <= x < y,
    ensures
        value(x) < value(y),
    decreases y - x,
{
    lemma_value(x);
    if x + 1 < y {
        lemma_value_mono(x + 1, y);
    }
}

/// The wheel's residue at slot `i`.
fn wheel_at(i: usize) -> (r: u32)
    requires
        i < 8,
    ensures
        r == wheel(i as int),
{
    if i == 0 { 1 } else if i == 1 { 7 } else if i == 2 { 11 } else if i == 3 { 13 }
    else if i == 4 { 17 } else if i == 5 { 19 } else if i == 6 { 23 } else { 29 }
}

/// The slot of a residue modulo 30, or `None` when it shares a factor with 30.
fn slot_of(r: u32) -> (s: Option<usize>)
    requires
        r < 30,
    ensures
        match s {
            Some(i) => i < 8 && wheel(i as int) == r && slot(r as int) == i && coprime30(r as int),
            None => !coprime30(r as int),
        },
{
    proof {
        if coprime30(r as int) {
            lemma_residues(r);
        }
    }
    if r == 1 { Some(0) } else if r == 7 { Some(1) } else if r == 11 { Some(2) } else if r == 13 { Some(3) }
    else if r == 17 { Some(4) } else if r == 19 { Some(5) } else if r == 23 { Some(6) } else if r == 29 { Some(7) }
    else { None }
}

/// The product of two numbers coprime to 30 is coprime to 30.
proof fn lemma_coprime_mul(a: int, b: int)
    requires
        a >= 1,
        b >= 1,
        coprime30(a),
        coprime30(b),
    ensures
        coprime30(a * b),
{
    vstd::arithmetic::div_mod::lemma_mul_mod_noop_general(a, b, 2);
    vstd::arithmetic::div_mod::lemma_mul_mod_noop_general(a, b, 3);
    vstd::arithmetic::div_mod::lemma_mul_mod_noop_general(a, b, 5);
    assert(a % 2 == 1);
    assert(b % 2 == 1);
    assert((a % 3) * (b % 3) % 3 != 0) by {
        assert(a % 3 == 1 || a % 3 == 2);
        assert(b % 3 == 1 || b % 3 == 2);
    }
    assert((a % 5) * (b % 5) % 5 != 0) by {
        assert(1 <= a % 5 <= 4);
        assert(1 <= b % 5 <= 4);
        let p = a % 5;
        let q = b % 5;
        assert(1 <= p <= 4 && 1 <= q <= 4 ==> (p * q) % 5 != 0) by (nonlinear_arith);
    }
}

/// The slot of the product of the numbers in slots `lhs` and `rhs`, as (row, column).
fn mul(lhs: u32, rhs: u32) -> (r: (usize, usize))
    requires
        lhs >= 1,
        rhs >= 1,
        value(lhs as int) * value(rhs as int) <= 7 * u32::MAX,
    ensures
        r.1 < 8,
        8 * r.0 + r.1 == index_of(value(lhs as int) * value(rhs as int)),
        value(8 * r.0 + r.1) == value(lhs as int) * value(rhs as int),
        r.0 == value(lhs as int) * value(rhs as int) / 30,
{
    let (kl, il) = (lhs / 8, (lhs % 8) as usize);
    let (kr, ir) = (rhs / 8, (rhs % 8) as usize);
    let wl = wheel_at(il);
    let wr = wheel_at(ir);
    let ghost a = value(lhs as int);
    let ghost b = value(rhs as int);
    proof {
        lemma_value(lhs as int);
        lemma_value(rhs as int);
        assert(a == 30 * kl + wl && b == 30 * kr + wr);
        assert(a * b == 30 * (kl * b + kr * wl) + wl * wr) by (nonlinear_arith)
            requires a == 30 * kl + wl, b == 30 * kr + wr;
        assert(kl * b + kr * wl <= a * b / 30) by (nonlinear_arith)
            requires a * b == 30 * (kl * b + kr * wl) + wl * wr, wl * wr >= 0, kl >= 0, kr >= 0, wl >= 0;
        assert(kl * b <= kl * b + kr * wl) by (nonlinear_arith)
            requires kr >= 0, wl >= 0;
        assert(7 * b <= a * b) by (nonlinear_arith)
            requires a >= 7, b >= 0;
        assert(b <= u32::MAX);
        assert(30 * kr + wr == b);
        assert(a * b / 30 <= u32::MAX);
        assert(kr * wl <= kl * b + kr * wl) by (nonlinear_arith)
            requires kl >= 0, b >= 0;
        assert(wl * wr <= 29 * 29) by (nonlinear_arith)
            requires wl <= 29, wr <= 29, wl >= 0, wr >= 0;
        assert(kl * b + kr * wl + (wl * wr) / 30 <= a * b / 30) by (nonlinear_arith)
            requires a * b == 30 * (kl * b + kr * wl) + wl * wr, wl * wr >= 0;
        assert(a * b / 30 <= u32::MAX);
        lemma_coprime_mul(a, b);
    }
    let prod = wl * wr;
    let k = kl * (30 * kr + wr) + kr * wl + prod / 30;
    let rem = prod % 30;
    proof {
        assert(a * b == 30 * k + rem) by (nonlinear_arith)
            requires a * b == 30 * (kl * b + kr * wl) + wl * wr, k == kl * b + kr * wl + prod / 30, prod == wl * wr,
                rem == prod % 30, b == 30 * kr + wr;
        vstd::arithmetic::div_mod::lemma_fundamental_div_mod_converse(a * b, 30, k as int, rem as int);
        assert(a * b >= 1) by (nonlinear_arith)
            requires a >= 7, b >= 7;
    }
    let i = match slot_of(rem) {
        Some(i) => i,
        None => {
            proof {
                lemma_index_of(a * b);
            }
            0
        },
    };
    proof {
        lemma_index_of(a * b);
        assert(8 * (k as int) + i == index_of(a * b));
    }
    (k as usize, i)
}

/// The slot of the product of the numbers in slots `l` and `r`.
pub open spec fn pidx(l: int, r: int) -> int {
    index_of(value(l) * value(r))
}

/// Every slot but the first holds a factor of its number, at least 7 and at most the number.
pub open spec fn entries_ok(m: Seq<u32>) -> bool {
    &&& m.len() >= 8
    &&& m[0] == 0
    &&& forall|x: int| 1 <= x < m.len() ==> {
        &&& 7 <= #[trigger] m[x] <= value(x)
        &&& value(x) % (m[x] as int) == 0
    }
}

/// The number in slot `x`, computed.
fn value_of(x: usize) -> (v: u32)
    requires
        x / 8 * 30 + 29 <= u32::MAX,
    ensures
        v == value(x as int),
{
    let k = (x / 8) as u32;
    30 * k + wheel_at(x % 8)
}

/// Products ordered as their factors: the slot of a product grows with either factor.
proof fn lemma_pidx_mono(l: int, r1: int, r2: int)
    requires
        1 <= l,
        0 <= r1 < r2,
    ensures
        pidx(l, r1) < pidx(l, r2),
        value(pidx(l, r1)) == value(l) * value(r1),
        value(pidx(l, r2)) == value(l) * value(r2),
{
    lemma_value(l);
    lemma_value(r1);
    lemma_value(r2);
    lemma_value_mono(r1, r2);
    let a = value(l);
    let b1 = value(r1);
    let b2 = value(r2);
    assert(a * b1 < a * b2) by (nonlinear_arith)
        requires a >= 7, b1 < b2;
    assert(a * b1 >= 1) by (nonlinear_arith)
        requires a >= 7, b1 >= 1;
    lemma_coprime_mul(a, b1);
    lemma_coprime_mul(a, b2);
    lemma_index_of(a * b1);
    lemma_index_of(a * b2);
    lemma_index_mono(a * b1, a * b2);
}

/// Slots are ordered as the numbers in them, read backwards.
proof fn lemma_index_mono(a: int, b: int)
    requires
        1 <= a < b,
        coprime30(a),
        coprime30(b),
    ensures
        index_of(a) < index_of(b),
{
    lemma_index_of(a);
    lemma_index_of(b);
    if index_of(a) >= index_of(b) {
        if index_of(a) > index_of(b) {
            lemma_value_mono(index_of(b), index_of(a));
        }
    }
}

/// Takes the minimum of each slot holding `value(lhs) * value(r)` with `value(lhs)`, for `r` from
/// `rhs` up while the slot lies below row `end`; returns the first `r` past that row.
fn mark(mpf: &mut Vec<u32>, lhs: u32, rhs: u32, end: usize, Ghost(len): Ghost<nat>) -> (r: u32)
    requires
        entries_ok(old(mpf)@),
        old(mpf)@.len() == 8 * len,
        30 * len <= 0x1_0000_0000,
        1 <= lhs <= rhs,
        end <= len,
        value(lhs as int) * value(rhs as int) <= 0x2_0000_0000,
    ensures
        entries_ok(final(mpf)@),
        final(mpf)@.len() == 8 * len,
        forall|x: int| 0 <= x < 8 * len ==> #[trigger] final(mpf)@[x] <= old(mpf)@[x],
        rhs <= r,
        value(lhs as int) * value(r as int) <= 0x2_0000_0000,
        pidx(lhs as int, r as int) >= 8 * end,
        forall|q: int| rhs <= q < r ==> pidx(lhs as int, q) < 8 * end && final(mpf)@[#[trigger] pidx(lhs as int, q)] <= value(
            lhs as int),
{
    let ghost m0 = mpf@;
    proof {
        lemma_value(lhs as int);
        assert(lhs / 8 * 30 + 29 <= u32::MAX) by {
            lemma_value(rhs as int);
            if lhs < rhs {
                lemma_value_mono(lhs as int, rhs as int);
            }
            let a = value(lhs as int);
            let b = value(rhs as int);
            assert(a < 0x2_0000) by (nonlinear_arith)
                requires a <= b, a * b <= 0x2_0000_0000, a >= 0;
        }
    }
    let num = value_of(lhs as usize);
    let mut r = rhs;
    let (mut k, mut i) = self::mul(lhs, r);
    while k < end
        invariant
            entries_ok(mpf@),
            mpf@.len() == 8 * len,
            30 * len <= 0x1_0000_0000,
            1 <= lhs <= rhs <= r,
            end <= len,
            num == value(lhs as int),
            num >= 7,
            value(lhs as int) * value(r as int) <= 0x2_0000_0000,
            8 * k + i == pidx(lhs as int, r as int),
            k == value(lhs as int) * value(r as int) / 30,
            i < 8,
            forall|x: int| 0 <= x < 8 * len ==> #[trigger] mpf@[x] <= m0[x],
            forall|q: int| rhs <= q < r ==> pidx(lhs as int, q) < 8 * end && mpf@[#[trigger] pidx(lhs as int, q)] <= value(
                lhs as int),
        decreases 8 * end - r,
    {
        let x = 8 * k + i;
        let ghost prod = value(lhs as int) * value(r as int);
        proof {
            lemma_pidx_mono(lhs as int, r as int, r as int + 1);
            lemma_value(r as int);
            assert(value(x as int) == prod);
            assert(prod % (num as int) == 0) by {
                vstd::arithmetic::div_mod::lemma_mod_multiples_basic(value(r as int), num as int);
                assert(prod == value(r as int) * (num as int)) by (nonlinear_arith)
                    requires prod == value(lhs as int) * value(r as int), num == value(lhs as int);
            }
            assert(num <= prod) by (nonlinear_arith)
                requires prod == num * value(r as int), value(r as int) >= 1, num >= 0;
            // the next product is less than twice this one, and this one lies below row `end`
            assert(prod < 30 * end);
            assert(num * value(r as int + 1) <= prod + 6 * num) by (nonlinear_arith)
                requires value(r as int + 1) <= value(r as int) + 6, prod == num * value(r as int), num >= 0;
            assert(7 * num <= prod) by (nonlinear_arith)
                requires prod == num * value(r as int), value(r as int) >= 7, num >= 0;
            // slot `r` lies below row `end`, so `r` does too
            assert(r < 8 * end) by {
                lemma_value(r as int);
                assert(value(r as int) <= prod) by (nonlinear_arith)
                    requires prod == num * value(r as int), num >= 1, value(r as int) >= 0;
            }
        }
        let cur = mpf[x];
        if num < cur {
            mpf.set(x, num);
        }
        r += 1;
        let (k2, i2) = self::mul(lhs, r);
        k = k2;
        i = i2;
    }
    r
}

/// The least factor above 1 of `n` at most `hi`, when `hi` is one, searching up from `lo`.
proof fn lemma_least_from(n: int, lo: int, hi: int) -> (d: int)
    requires
        2 <= lo <= hi,
        n % hi == 0,
        forall|e: int| 2 <= e < lo ==> #[trigger] (n % e) != 0,
    ensures
        lo <= d <= hi,
        n % d == 0,
        forall|e: int| 2 <= e < d ==> #[trigger] (n % e) != 0,
    decreases hi - lo,
{
    if n % lo == 0 {
        lo
    } else {
        lemma_least_from(n, lo + 1, hi)
    }
}

/// A factor of a factor is a factor.
proof fn lemma_factor_trans(n: int, d: int, e: int)
    requires
        n >= 0,
        d >= 1,
        e >= 1,
        n % d == 0,
        d % e == 0,
    ensures
        n % e == 0,
{
    vstd::arithmetic::div_mod::lemma_fundamental_div_mod(n, d);
    vstd::arithmetic::div_mod::lemma_fundamental_div_mod(d, e);
    let a = n / d;
    let b = d / e;
    assert(n == e * (b * a)) by (nonlinear_arith)
        requires n == d * a, d == e * b;
    vstd::arithmetic::div_mod::lemma_mod_multiples_basic(b * a, e);
    assert(e * (b * a) == (b * a) * e) by (nonlinear_arith);
}

/// A slot holding a factor of its number that is at least 7 holds the number itself when the
/// number is prime.
proof fn lemma_prime_slot(m: Seq<u32>, x: int)
    requires
        entries_ok(m),
        1 <= x < m.len(),
        prime(value(x)),
    ensures
        m[x] == value(x),
{
    let v = m[x] as int;
    if v < value(x) {
        assert(value(x) % v != 0);
    }
}

/// `(l, r)` has marked every multiple `value(l) * value(q)`, `l <= q < r`, below row `end`,
/// and `value(l) * value(r)` lies beyond it.
pub open spec fn marker_ok(m: Seq<u32>, l: int, r: int, end: int) -> bool {
    &&& 1 <= l <= r
    &&& value(l) * value(r) <= 0x2_0000_0000
    &&& pidx(l, r) >= 8 * end
    &&& forall|q: int| l <= q < r ==> pidx(l, q) < 8 * end && m[#[trigger] pidx(l, q)] <= value(l)
}

proof fn lemma_markers_persist(m0: Seq<u32>, m1: Seq<u32>, small: Seq<(u32, u32)>, lo: int, hi: int, end: int)
    requires
        m0.len() == m1.len(),
        8 * end <= m0.len(),
        forall|x: int| 0 <= x < m0.len() ==> #[trigger] m1[x] <= m0[x],
        forall|j: int| lo <= j < hi ==> marker_ok(m0, (#[trigger] small[j]).0 as int, small[j].1 as int, end),
    ensures
        forall|j: int| lo <= j < hi ==> marker_ok(m1, (#[trigger] small[j]).0 as int, small[j].1 as int, end),
{
    assert forall|j: int| lo <= j < hi implies marker_ok(m1, (#[trigger] small[j]).0 as int, small[j].1 as int, end) by {
        let l = small[j].0 as int;
        let r = small[j].1 as int;
        assert forall|q: int| l <= q < r implies pidx(l, q) < 8 * end && m1[#[trigger] pidx(l, q)] <= value(l) by {
            assert(pidx(l, q) < 8 * end && m0[pidx(l, q)] <= value(l));
            lemma_pidx_mono(l, q, q + 1);
            lemma_index_of_nonneg(l, q);
        }
    }
}

proof fn lemma_index_of_nonneg(l: int, q: int)
    requires
        1 <= l,
        0 <= q,
    ensures
        pidx(l, q) >= 0,
{
    lemma_value(l);
    lemma_value(q);
    let a = value(l);
    let b = value(q);
    assert(a * b >= 1) by (nonlinear_arith)
        requires a >= 7, b >= 1;
    lemma_coprime_mul(a, b);
    lemma_index_of(a * b);
}

/// With every prime up to `max_p` marked through the whole table, each slot holds the least
/// factor of its number.
proof fn lemma_slot_final(m: Seq<u32>, small: Seq<(u32, u32)>, len: int, max_p: int, x: int)
    requires
        entries_ok(m),
        m.len() == 8 * len,
        30 * len <= 0x1_0000_0000,
        max_p * max_p <= 30 * len < (max_p + 1) * (max_p + 1),
        max_p >= 0,
        1 <= x < 8 * len,
        forall|l: int| 1 <= l < 8 * len && prime(value(l)) && value(l) <= max_p ==> exists|j: int| 0 <= j < small.len() && (#[trigger] small[j]).0 == l,
        forall|j: int| 0 <= j < small.len() ==> marker_ok(m, (#[trigger] small[j]).0 as int, small[j].1 as int, len),
    ensures
        is_min_factor(value(x), m[x] as int),
{
    let n = value(x);
    let v = m[x] as int;
    lemma_value(x);
    assert(7 <= v <= n && n % v == 0);
    if exists|e: int| 2 <= e < v && #[trigger] (n % e) == 0 {
        let e = choose|e: int| 2 <= e < v && #[trigger] (n % e) == 0;
        let d0 = lemma_least_from(n, 2, e);
        // `d0` is prime: a factor of it would be a smaller factor of `n`
        assert(prime(d0)) by {
            assert forall|f: int| 2 <= f < d0 implies #[trigger] (d0 % f) != 0 by {
                if d0 % f == 0 {
                    lemma_factor_trans(n, d0, f);
                }
            }
        }
        // `d0` is coprime to 30, as `n` is
        assert(coprime30(d0)) by {
            if d0 % 2 == 0 { lemma_factor_trans(n, d0, 2); }
            if d0 % 3 == 0 { lemma_factor_trans(n, d0, 3); }
            if d0 % 5 == 0 { lemma_factor_trans(n, d0, 5); }
        }
        vstd::arithmetic::div_mod::lemma_fundamental_div_mod(n, d0);
        let c = n / d0;
        assert(n == d0 * c);
        // the cofactor is no smaller than `d0`, else it would be a smaller factor of `n`
        assert(c >= 2) by {
            if c <= 1 {
                assert(d0 * c <= d0) by (nonlinear_arith)
                    requires c <= 1, d0 >= 0, c >= 0 || d0 * c <= d0;
                assert(c >= 0) by (nonlinear_arith)
                    requires n == d0 * c, n >= 1, d0 >= 2;
            }
        }
        assert(c >= d0) by {
            if c < d0 {
                vstd::arithmetic::div_mod::lemma_mod_multiples_basic(d0, c);
                assert(n == d0 * c);
                assert(d0 * c == c * d0) by (nonlinear_arith);
                assert(n % c == 0);
            }
        }
        assert(coprime30(c)) by {
            vstd::arithmetic::div_mod::lemma_mod_multiples_basic(d0, c);
            assert(c * d0 == n) by (nonlinear_arith)
                requires n == d0 * c;
            if c % 2 == 0 { lemma_factor_trans(n, c, 2); }
            if c % 3 == 0 { lemma_factor_trans(n, c, 3); }
            if c % 5 == 0 { lemma_factor_trans(n, c, 5); }
        }
        // `d0 * d0 <= n < 30 * len`, so `d0 <= max_p`
        assert(d0 <= max_p) by {
            assert(d0 * d0 <= d0 * c) by (nonlinear_arith)
                requires d0 <= c, d0 >= 0;
            assert(n < 30 * len) by {
                assert(x / 8 < len);
            }
            if d0 > max_p {
                assert((max_p + 1) * (max_p + 1) <= d0 * d0) by (nonlinear_arith)
                    requires d0 >= max_p + 1, max_p >= 0;
            }
        }
        lemma_index_of(d0);
        lemma_index_of(c);
        let l0 = index_of(d0);
        let rc = index_of(c);
        assert(d0 >= 7) by {
            assert(d0 != 2 && d0 != 3 && d0 != 4 && d0 != 5 && d0 != 6);
        }
        assert(l0 < 8 * len) by {
            lemma_index_mono(d0, n);
            assert(index_of(n) == x);
        }
        let j = choose|j: int| 0 <= j < small.len() && (#[trigger] small[j]).0 == l0;
        assert(marker_ok(m, small[j].0 as int, small[j].1 as int, len));
        let r = small[j].1 as int;
        assert(rc >= l0) by {
            if c > d0 {
                lemma_index_mono(d0, c);
            }
        }
        assert(pidx(l0, rc) == x) by {
            assert(value(l0) * value(rc) == n);
        }
        assert(rc < r) by {
            if rc >= r {
                if rc > r {
                    lemma_pidx_mono(l0, r, rc);
                }
            }
        }
        assert(m[pidx(l0, rc)] <= value(l0));
    }
}

/// The integer square root of `n`.
#[verifier::external_body]
fn isqrt(n: u64) -> (r: u64)
    ensures
        r * r <= n < (r + 1) * (r + 1),
{
    n.isqrt()
}

/// The least prime factor of every number up to a bound, stored for the numbers coprime to 30.
pub struct MinPrimeFactor {
    /// Slot `8 * k + i` holds the least prime factor of `30 * k + wheel(i)` (0 for 1).
    mpf: Vec<u32>,
}

impl MinPrimeFactor {
    /// The number of rows of 30 numbers the table covers.
    pub closed spec fn spec_len(&self) -> nat {
        self.mpf@.len() / 8
    }

    /// The least prime factor the table gives for the number in slot `x`.
    pub closed spec fn slot_value(&self, x: int) -> int {
        self.mpf@[x] as int
    }

    pub closed spec fn wf(&self) -> bool {
        &&& self.mpf@.len() % 8 == 0
        &&& self.mpf@.len() >= 8
        &&& 30 * self.spec_len() <= 0x1_0000_0000
        &&& self.mpf@[0] == 0
        &&& forall|x: int| 1 <= x < self.mpf@.len() ==> is_min_factor(value(x), #[trigger] self.mpf@[x] as int)
    }

    /// Sieves the least prime factors of the numbers below `30 * max(ceil(max / 30), 1)`.
    #[verifier::rlimit(40)]
    pub fn new(max: u32) -> (r: Self)
        requires
            max <= 4_294_967_280,
        ensures
            r.wf(),
            r.spec_len() == if max == 0 { 1 } else { (max as int + 29) / 30 },
    {
        let len: usize = if max == 0 { 1 } else { ((max - 1) / 30 + 1) as usize };
        let ghost glen = len as nat;
        proof {
            assert(30 * len <= 0x1_0000_0000);
        }
        let mut mpf: Vec<u32> = Vec::new();
        let mut x: usize = 0;
        while x < 8 * len
            invariant
                x <= 8 * len,
                30 * len <= 0x1_0000_0000,
                mpf@.len() == x,
                forall|y: int| 0 <= y < x ==> #[trigger] mpf@[y] == value(y),
            decreases 8 * len - x,
        {
            let v = value_of(x);
            mpf.push(v);
            x += 1;
        }
        mpf.set(0, 0);
        proof {
            assert forall|y: int| 1 <= y < mpf@.len() implies {
                &&& 7 <= #[trigger] mpf@[y] <= value(y)
                &&& value(y) % (mpf@[y] as int) == 0
            } by {
                lemma_value(y);
                vstd::arithmetic::div_mod::lemma_mod_self_0(value(y));
            }
        }
        let sq = isqrt(30 * len as u64);
        proof {
            assert(sq <= 0x1_0000) by {
                let q = sq as int;
                assert(q * q <= 0x1_0000_0000);
                if q > 0x1_0000 {
                    assert(q * q > 0x1_0000_0000) by (nonlinear_arith)
                        requires q > 0x1_0000;
                }
            }
        }
        let max_p = sq as u32;
        proof {
            assert(max_p * max_p <= 30 * len < (max_p + 1) * (max_p + 1));
        }
        let chunk: usize = 1024;
        let n0 = if chunk < len { chunk } else { len };
        let mut small: Vec<(u32, u32)> = Vec::new();
        // the first chunk: every number found prime marks its multiples in the chunk
        let mut lhs: usize = 1;
        while lhs < n0 * 8
            invariant
                1 <= lhs <= n0 * 8,
                glen == len,
                n0 <= len,
                n0 <= 1024,
                30 * len <= 0x1_0000_0000,
                entries_ok(mpf@),
                mpf@.len() == 8 * len,
                forall|j: int| 0 <= j < small@.len() ==> marker_ok(mpf@, (#[trigger] small@[j]).0 as int, small@[j].1 as int, n0 as int),
                forall|j: int| 0 <= j < small@.len() ==> (#[trigger] small@[j]).0 < lhs,
                forall|l: int| 1 <= l < lhs && prime(value(l)) ==> exists|j: int| 0 <= j < small@.len() && (#[trigger] small@[j]).0 == l,
            decreases n0 * 8 - lhs,
        {
            let num = value_of(lhs);
            if mpf[lhs] == num {
                proof {
                    lemma_value(lhs as int);
                    let v = num as int;
                    assert(v < 30 * 1024);
                    assert(v * v <= 0x2_0000_0000) by (nonlinear_arith)
                        requires v < 30 * 1024, v >= 0;
                }
                let ghost m0 = mpf@;
                let r = mark(&mut mpf, lhs as u32, lhs as u32, n0, Ghost(glen));
                proof {
                    lemma_markers_persist(m0, mpf@, small@, 0, small@.len() as int, n0 as int);
                }
                let ghost before = small@;
                small.push((lhs as u32, r));
                proof {
                    assert(small@[small@.len() - 1] == (lhs as u32, r));
                    assert forall|l: int| 1 <= l < lhs + 1 && prime(value(l)) implies exists|j: int| 0 <= j < small@.len() && (#[trigger] small@[j]).0 == l by {
                        if l < lhs {
                            let j = choose|j: int| 0 <= j < before.len() && (#[trigger] before[j]).0 == l;
                            assert(small@[j] == before[j]);
                        } else {
                            assert(small@[small@.len() - 1].0 == l);
                        }
                    }
                    assert forall|j: int| 0 <= j < small@.len() implies marker_ok(mpf@, (#[trigger] small@[j]).0 as int, small@[j].1 as int, n0 as int) by {
                        if j < before.len() {
                            assert(small@[j] == before[j]);
                        }
                    }
                    assert forall|j: int| 0 <= j < small@.len() implies (#[trigger] small@[j]).0 < lhs + 1 by {
                        if j < before.len() {
                            assert(small@[j] == before[j]);
                        }
                    }
                }
            } else {
                proof {
                    if prime(value(lhs as int)) {
                        lemma_prime_slot(mpf@, lhs as int);
                    }
                }
            }
            lhs += 1;
        }
        // the later chunks: the primes found so far mark their multiples in the chunk, then the
        // chunk's own primes up to `max_p` do
        let mut offset: usize = chunk;
        while offset < len
            invariant
                30 * len <= 0x1_0000_0000,
                n0 == if chunk < len { chunk } else { len },
                chunk == 1024,
                offset >= chunk,
                offset % 1024 == 0,
                glen == len,
                max_p * max_p <= 30 * len < (max_p + 1) * (max_p + 1),
                max_p <= 0x1_0000,
                entries_ok(mpf@),
                mpf@.len() == 8 * len,
                forall|j: int| 0 <= j < small@.len() ==> marker_ok(mpf@, (#[trigger] small@[j]).0 as int, small@[j].1 as int, vstd::math::min(offset as int, len as int)),
                forall|l: int| 1 <= l < 8 * vstd::math::min(offset as int, len as int) && prime(value(l)) && (l < 8 * n0 || value(l) <= max_p)
                    ==> exists|j: int| 0 <= j < small@.len() && (#[trigger] small@[j]).0 == l,
            decreases len + 1024 - offset,
        {
            let end = if offset + chunk < len { offset + chunk } else { len };
            let mut j: usize = 0;
            while j < small.len()
                invariant
                    30 * len <= 0x1_0000_0000,
                    offset < end <= len,
                    glen == len,
                    entries_ok(mpf@),
                    mpf@.len() == 8 * len,
                    j <= small@.len(),
                    forall|q: int| 0 <= q < j ==> marker_ok(mpf@, (#[trigger] small@[q]).0 as int, small@[q].1 as int, end as int),
                    forall|q: int| j <= q < small@.len() ==> marker_ok(mpf@, (#[trigger] small@[q]).0 as int, small@[q].1 as int, offset as int),
                    forall|l: int| 1 <= l < 8 * offset && prime(value(l)) && (l < 8 * n0 || value(l) <= max_p)
                        ==> exists|q: int| 0 <= q < small@.len() && (#[trigger] small@[q]).0 == l,
                decreases small@.len() - j,
            {
                let (l, r) = small[j];
                let ghost m0 = mpf@;
                let ghost before = small@;
                proof {
                    assert(marker_ok(mpf@, before[j as int].0 as int, before[j as int].1 as int, offset as int));
                }
                let r2 = mark(&mut mpf, l, r, end, Ghost(glen));
                proof {
                    lemma_markers_persist(m0, mpf@, small@, 0, j as int, end as int);
                    lemma_markers_persist(m0, mpf@, small@, j as int + 1, small@.len() as int, offset as int);
                    lemma_markers_persist(m0, mpf@, small@, j as int, j as int + 1, offset as int);
                }
                small.set(j, (l, r2));
                proof {
                    assert forall|q: int| 0 <= q < j + 1 implies marker_ok(mpf@, (#[trigger] small@[q]).0 as int, small@[q].1 as int, end as int) by {
                        if q < j {
                            assert(small@[q] == before[q]);
                        } else {
                            let lq = l as int;
                            assert(marker_ok(mpf@, lq, r as int, offset as int));
                            assert forall|p: int| lq <= p < r2 implies pidx(lq, p) < 8 * end && mpf@[#[trigger] pidx(lq, p)] <= value(lq) by {
                                if p < r {
                                    assert(pidx(lq, p) < 8 * offset && mpf@[pidx(lq, p)] <= value(lq));
                                }
                            }
                        }
                    }
                    assert forall|q: int| j + 1 <= q < small@.len() implies marker_ok(mpf@, (#[trigger] small@[q]).0 as int, small@[q].1 as int, offset as int) by {
                        assert(small@[q] == before[q]);
                    }
                    assert forall|lv: int| 1 <= lv < 8 * offset && prime(value(lv)) && (lv < 8 * n0 || value(lv) <= max_p)
                        implies exists|q: int| 0 <= q < small@.len() && (#[trigger] small@[q]).0 == lv by {
                        let q = choose|q: int| 0 <= q < before.len() && (#[trigger] before[q]).0 == lv;
                        assert(small@[q].0 == before[q].0);
                    }
                }
                j += 1;
            }
            let mut lhs: usize = offset * 8;
            while lhs < end * 8
                invariant
                    30 * len <= 0x1_0000_0000,
                    offset < end <= len,
                    offset * 8 <= lhs <= end * 8,
                    glen == len,
                    n0 <= offset,
                    max_p * max_p <= 30 * len,
                    max_p <= 0x1_0000,
                    entries_ok(mpf@),
                    mpf@.len() == 8 * len,
                    forall|q: int| 0 <= q < small@.len() ==> marker_ok(mpf@, (#[trigger] small@[q]).0 as int, small@[q].1 as int, end as int),
                    forall|l: int| 1 <= l < lhs && prime(value(l)) && (l < 8 * n0 || value(l) <= max_p)
                        ==> exists|q: int| 0 <= q < small@.len() && (#[trigger] small@[q]).0 == l,
                decreases end * 8 - lhs,
            {
                let num = value_of(lhs);
                if mpf[lhs] == num && num <= max_p {
                    proof {
                        lemma_value(lhs as int);
                        let v = num as int;
                        let mp = max_p as int;
                        assert(v * v <= mp * mp) by (nonlinear_arith)
                            requires v <= mp, v >= 0;
                    }
                    let ghost m0 = mpf@;
                    let r = mark(&mut mpf, lhs as u32, lhs as u32, end, Ghost(glen));
                    proof {
                        lemma_markers_persist(m0, mpf@, small@, 0, small@.len() as int, end as int);
                    }
                    let ghost before = small@;
                    small.push((lhs as u32, r));
                    proof {
                        assert forall|l: int| 1 <= l < lhs + 1 && prime(value(l)) && (l < 8 * n0 || value(l) <= max_p)
                            implies exists|q: int| 0 <= q < small@.len() && (#[trigger] small@[q]).0 == l by {
                            if l < lhs {
                                let q = choose|q: int| 0 <= q < before.len() && (#[trigger] before[q]).0 == l;
                                assert(small@[q] == before[q]);
                            } else {
                                assert(small@[small@.len() - 1].0 == l);
                            }
                        }
                        assert forall|q: int| 0 <= q < small@.len() implies marker_ok(mpf@, (#[trigger] small@[q]).0 as int, small@[q].1 as int, end as int) by {
                            if q < before.len() {
                                assert(small@[q] == before[q]);
                            }
                        }
                    }
                } else {
                    proof {
                        if prime(value(lhs as int)) {
                            lemma_prime_slot(mpf@, lhs as int);
                        }
                    }
                }
                lhs += 1;
            }
            offset += chunk;
        }
        proof {
            assert forall|x: int| 1 <= x < mpf@.len() implies is_min_factor(value(x), #[trigger] mpf@[x] as int) by {
                lemma_slot_final(mpf@, small@, len as int, max_p as int, x);
            }
        }
        MinPrimeFactor { mpf }
    }
}

/// `b` to the power `e`.
pub open spec fn power(b: int, e: nat) -> int
    decreases e,
{
    if e == 0 { 1 } else { b * power(b, (e - 1) as nat) }
}

/// The product of `p^e` over the pairs `(p, e)` of `s`.
pub open spec fn product(s: Seq<(u32, u8)>) -> int
    decreases s.len(),
{
    if s.len() == 0 { 1 } else { product(s.drop_last()) * power(s.last().0 as int, s.last().1 as nat) }
}

/// `s` lists primes in increasing order, each with a positive exponent.
pub open spec fn prime_powers(s: Seq<(u32, u8)>) -> bool {
    &&& forall|t: int| 0 <= t < s.len() ==> prime((#[trigger] s[t]).0 as int) && s[t].1 >= 1
    &&& forall|a: int, b: int| 0 <= a < b < s.len() ==> (#[trigger] s[a]).0 < (#[trigger] s[b]).0
}

proof fn lemma_power_lower(b: int, e: nat)
    requires
        b >= 2,
    ensures
        power(b, e) >= e + 1,
        power(b, e) >= 1,
    decreases e,
{
    if e > 0 {
        lemma_power_lower(b, (e - 1) as nat);
        assert(b * power(b, (e - 1) as nat) >= 2 * power(b, (e - 1) as nat)) by (nonlinear_arith)
            requires b >= 2, power(b, (e - 1) as nat) >= 1;
    }
}

proof fn lemma_power_pow2(b: int, e: nat)
    requires
        b >= 2,
    ensures
        power(b, e) >= pow2(e),
    decreases e,
{
    if e == 0 {
        vstd::arithmetic::power2::lemma2_to64();
    } else {
        lemma_power_pow2(b, (e - 1) as nat);
        lemma_pow2_unfold(e);
        assert(b * power(b, (e - 1) as nat) >= 2 * pow2((e - 1) as nat)) by (nonlinear_arith)
            requires b >= 2, power(b, (e - 1) as nat) >= pow2((e - 1) as nat), pow2((e - 1) as nat) >= 0;
    }
}

proof fn lemma_product_pos(s: Seq<(u32, u8)>)
    requires
        forall|t: int| 0 <= t < s.len() ==> (#[trigger] s[t]).0 >= 2,
    ensures
        product(s) >= 1,
    decreases s.len(),
{
    if s.len() > 0 {
        assert forall|t: int| 0 <= t < s.drop_last().len() implies (#[trigger] s.drop_last()[t]).0 >= 2 by {
            assert(s.drop_last()[t] == s[t]);
        }
        lemma_product_pos(s.drop_last());
        lemma_power_lower(s.last().0 as int, s.last().1 as nat);
        let a = product(s.drop_last());
        let b = power(s.last().0 as int, s.last().1 as nat);
        assert(a * b >= 1) by (nonlinear_arith)
            requires a >= 1, b >= 1;
    }
}

/// A number's residues modulo 2, 3 and 5 are those of its residue modulo 30.
proof fn lemma_mod30(n: int)
    requires
        n >= 0,
    ensures
        (n % 30) % 2 == n % 2,
        (n % 30) % 3 == n % 3,
        (n % 30) % 5 == n % 5,
        coprime30(n) <==> coprime30(n % 30),
{
    let k = n / 30;
    let r = n % 30;
    assert(n == 30 * k + r);
    vstd::arithmetic::div_mod::lemma_fundamental_div_mod_converse(n, 2, 15 * k + r / 2, r % 2);
    vstd::arithmetic::div_mod::lemma_fundamental_div_mod_converse(n, 3, 10 * k + r / 3, r % 3);
    vstd::arithmetic::div_mod::lemma_fundamental_div_mod_converse(n, 5, 6 * k + r / 5, r % 5);
}

impl MinPrimeFactor {
    /// The slot of `n` when `n` is coprime to 30, as (row, column).
    fn inner_index(n: u32) -> (r: Option<(usize, usize)>)
        ensures
            match r {
                Some((k, i)) => coprime30(n as int) && i < 8 && k == n / 30 && 8 * k + i == index_of(n as int),
                None => !coprime30(n as int),
            },
    {
        proof {
            lemma_mod30(n as int);
        }
        match slot_of(n % 30) {
            Some(i) => Some(((n / 30) as usize, i)),
            None => None,
        }
    }

    /// Whether `n` is prime.
    pub fn is_prime(&self, n: u32) -> (r: bool)
        requires
            self.wf(),
            coprime30(n as int) ==> n / 30 < self.spec_len(),
        ensures
            r == prime(n as int),
    {
        match Self::inner_index(n) {
            Some((k, i)) => {
                proof {
                    lemma_index_of(n as int);
                    assert(n == 1 ==> index_of(n as int) == 0);
                }
                let p = self.mpf[8 * k + i];
                proof {
                    if n >= 2 {
                        assert(n >= 7) by {
                            assert(n != 2 && n != 3 && n != 4 && n != 5 && n != 6);
                        }
                        assert(is_min_factor(n as int, p as int));
                        if p != n {
                            assert(p < n) by {
                                vstd::arithmetic::div_mod::lemma_mod_is_zero(n as nat, p as nat);
                            }
                            assert((n as int) % (p as int) == 0);
                        }
                    }
                }
                p == n
            },
            None => {
                proof {
                    if n == 2 || n == 3 || n == 5 {
                        assert(forall|d: int| 2 <= d < n ==> #[trigger] ((n as int) % d) != 0) by {
                            assert forall|d: int| 2 <= d < n implies #[trigger] ((n as int) % d) != 0 by {
                                assert(d == 2 || d == 3 || d == 4);
                            }
                        }
                    } else if n >= 2 {
                        if n % 2 == 0 {
                            assert((n as int) % 2 == 0);
                        } else if n % 3 == 0 {
                            assert((n as int) % 3 == 0);
                        } else {
                            assert((n as int) % 5 == 0);
                        }
                    }
                }
                n == 2 || n == 3 || n == 5
            },
        }
    }

    /// The prime factorization of `n`: its primes in increasing order, each with its exponent.
    pub fn factorize(&self, n: u32) -> (r: Vec<(u32, u8)>)
        requires
            self.wf(),
            n >= 1,
            forall|d: int| 1 <= d && (n as int) % d == 0 && coprime30(d) ==> #[trigger] (d / 30) < self.spec_len(),
        ensures
            prime_powers(r@),
            product(r@) == n,
    {
        let ghost n0 = n as int;
        let mut m = n;
        let mut out: Vec<(u32, u8)> = Vec::new();
        while m > 1
            invariant
                self.wf(),
                n0 == n,
                n0 >= 1,
                forall|d: int| 1 <= d && n0 % d == 0 && coprime30(d) ==> #[trigger] (d / 30) < self.spec_len(),
                m >= 1,
                product(out@) * m == n0,
                prime_powers(out@),
                out@.len() > 0 ==> forall|d: int| 2 <= d < out@.last().0 ==> #[trigger] ((m as int) % d) != 0,
            decreases m,
        {
            let p: u32 = if m % 2 == 0 {
                2
            } else if m % 3 == 0 {
                3
            } else if m % 5 == 0 {
                5
            } else {
                proof {
                    lemma_index_of(m as int);
                    assert(m >= 7) by {
                        assert(m != 2 && m != 3 && m != 4 && m != 5 && m != 6);
                    }
                    // `m` divides `n`, so it lies in the table
                    assert(n0 % (m as int) == 0) by {
                        vstd::arithmetic::div_mod::lemma_mod_multiples_basic(product(out@), m as int);
                    }
                    assert((m as int / 30) < self.spec_len());
                }
                let k = (m / 30) as usize;
                let i = match slot_of(m % 30) {
                    Some(i) => i,
                    None => {
                        proof {
                            lemma_mod30(m as int);
                        }
                        0
                    },
                };
                proof {
                    lemma_mod30(m as int);
                    assert(8 * k + i == index_of(m as int));
                }
                self.mpf[8 * k + i]
            };
            proof {
                assert(is_min_factor(m as int, p as int)) by {
                    if m % 2 != 0 && m % 3 != 0 && m % 5 != 0 {
                        assert(is_min_factor(value(index_of(m as int)), self.mpf@[index_of(m as int)] as int));
                    } else if m % 2 != 0 && m % 3 == 0 {
                        assert forall|d: int| 2 <= d < 3 implies #[trigger] ((m as int) % d) != 0 by {
                            assert(d == 2);
                        }
                    } else if m % 2 != 0 && m % 5 == 0 {
                        assert forall|d: int| 2 <= d < 5 implies #[trigger] ((m as int) % d) != 0 by {
                            if d == 4 {
                                if (m as int) % 4 == 0 {
                                    lemma_factor_trans(m as int, 4, 2);
                                }
                            }
                        }
                    }
                }
                // `p` is prime: a factor of it would be a smaller factor of `m`
                assert(prime(p as int)) by {
                    assert forall|f: int| 2 <= f < p implies #[trigger] ((p as int) % f) != 0 by {
                        if (p as int) % f == 0 {
                            lemma_factor_trans(m as int, p as int, f);
                        }
                    }
                }
                vstd::arithmetic::div_mod::lemma_fundamental_div_mod(m as int, p as int);
            }
            let q = m / p;
            let ghost before = out@;
            let len = out.len();
            if len > 0 && out[len - 1].0 == p {
                let e = out[len - 1].1;
                proof {
                    // `p^e` divides `n`, so `e` is small
                    lemma_power_lower(p as int, e as nat);
                    if e >= 32 {
                        lemma_power_pow2(p as int, e as nat);
                        vstd::arithmetic::power2::lemma2_to64();
                        if e > 32 {
                            lemma_pow2_strictly_increases(32, e as nat);
                        }
                    }
                    assert forall|t: int| 0 <= t < before.drop_last().len() implies (#[trigger] before.drop_last()[t]).0 >= 2 by {
                        assert(before.drop_last()[t] == before[t]);
                    }
                    lemma_product_pos(before.drop_last());
                    let a = product(before.drop_last());
                    let b = power(p as int, e as nat);
                    assert(a * b * m >= b) by (nonlinear_arith)
                        requires a >= 1, b >= 1, m >= 1;
                }
                out.set(len - 1, (p, e + 1));
                proof {
                    assert(out@.drop_last() == before.drop_last());
                    assert(power(p as int, (e + 1) as nat) == p * power(p as int, e as nat));
                    assert(product(out@) == product(before) * p) by {
                        let a = product(before.drop_last());
                        let b = power(p as int, e as nat);
                        assert(a * (p * b) == (a * b) * p) by (nonlinear_arith);
                    }
                    assert forall|t: int| 0 <= t < out@.len() implies prime((#[trigger] out@[t]).0 as int) && out@[t].1 >= 1 by {
                        if t < len - 1 {
                            assert(out@[t] == before[t]);
                        }
                    }
                    assert forall|a: int, b: int| 0 <= a < b < out@.len() implies (#[trigger] out@[a]).0 < (#[trigger] out@[b]).0 by {
                        assert(out@[a].0 == before[a].0 && out@[b].0 == before[b].0);
                    }
                }
            } else {
                out.push((p, 1));
                proof {
                    assert(out@.drop_last() == before);
                    assert(power(p as int, 1) == p) by {
                        assert(power(p as int, 0) == 1);
                    }
                    if len > 0 {
                        // `p` is a factor of `m`, and `m` has none below the last prime
                        assert(before.last().0 < p) by {
                            if p < before.last().0 {
                                assert((m as int) % (p as int) != 0);
                            }
                        }
                    }
                    assert forall|a: int, b: int| 0 <= a < b < out@.len() implies (#[trigger] out@[a]).0 < (#[trigger] out@[b]).0 by {
                        if b == len as int {
                            assert(out@[a] == before[a]);
                            if a < len - 1 {
                                assert(before[a].0 < before[len - 1].0);
                            }
                        } else {
                            assert(out@[a] == before[a] && out@[b] == before[b]);
                        }
                    }
                    assert forall|t: int| 0 <= t < out@.len() implies prime((#[trigger] out@[t]).0 as int) && out@[t].1 >= 1 by {
                        if t < len {
                            assert(out@[t] == before[t]);
                        }
                    }
                }
            }
            proof {
                assert(m == p * q);
                assert(q >= 1) by (nonlinear_arith)
                    requires m == p * q, m >= 2, p >= 2;
                assert(product(out@) * q == n0) by {
                    let a = product(before);
                    assert(a * p * q == a * m) by (nonlinear_arith)
                        requires m == p * q;
                }
                // a factor of `q` is a factor of `m`, so none lies below `p`
                assert forall|d: int| 2 <= d < out@.last().0 implies #[trigger] ((q as int) % d) != 0 by {
                    if (q as int) % d == 0 {
                        vstd::arithmetic::div_mod::lemma_mod_multiples_basic(p as int, q as int);
                        assert((m as int) % (q as int) == 0) by {
                            assert((p as int) * (q as int) == (q as int) * (p as int)) by (nonlinear_arith);
                        }
                        if q >= 1 {
                            lemma_factor_trans(m as int, q as int, d);
                        }
                    }
                }
                assert(q < m) by {
                    assert(m == p * q && p >= 2 && m >= 2);
                    assert(q < m) by (nonlinear_arith)
                        requires m == p * q, p >= 2, m >= 2;
                }
            }
            m = q;
        }
        proof {
            assert(m == 1);
        }
        out
    }
}

} // verus!
