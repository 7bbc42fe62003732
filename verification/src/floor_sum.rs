//! Sums of floors of an arithmetic progression divided by a constant.

use vstd::prelude::*;
use vstd::arithmetic::div_mod::{
    lemma_fundamental_div_mod, lemma_fundamental_div_mod_converse, lemma_mod_bound, lemma_div_is_ordered,
};

verus! {

/// `⌊x / m⌋`, for `m` of either sign.
pub open spec fn floor_div(x: int, m: int) -> int {
    if m > 0 {
        x / m
    } else {
        (-x) / (-m)
    }
}

/// `Σ_{0 <= i < n} ⌊(a i + b) / m⌋`.
pub open spec fn floor_sum_spec(n: nat, m: int, a: int, b: int) -> int
    decreases n,
{
    if n == 0 {
        0
    } else {
        floor_sum_spec((n - 1) as nat, m, a, b) + floor_div(a * (n - 1) + b, m)
    }
}

/// `(a i + b) / m`.
spec fn term(m: int, a: int, b: int, i: int) -> int {
    (a * i + b) / m
}

/// `Σ_{0 <= i < n} (a i + b) / m`, with `/` rounding down for `m > 0`.
spec fn fs(n: nat, m: int, a: int, b: int) -> int
    decreases n,
{
    if n == 0 {
        0
    } else {
        fs((n - 1) as nat, m, a, b) + (a * (n - 1) + b) / m
    }
}

/// `0 + 1 + … + (n - 1)`.
spec fn tri(n: nat) -> int
    decreases n,
{
    if n == 0 {
        0
    } else {
        tri((n - 1) as nat) + (n - 1)
    }
}

proof fn lemma_tri(n: nat)
    ensures
        2 * tri(n) == n * (n - 1),
    decreases n,
{
    if n > 0 {
        lemma_tri((n - 1) as nat);
        assert(2 * tri(n) == (n - 1) * (n - 2) + 2 * (n - 1)) by (nonlinear_arith)
            requires
                2 * tri((n - 1) as nat) == (n - 1) * (n - 2),
                tri(n) == tri((n - 1) as nat) + (n - 1),
        ;
        assert((n - 1) * (n - 2) + 2 * (n - 1) == n * (n - 1)) by (nonlinear_arith);
    }
}

/// Adding a multiple of `m` adds its quotient.
proof fn lemma_div_shift(m: int, q: int, r: int)
    requires
        m > 0,
    ensures
        (m * q + r) / m == q + r / m,
{
    lemma_fundamental_div_mod(r, m);
    lemma_mod_bound(r, m);
    assert(m * q + r == (q + r / m) * m + r % m) by (nonlinear_arith)
        requires
            r == m * (r / m) + r % m,
    ;
    lemma_fundamental_div_mod_converse(m * q + r, m, q + r / m, r % m);
}

/// The floor sum with the quotients of `a` and `b` by `m` taken out.
proof fn lemma_reduce(n: nat, m: int, a: int, b: int)
    requires
        m > 0,
    ensures
        fs(n, m, a, b) == tri(n) * (a / m) + n * (b / m) + fs(n, m, a % m, b % m),
    decreases n,
{
    if n > 0 {
        let k = (n - 1) as nat;
        lemma_reduce(k, m, a, b);
        lemma_fundamental_div_mod(a, m);
        lemma_fundamental_div_mod(b, m);
        let da = a / m;
        let db = b / m;
        let ra = a % m;
        let rb = b % m;
        assert(a * k + b == m * (da * k + db) + (ra * k + rb)) by (nonlinear_arith)
            requires
                a == m * da + ra,
                b == m * db + rb,
        ;
        lemma_div_shift(m, da * k + db, ra * k + rb);
        assert(tri(n) * da + n * db == tri(k) * da + k * db + (da * k + db)) by (nonlinear_arith)
            requires
                tri(n) == tri(k) + k,
                n == k + 1,
        ;
    }
}

/// With `0 <= b < m`, every term of `Σ (0 i + b) / m` is zero.
proof fn lemma_zero(n: nat, m: int, b: int)
    requires
        0 <= b < m,
    ensures
        fs(n, m, 0, b) == 0,
    decreases n,
{
    if n > 0 {
        lemma_zero((n - 1) as nat, m, b);
        assert(0 * (n - 1) == 0);
        lemma_fundamental_div_mod_converse(b, m, 0, b);
    }
}

/// A sum of `d + k` terms is the first `d` terms plus the `k` after them.
proof fn lemma_split(d: nat, k: nat, m: int, a: int, c: int)
    requires
        m > 0,
    ensures
        fs(d + k, m, a, c) == fs(d, m, a, c) + fs(k, m, a, c + a * d),
    decreases k,
{
    if k > 0 {
        lemma_split(d, (k - 1) as nat, m, a, c);
        assert(a * (d + k - 1) + c == a * (k - 1) + (c + a * d)) by (nonlinear_arith);
        assert(fs(d + k, m, a, c) == fs((d + k - 1) as nat, m, a, c) + (a * (d + k - 1) + c) / m);
    }
}

/// A sum of `d` equal terms.
proof fn lemma_const(d: nat, m: int, a: int, c: int, v: int)
    requires
        forall|j: int| 0 <= j < d ==> #[trigger] term(m, a, c, j) == v,
    ensures
        fs(d, m, a, c) == d * v,
    decreases d,
{
    if d > 0 {
        lemma_const((d - 1) as nat, m, a, c, v);
        assert(term(m, a, c, d - 1) == v);
        assert(fs(d, m, a, c) == fs((d - 1) as nat, m, a, c) + term(m, a, c, d - 1));
        assert(fs((d - 1) as nat, m, a, c) == ((d - 1) as nat) * v);
        assert(((d - 1) as nat) * v == (d - 1) * v);
        assert(d * v == (d - 1) * v + v) by (nonlinear_arith);
    } else {
        assert(d * v == 0) by (nonlinear_arith)
            requires
                d == 0,
        ;
    }
}

/// Counting the lattice points under the line the other way round: with `0 < a < m`,
/// `0 <= b < m` and `k = ⌊(a (n - 1) + b) / m⌋`, the sum of `n` terms over `m` equals `n k`
/// plus a sum of `k` terms over `a`.
proof fn lemma_swap(n: nat, m: int, a: int, b: int)
    requires
        0 < a < m,
        0 <= b < m,
        n >= 1,
    ensures
        ({
            let k = (a * (n - 1) + b) / m;
            &&& 0 <= k <= n - 1
            &&& fs(n, m, a, b) == n * k + fs(k as nat, a, m, b - m * k)
        }),
    decreases n,
{
    let k = (a * (n - 1) + b) / m;
    lemma_fundamental_div_mod(a * (n - 1) + b, m);
    lemma_mod_bound(a * (n - 1) + b, m);
    assert(a * (n - 1) >= 0) by (nonlinear_arith)
        requires
            a > 0,
            n >= 1,
    ;
    assert(0 <= k) by {
        lemma_div_is_ordered(0, a * (n - 1) + b, m);
        assert(0int / m == 0);
    }
    assert(a * (n - 1) <= m * (n - 1)) by (nonlinear_arith)
        requires
            a < m,
            n >= 1,
    ;
    assert(m * (n - 1) + m == m * n) by (nonlinear_arith);
    assert(m * k < m * n);
    assert(k < n) by (nonlinear_arith)
        requires
            m * k < m * n,
            m > 0,
    ;
    if n == 1 {
        assert(a * 0 == 0);
        lemma_fundamental_div_mod_converse(b, m, 0, b);
        assert(fs(1, m, a, b) == fs(0, m, a, b) + (a * 0 + b) / m);
    } else {
        let p = (n - 1) as nat;
        lemma_swap(p, m, a, b);
        let k0 = (a * (p - 1) + b) / m;
        // the terms of the longer sum over `a` that the shorter lacks are all `-p`
        assert(a * (p - 1) + b <= a * p + b) by (nonlinear_arith)
            requires
                a > 0,
        ;
        lemma_div_is_ordered(a * (p - 1) + b, a * p + b, m);
        assert(a * (n - 1) + b == a * p + b);
        let d = (k - k0) as nat;
        lemma_fundamental_div_mod(a * (p - 1) + b, m);
        lemma_mod_bound(a * (p - 1) + b, m);
        assert(m * (k0 + 1) == m * k0 + m) by (nonlinear_arith);
        assert(m * k0 == k0 * m) by (nonlinear_arith);
        assert(m * (k0 + 1) > a * (p - 1) + b);
        assert(a * p == a * (p - 1) + a) by (nonlinear_arith);
        assert(m * k <= a * p + b);
        assert forall|j: int| 0 <= j < d implies #[trigger] term(a, m, b - m * k, j) == -p by {
            let t = k - j;
            assert(m * j + (b - m * k) == b - m * t) by (nonlinear_arith)
                requires
                    t == k - j,
            ;
            assert(m * t <= m * k) by (nonlinear_arith)
                requires
                    t <= k,
                    m > 0,
            ;
            assert(m * t >= m * (k0 + 1)) by (nonlinear_arith)
                requires
                    t >= k0 + 1,
                    m > 0,
            ;
            assert(b - m * t == a * (-p) + (b - m * t + a * p)) by (nonlinear_arith);
            assert(0 <= b - m * t + a * p < a) by (nonlinear_arith)
                requires
                    m * t <= m * k,
                    m * k <= a * p + b,
                    m * t >= m * (k0 + 1),
                    m * (k0 + 1) > a * (p - 1) + b,
                    a * p == a * (p - 1) + a,
            ;
            lemma_fundamental_div_mod_converse(b - m * t, a, -p, b - m * t + a * p);
        }
        lemma_const(d, a, m, b - m * k, -p);
        lemma_split(d, k0 as nat, a, m, b - m * k);
        assert(b - m * k + m * d == b - m * k0) by (nonlinear_arith)
            requires
                d == k - k0,
        ;
        assert(d + k0 == k);
        assert(fs(n, m, a, b) == fs(p, m, a, b) + (a * p + b) / m);
        assert(n * k == p * k0 + k + p * d) by (nonlinear_arith)
            requires
                n == p + 1,
                d == k - k0,
        ;
        assert(d * (-p) == -(p * d)) by (nonlinear_arith);
        assert(fs(d, a, m, b - m * k) == -(p * d));
        assert(fs((d + k0) as nat, a, m, b - m * k) == fs(d, a, m, b - m * k) + fs(k0 as nat, a, m, b - m * k0));
        assert(fs(p, m, a, b) == p * k0 + fs(k0 as nat, a, m, b - m * k0));
    }
}

/// The documented sum, for a negative `m`, is the sum over `-m` of the negated progression.
proof fn lemma_sign(n: nat, m: int, a: int, b: int)
    ensures
        m > 0 ==> floor_sum_spec(n, m, a, b) == fs(n, m, a, b),
        m < 0 ==> floor_sum_spec(n, m, a, b) == fs(n, -m, -a, -b),
    decreases n,
{
    if n > 0 {
        lemma_sign((n - 1) as nat, m, a, b);
        assert(-(a * (n - 1) + b) == (-a) * (n - 1) + (-b)) by (nonlinear_arith);
    }
}

/// `Σ_{0 <= i < n} ⌊(a i + b) / m⌋`; `m` must not be zero, and `n` is at most `2^32` (so
/// that `n (n - 1)` stays within `i64`).
pub fn floor_sum(n: i64, m: i64, a: i64, b: i64) -> (r: i64)
    requires
        0 <= n <= 0x1_0000_0000,
        m != 0,
        i64::MIN <= floor_sum_spec(n as nat, m as int, a as int, b as int) <= i64::MAX,
    ensures
        r == floor_sum_spec(n as nat, m as int, a as int, b as int),
{
    let ghost total = floor_sum_spec(n as nat, m as int, a as int, b as int);
    proof {
        lemma_sign(n as nat, m as int, a as int, b as int);
    }
    if n == 0 {
        return 0;
    }
    let (mut cn, mut cm, mut ca, mut cb): (i128, i128, i128, i128) = if m > 0 {
        (n as i128, m as i128, a as i128, b as i128)
    } else {
        (n as i128, -(m as i128), -(a as i128), -(b as i128))
    };
    let mut res: i128 = 0;
    loop
        invariant
            1 <= cn <= 0x1_0000_0000,
            1 <= cm <= 0x8000_0000_0000_0000,
            -0x8000_0000_0000_0000 <= ca <= 0x8000_0000_0000_0000,
            -(cm * 0x1_0000_0000) - 0x8000_0000_0000_0000 <= cb <= 0x8000_0000_0000_0000,
            -0x8_0000_0000_0000_0000_0000_0000 <= res <= 0x8_0000_0000_0000_0000_0000_0000,
            i64::MIN <= total <= i64::MAX,
            total == floor_sum_spec(n as nat, m as int, a as int, b as int),
            res + fs(cn as nat, cm as int, ca as int, cb as int) == total,
        decreases cm,
    {
        let ghost nn = cn as nat;
        let ghost da = (ca as int) / (cm as int);
        let ghost ra = (ca as int) % (cm as int);
        let ghost db = (cb as int) / (cm as int);
        let ghost rb = (cb as int) % (cm as int);
        proof {
            lemma_fundamental_div_mod(ca as int, cm as int);
            lemma_fundamental_div_mod(cb as int, cm as int);
            lemma_mod_bound(ca as int, cm as int);
            lemma_mod_bound(cb as int, cm as int);
            lemma_reduce(nn, cm as int, ca as int, cb as int);
            lemma_tri(nn);
            assert(cn * (cn - 1) >= 0) by (nonlinear_arith)
                requires
                    cn >= 1,
            ;
            assert(cn * (cn - 1) <= 0x1_0000_0000_0000_0000) by (nonlinear_arith)
                requires
                    1 <= cn <= 0x1_0000_0000,
            ;
            assert(-0x8000_0000_0000_0000 <= da <= 0x8000_0000_0000_0000) by (nonlinear_arith)
                requires
                    ca == cm * da + ra,
                    0 <= ra < cm,
                    cm >= 1,
                    -0x8000_0000_0000_0000 <= ca <= 0x8000_0000_0000_0000,
            {
                if da > 0x8000_0000_0000_0000 {
                    assert(cm * da >= da);
                }
                if da < -0x8000_0000_0000_0000 {
                    assert(cm * da <= da);
                }
            }
            assert(-0x8000_0000_0000_0000 - 0x1_0000_0001 <= db <= 0x8000_0000_0000_0000) by (nonlinear_arith)
                requires
                    cb == cm * db + rb,
                    0 <= rb < cm,
                    cm >= 1,
                    -(cm * 0x1_0000_0000) - 0x8000_0000_0000_0000 <= cb <= 0x8000_0000_0000_0000,
            {
                if db > 0x8000_0000_0000_0000 {
                    assert(cm * db >= db);
                }
                if db < -0x8000_0000_0000_0000 - 0x1_0000_0001 {
                    let e = db + 0x1_0000_0001;
                    assert(e < -0x8000_0000_0000_0000);
                    assert(cm * e <= e);
                    assert(cm * db == cm * e - cm * 0x1_0000_0001);
                }
            }
            lemma_reduced_bound(nn, cm as int, ra, rb);
        }
        let da = ca.checked_div_euclid(cm).unwrap();
        let ra = ca.checked_rem_euclid(cm).unwrap();
        let db = cb.checked_div_euclid(cm).unwrap();
        let rb = cb.checked_rem_euclid(cm).unwrap();
        let t = cn * (cn - 1) / 2;
        proof {
            assert(t == tri(nn)) by {
                vstd::arithmetic::div_mod::lemma_div_by_multiple(tri(nn), 2);
                assert(cn * (cn - 1) == tri(nn) * 2);
            }
            assert(-0x4000_0000_0000_0000_0000_0000_0000_0000 <= t * da <= 0x4000_0000_0000_0000_0000_0000_0000_0000) by (nonlinear_arith)
                requires
                    0 <= t <= 0x8000_0000_0000_0000,
                    -0x8000_0000_0000_0000 <= da <= 0x8000_0000_0000_0000,
            ;
            assert(-0x1_0000_0000_0000_0000_0000_0000 <= cn * db <= 0x1_0000_0000_0000_0000_0000_0000) by (nonlinear_arith)
                requires
                    1 <= cn <= 0x1_0000_0000,
                    -0x8000_0000_0000_0000 - 0x1_0000_0001 <= db <= 0x8000_0000_0000_0000,
            ;
        }
        res = res + t * da + cn * db;
        if ra == 0 {
            proof {
                lemma_zero(nn, cm as int, rb as int);
                assert(res == total);
                assert(res as i64 == total);
            }
            return res as i64;
        }
        proof {
            assert(0 <= ra * (cn - 1) <= cm * cn) by (nonlinear_arith)
                requires
                    0 <= ra < cm,
                    1 <= cn,
            ;
            assert(cm * cn <= 0x8000_0000_0000_0000_0000_0000) by (nonlinear_arith)
                requires
                    1 <= cm <= 0x8000_0000_0000_0000,
                    1 <= cn <= 0x1_0000_0000,
            ;
        }
        let k = (ra * (cn - 1) + rb) / cm;
        proof {
            lemma_swap(nn, cm as int, ra as int, rb as int);
            assert(cn * k <= cn * (cn - 1)) by (nonlinear_arith)
                requires
                    0 <= k <= cn - 1,
                    cn >= 1,
            ;
            assert(0 <= cm * k <= cm * (cn - 1)) by (nonlinear_arith)
                requires
                    0 <= k <= cn - 1,
                    cm >= 1,
            ;
            assert(cm * (cn - 1) < 0x8000_0000_0000_0000_0000_0000) by (nonlinear_arith)
                requires
                    1 <= cm <= 0x8000_0000_0000_0000,
                    1 <= cn <= 0x1_0000_0000,
            ;
            assert(cm * k <= ra * (cn - 1) + rb) by {
                let x = ra * (cn - 1) + rb;
                lemma_fundamental_div_mod(x as int, cm as int);
                lemma_mod_bound(x as int, cm as int);
            }
            assert(ra * (cn - 1) <= ra * 0x1_0000_0000) by (nonlinear_arith)
                requires
                    0 <= ra,
                    1 <= cn <= 0x1_0000_0000,
            ;
        }
        res = res + cn * k;
        let nb = rb - cm * k;
        if k == 0 {
            proof {
                assert(fs(0, ra as int, cm as int, nb as int) == 0);
                assert(res == total);
                assert(res as i64 == total);
            }
            return res as i64;
        }
        proof {
            assert(cn * cn <= 0x1_0000_0000_0000_0000) by (nonlinear_arith)
                requires
                    1 <= cn <= 0x1_0000_0000,
            ;
        }
        cn = k;
        ca = cm;
        cm = ra;
        cb = nb;
    }
}

/// The sum left after taking the quotients out is between `0` and `n (n + 1)`.
proof fn lemma_reduced_bound(n: nat, m: int, a: int, b: int)
    requires
        m >= 1,
        0 <= a < m,
        0 <= b < m,
    ensures
        0 <= fs(n, m, a, b) <= n * n,
    decreases n,
{
    if n > 0 {
        let k = (n - 1) as nat;
        lemma_reduced_bound(k, m, a, b);
        let x = a * k + b;
        assert(0 <= a * k <= m * k) by (nonlinear_arith)
            requires
                0 <= a < m,
        ;
        lemma_fundamental_div_mod(x, m);
        lemma_mod_bound(x, m);
        assert(0 <= x / m <= k) by (nonlinear_arith)
            requires
                x == m * (x / m) + x % m,
                0 <= x % m < m,
                0 <= x < m * k + m,
                m >= 1,
        {
            if x / m > k {
                assert(m * (x / m) >= m * (k + 1));
            }
            if x / m < 0 {
                assert(m * (x / m) <= -m);
            }
        }
        assert(k * k + k <= n * n) by (nonlinear_arith)
            requires
                n == k + 1,
        ;
    }
}

} // verus!
