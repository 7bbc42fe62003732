//! Integers modulo a constant `MOD`.

use vstd::prelude::*;
use vstd::arithmetic::power::*;
use vstd::arithmetic::div_mod::*;
use crate::gcd::{spec_gcd, extended_gcd, abs};

verus! {

/// An integer modulo `MOD`, kept in `0..MOD`.
#[derive(Clone, Copy, PartialEq, Eq, Debug, Hash)]
pub struct Mint<const MOD: u32>(u32);

impl<const MOD: u32> View for Mint<MOD> {
    type V = nat;

    closed spec fn view(&self) -> nat {
        self.0 as nat
    }
}

/// `pow(v, e)` splits into the low bit of `e` and the square raised to `e / 2`.
proof fn lemma_pow_halving(v: int, e: nat)
    ensures
        pow(v, e) == (if e % 2 == 1 { v } else { 1 }) * pow(v * v, e / 2),
{
    let h = e / 2;
    lemma_pow_adds(v, 2 * h, e % 2);
    assert(e == 2 * h + e % 2);
    lemma_pow_multiplies(v, 2, h);
    reveal_with_fuel(pow, 3);
    lemma_pow1(v);
    lemma_pow0(v);
}

/// The representative of `x` modulo `m` in `0..m`, computed from the sign of `x`.
spec fn normalize(x: int, m: int) -> int {
    if x >= 0 {
        x % m
    } else {
        let t = (-x) % m;
        if t == 0 { 0 } else { m - t }
    }
}

proof fn lemma_normalize(x: int, m: int)
    requires
        m > 0,
    ensures
        0 <= normalize(x, m) < m,
        normalize(x, m) % m == x % m,
{
    if x >= 0 {
        lemma_mod_twice(x, m);
        lemma_mod_bound(x, m);
    } else {
        let t = (-x) % m;
        let q = (-x) / m;
        lemma_fundamental_div_mod(-x, m);
        lemma_mod_bound(-x, m);
        if t != 0 {
            assert(x == m * (-q - 1) + (m - t)) by (nonlinear_arith)
                requires
                    -x == m * q + t,
            ;
            lemma_mod_multiples_vanish(-q - 1, m - t, m);
            lemma_small_mod((m - t) as nat, m as nat);
            assert(normalize(x, m) == m - t);
            assert(x % m == (m - t) % m);
        } else {
            assert(x == m * (-q)) by (nonlinear_arith)
                requires
                    -x == m * q + t,
                    t == 0,
            ;
            lemma_mod_multiples_basic(-q, m);
            assert(m * (-q) == (-q) * m) by (nonlinear_arith);
            lemma_small_mod(0, m as nat);
            assert(normalize(x, m) == 0);
        }
    }
}

impl<const MOD: u32> Mint<MOD> {
    #[verifier::type_invariant]
    spec fn inv_range(self) -> bool {
        self.0 < MOD
    }

    /// The value in `0..MOD`.
    pub fn value(self) -> (r: u32)
        ensures
            r == self@,
            r < MOD,
    {
        proof {
            use_type_invariant(self);
        }
        self.0
    }

    /// `x` reduced modulo `MOD`.
    pub fn new(x: u32) -> (r: Self)
        requires
            MOD > 0,
        ensures
            r@ == (x as nat) % (MOD as nat),
    {
        Mint(x % MOD)
    }

    /// `self` raised to `exp`.
    pub fn pow(self, exp: u32) -> (r: Self)
        ensures
            r@ == pow(self@ as int, exp as nat) % (MOD as int),
    {
        proof {
            use_type_invariant(self);
        }
        let m = MOD as u64;
        let mut e = exp;
        let mut val = self.0 as u64;
        let mut res: u64 = 1 % m;
        proof {
            lemma_pow0(self@ as int);
            lemma_small_mod(self@, MOD as nat);
            lemma_mul_mod_noop_general(1, pow(self@ as int, exp as nat), m as int);
        }
        while e > 0
            invariant
                m == MOD as u64,
                0 < m <= u32::MAX,
                val < m,
                res < m,
                (res * pow(val as int, e as nat)) % (m as int) == pow(self@ as int, exp as nat) % (m as int),
            decreases e,
        {
            proof {
                lemma_pow_halving(val as int, e as nat);
                lemma_pow_mod_noop((val * val) as int, (e / 2) as nat, m as int);
            }
            let ghost old_res = res;
            let ghost old_val = val;
            let ghost old_e = e;
            if e & 1 == 1 {
                assert(e % 2 == 1) by (bit_vector)
                    requires
                        e & 1 == 1,
                ;
                assert(res * val <= u64::MAX) by (nonlinear_arith)
                    requires
                        res < m,
                        val < m,
                        m <= u32::MAX,
                ;
                res = res * val % m;
            } else {
                assert(e % 2 == 0) by (bit_vector)
                    requires
                        e & 1 != 1,
                ;
            }
            assert(val * val <= u64::MAX) by (nonlinear_arith)
                requires
                    val < m,
                    m <= u32::MAX,
            ;
            val = val * val % m;
            e = e >> 1;
            assert(e == old_e / 2) by (bit_vector)
                requires
                    e == old_e >> 1,
            ;
            proof {
                let p = pow((old_val * old_val) as int, e as nat);
                let q = pow(val as int, e as nat);
                let mi = m as int;
                // q ≡ p (mod m)
                assert(q % mi == p % mi);
                if old_e % 2 == 1 {
                    // res * q ≡ old_res * old_val * p
                    lemma_mul_mod_noop_general(res as int, q, mi);
                    lemma_mul_mod_noop_general(res as int, p, mi);
                    lemma_mul_mod_noop_general((old_res * old_val) as int, p, mi);
                    assert((old_res * old_val) as int * p == old_res as int * (old_val as int * p))
                        by (nonlinear_arith);
                } else {
                    lemma_mul_mod_noop_general(res as int, q, mi);
                    lemma_mul_mod_noop_general(res as int, p, mi);
                    assert(old_val as int * 0 + 1 * p == p);
                }
            }
        }
        proof {
            lemma_pow0(val as int);
            lemma_small_mod(res as nat, m as nat);
            assert(res * pow(val as int, e as nat) == res);
        }
        Mint(res as u32)
    }

    /// The multiplicative inverse, if `self` and `MOD` are coprime.
    pub fn inv(self) -> (r: Option<Self>)
        ensures
            r is Some <==> spec_gcd(self@, MOD as nat) == 1,
            r matches Some(v) ==> (v@ * self@) % (MOD as nat) == 1nat % (MOD as nat),
    {
        proof {
            use_type_invariant(self);
        }
        let (g, x, _y) = extended_gcd(self.0 as i64, MOD as i64);
        if g == 1 {
            let m = MOD as i128;
            let ghost y = _y;
            let x = x as i128;
            let v: i128 = if x >= 0 {
                x % m
            } else {
                let t = (-x) % m;
                if t == 0 { 0 } else { m - t }
            };
            proof {
                let a = self.0 as int;
                let mi = m as int;
                let xi = x as int;
                lemma_normalize(xi, mi);
                assert(v as int == normalize(xi, mi));
                lemma_mul_mod_noop_general(v as int, a, mi);
                lemma_mul_mod_noop_general(xi, a, mi);
                assert(xi * a == 1 + mi * (-y)) by (nonlinear_arith)
                    requires
                        a * xi + mi * y == 1,
                ;
                lemma_mod_multiples_vanish(-y, 1, mi);
                assert(v * a == a * v) by (nonlinear_arith);
            }
            Some(Mint(v as u32))
        } else {
            None
        }
    }

    /// Multiplies `self` by `other` in place.
    pub fn const_mul_assign(&mut self, other: Self)
        ensures
            final(self)@ == (old(self)@ * other@) % (MOD as nat),
    {
        proof {
            use_type_invariant(&*self);
            use_type_invariant(other);
        }
        assert((self.0 as u64) * (other.0 as u64) <= u64::MAX) by (nonlinear_arith)
            requires
                self.0 <= u32::MAX,
                other.0 <= u32::MAX,
        ;
        self.0 = ((self.0 as u64) * (other.0 as u64) % (MOD as u64)) as u32;
    }
}


/// The value `v`, which must lie in `0..MOD`, as a `Mint`.
pub closed spec fn mint_of<const MOD: u32>(v: nat) -> Mint<MOD> {
    Mint(v as u32)
}

/// `mint_of` keeps values in range.
pub broadcast proof fn lemma_mint_of<const MOD: u32>(v: nat)
    requires
        v < MOD,
    ensures
        (#[trigger] mint_of::<MOD>(v))@ == v,
{
}

impl<const MOD: u32> core::ops::Add for Mint<MOD> {
    type Output = Self;

    fn add(self, rhs: Self) -> (r: Self) {
        proof {
            use_type_invariant(self);
            use_type_invariant(rhs);
        }
        let s = self.0 as u64 + rhs.0 as u64;
        let x = if s >= MOD as u64 { s - MOD as u64 } else { s };
        proof {
            lemma_small_mod(x as nat, MOD as nat);
            if s >= MOD as u64 {
                lemma_mod_sub_multiples_vanish(s as int, MOD as int);
            }
        }
        Mint(x as u32)
    }
}

impl<const MOD: u32> vstd::std_specs::ops::AddSpecImpl for Mint<MOD> {
    open spec fn obeys_add_spec() -> bool {
        true
    }

    open spec fn add_req(self, rhs: Self) -> bool {
        true
    }

    open spec fn add_spec(self, rhs: Self) -> Self {
        mint_of::<MOD>((self@ + rhs@) % (MOD as nat))
    }
}

impl<const MOD: u32> core::ops::Sub for Mint<MOD> {
    type Output = Self;

    fn sub(self, rhs: Self) -> (r: Self) {
        proof {
            use_type_invariant(self);
            use_type_invariant(rhs);
        }
        let x = if self.0 >= rhs.0 { self.0 - rhs.0 } else { (self.0 as u64 + MOD as u64 - rhs.0 as u64) as u32 };
        proof {
            lemma_small_mod(x as nat, MOD as nat);
            if self.0 < rhs.0 {
                lemma_mod_multiples_vanish(-1, x as int, MOD as int);
            }
        }
        Mint(x)
    }
}

impl<const MOD: u32> vstd::std_specs::ops::SubSpecImpl for Mint<MOD> {
    open spec fn obeys_sub_spec() -> bool {
        true
    }

    open spec fn sub_req(self, rhs: Self) -> bool {
        true
    }

    open spec fn sub_spec(self, rhs: Self) -> Self {
        mint_of::<MOD>(((self@ - rhs@) % (MOD as int)) as nat)
    }
}

impl<const MOD: u32> core::ops::Mul for Mint<MOD> {
    type Output = Self;

    fn mul(self, rhs: Self) -> (r: Self) {
        proof {
            use_type_invariant(self);
            use_type_invariant(rhs);
        }
        assert((self.0 as u64) * (rhs.0 as u64) <= u64::MAX) by (nonlinear_arith)
            requires
                self.0 <= u32::MAX,
                rhs.0 <= u32::MAX,
        ;
        Mint(((self.0 as u64) * (rhs.0 as u64) % (MOD as u64)) as u32)
    }
}

impl<const MOD: u32> vstd::std_specs::ops::MulSpecImpl for Mint<MOD> {
    open spec fn obeys_mul_spec() -> bool {
        true
    }

    open spec fn mul_req(self, rhs: Self) -> bool {
        true
    }

    open spec fn mul_spec(self, rhs: Self) -> Self {
        mint_of::<MOD>((self@ * rhs@) % (MOD as nat))
    }
}

impl<const MOD: u32> core::ops::Neg for Mint<MOD> {
    type Output = Self;

    fn neg(self) -> (r: Self) {
        proof {
            use_type_invariant(self);
        }
        let x = if self.0 == 0 { 0 } else { MOD - self.0 };
        proof {
            lemma_small_mod(x as nat, MOD as nat);
            if self.0 != 0 {
                lemma_mod_multiples_vanish(-1, x as int, MOD as int);
            } else {
                lemma_small_mod(0, MOD as nat);
            }
        }
        Mint(x)
    }
}

impl<const MOD: u32> vstd::std_specs::ops::NegSpecImpl for Mint<MOD> {
    open spec fn obeys_neg_spec() -> bool {
        true
    }

    open spec fn neg_req(self) -> bool {
        true
    }

    open spec fn neg_spec(self) -> Self {
        mint_of::<MOD>(((-self@) % (MOD as int)) as nat)
    }
}

impl<const MOD: u32> Mint<MOD> {
    /// Zero.
    pub fn zero() -> (r: Self)
        requires
            MOD > 0,
        ensures
            r@ == 0,
    {
        Mint(0)
    }

    /// One, reduced modulo `MOD` (zero when `MOD` is one).
    pub fn one() -> (r: Self)
        requires
            MOD > 0,
        ensures
            r@ == 1nat % (MOD as nat),
    {
        Mint(1 % MOD)
    }

    /// Whether `self` is zero.
    pub fn is_zero(&self) -> (r: bool)
        ensures
            r == (self@ == 0),
    {
        self.0 == 0
    }
}

} // verus!
