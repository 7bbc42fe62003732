//! Factorials and binomial coefficients modulo a constant.

use vstd::prelude::*;
use vstd::arithmetic::div_mod::{lemma_mul_mod_noop_general, lemma_mod_twice, lemma_small_mod};
use crate::gcd::spec_gcd;
use crate::mint::{Mint, lemma_mint_of};

verus! {

broadcast use lemma_mint_of;

/// `n!`.
pub open spec fn factorial(n: nat) -> nat
    decreases n,
{
    if n == 0 {
        1
    } else {
        n * factorial((n - 1) as nat)
    }
}

/// The binomial coefficient `n` choose `k`, by Pascal's rule; zero when `k > n`.
pub open spec fn binomial(n: nat, k: nat) -> nat
    decreases n, k,
{
    if k == 0 {
        1
    } else if n == 0 {
        0
    } else {
        binomial((n - 1) as nat, (k - 1) as nat) + binomial((n - 1) as nat, k)
    }
}

/// `k! (n - k)!` divides `n!`, with `n` choose `k` as the quotient.
pub proof fn lemma_binomial_factorial(n: nat, k: nat)
    requires
        k <= n,
    ensures
        binomial(n, k) * factorial(k) * factorial((n - k) as nat) == factorial(n),
    decreases n,
{
    if k == 0 {
        assert(factorial((n - 0) as nat) == factorial(n));
        assert(binomial(n, 0) == 1);
        assert(factorial(0) == 1);
    } else if k == n {
        lemma_binomial_diagonal(n);
        assert(factorial((n - k) as nat) == 1);
        assert(1 * factorial(k) * 1 == factorial(k));
    } else {
        let m = (n - 1) as nat;
        lemma_binomial_factorial(m, (k - 1) as nat);
        lemma_binomial_factorial(m, k);
        let a = binomial(m, (k - 1) as nat);
        let b = binomial(m, k);
        let fk1 = factorial((k - 1) as nat);
        let fmk = factorial((m - k) as nat);
        assert(factorial(k) == k * fk1);
        assert((m - (k - 1)) as nat == (n - k) as nat);
        assert(factorial((n - k) as nat) == (n - k) * fmk);
        assert(factorial(n) == n * factorial(m));
        assert(binomial(n, k) == a + b);
        assert(a * fk1 * ((n - k) * fmk) == factorial(m));
        assert(b * (k * fk1) * fmk == factorial(m));
        assert((a + b) * (k * fk1) * ((n - k) * fmk) == n * factorial(m)) by (nonlinear_arith)
            requires
                a * fk1 * ((n - k) * fmk) == factorial(m),
                b * (k * fk1) * fmk == factorial(m),
                n >= k + 1,
        {
            assert((a + b) * (k * fk1) * ((n - k) * fmk) == k * (a * fk1 * ((n - k) * fmk)) + (n - k) * (
            b * (k * fk1) * fmk));
        }
        assert(binomial(n, k) * factorial(k) * factorial((n - k) as nat) == (a + b) * (k * fk1) * ((n - k) * fmk));
    }
}

proof fn lemma_binomial_diagonal(n: nat)
    ensures
        binomial(n, n) == 1,
    decreases n,
{
    if n > 0 {
        lemma_binomial_diagonal((n - 1) as nat);
        lemma_binomial_above((n - 1) as nat, n);
    }
}

proof fn lemma_binomial_above(n: nat, k: nat)
    requires
        k > n,
    ensures
        binomial(n, k) == 0,
    decreases n,
{
    if n > 0 {
        lemma_binomial_above((n - 1) as nat, (k - 1) as nat);
        lemma_binomial_above((n - 1) as nat, k);
    }
}

/// Multiplying by two numbers that are one modulo `p` changes nothing modulo `p`.
proof fn lemma_cancel_units(x: int, u: int, v: int, p: int)
    requires
        p > 0,
        u % p == 1int % p,
        v % p == 1int % p,
    ensures
        (x * u * v) % p == x % p,
{
    lemma_mul_mod_noop_general(x * u, v, p);
    lemma_mul_mod_noop_general(x * u, 1, p);
    lemma_mul_mod_noop_general(x, u, p);
    lemma_mul_mod_noop_general(x, 1, p);
}

/// Factorials `0!, 1!, …, n!` modulo `MOD` and their inverses.
pub struct Factorial<const MOD: u32> {
    fact: Vec<Mint<MOD>>,
    inv_fact: Vec<Mint<MOD>>,
}

impl<const MOD: u32> Factorial<MOD> {
    /// The largest `n` whose factorial is tabled.
    pub closed spec fn max_n(&self) -> nat {
        (self.fact@.len() - 1) as nat
    }

    /// The tabled factorial of `i`.
    pub closed spec fn fact(&self, i: int) -> nat {
        self.fact@[i]@
    }

    /// The tabled inverse of the factorial of `i`.
    pub closed spec fn inv_fact(&self, i: int) -> nat {
        self.inv_fact@[i]@
    }

    /// Each entry holds `i!` modulo `MOD` and an inverse of it.
    pub open spec fn wf(&self) -> bool {
        &&& MOD > 0
        &&& self.lens_ok()
        &&& forall|i: int| 0 <= i <= self.max_n() ==> #[trigger] self.fact(i) == factorial(i as nat) % (MOD as nat)
        &&& forall|i: int| #![trigger self.inv_fact(i)] 0 <= i <= self.max_n() ==> (self.inv_fact(i) * self.fact(i)) % (MOD as nat) == 1nat % (MOD as nat)
    }

    /// Both tables have an entry for each of `0..=max_n`.
    pub closed spec fn lens_ok(&self) -> bool {
        &&& self.fact@.len() >= 1
        &&& self.inv_fact@.len() == self.fact@.len()
    }

    /// The tables up to `n`; the factorial of `n` must be invertible modulo `MOD`.
    pub fn with_inverse(n: usize) -> (r: Self)
        requires
            MOD > 0,
            n <= u32::MAX,
            n < usize::MAX,
            spec_gcd(factorial(n as nat) % (MOD as nat), MOD as nat) == 1,
        ensures
            r.wf(),
            r.max_n() == n,
    {
        let mut fact: Vec<Mint<MOD>> = Vec::with_capacity(n + 1);
        fact.push(Mint::new(1));
        let mut i: usize = 1;
        while i <= n
            invariant
                MOD > 0,
                n <= u32::MAX,
                n < usize::MAX,
                1 <= i <= n + 1,
                fact@.len() == i,
                forall|j: int| 0 <= j < i ==> #[trigger] fact@[j]@ == factorial(j as nat) % (MOD as nat),
            decreases n + 1 - i,
        {
            let x = fact[i - 1] * Mint::new(i as u32);
            proof {
                let p = MOD as int;
                let f = factorial((i - 1) as nat) as int;
                lemma_mul_mod_noop_general(f, i as int, p);
                assert(factorial(i as nat) == i * factorial((i - 1) as nat));
                assert(f * (i as int) == (i as int) * f) by (nonlinear_arith);
                let a = fact@[i - 1]@;
                let b = (i as nat) % (MOD as nat);
                assert(x@ == (a * b) % (MOD as nat));
            }
            fact.push(x);
            i += 1;
        }
        let last = fact[n];
        proof {
            assert(last@ == factorial(n as nat) % (MOD as nat));
        }
        let top = last.inv().unwrap();
        let mut inv_rev: Vec<Mint<MOD>> = Vec::new();
        inv_rev.push(top);
        let mut cur = top;
        let mut i: usize = n;
        while i > 0
            invariant
                MOD > 0,
                i <= n,
                n < usize::MAX,
                n <= u32::MAX,
                fact@.len() == n + 1,
                inv_rev@.len() == n + 1 - i,
                cur == inv_rev@[inv_rev@.len() - 1],
                forall|j: int| 0 <= j <= n ==> #[trigger] fact@[j]@ == factorial(j as nat) % (MOD as nat),
                forall|t: int| 0 <= t < inv_rev@.len() ==> (#[trigger] inv_rev@[t]@ * fact@[n - t]@) % (MOD as nat) == 1nat % (MOD as nat),
            decreases i,
        {
            let next = cur * Mint::new(i as u32);
            proof {
                let p = MOD as int;
                let c = cur@ as int;
                let fi = factorial(i as nat) as int;
                let fp = factorial((i - 1) as nat) as int;
                assert(factorial(i as nat) == i * factorial((i - 1) as nat));
                assert(cur@ == inv_rev@[n - i]@);
                assert(n - (n - i) == i);
                // next * (i-1)! == cur * i * (i-1)! == cur * i!  (mod MOD)
                lemma_mul_mod_noop_general(c, i as int, p);
                lemma_mul_mod_noop_general(c * (i as int), fp, p);
                lemma_mul_mod_noop_general(c, fi, p);
                assert(c * (i as int) * fp == c * fi) by (nonlinear_arith)
                    requires
                        fi == (i as int) * fp,
                ;
                assert(next@ == ((c * ((i as nat) % (MOD as nat)) as int) % p) as nat);
                assert((next@ * fact@[i - 1]@) % (MOD as nat) == 1nat % (MOD as nat));
            }
            inv_rev.push(next);
            cur = next;
            i -= 1;
        }
        let mut inv_fact: Vec<Mint<MOD>> = Vec::with_capacity(n + 1);
        let mut j: usize = 0;
        while j <= n
            invariant
                n < usize::MAX,
                j <= n + 1,
                inv_rev@.len() == n + 1,
                inv_fact@.len() == j,
                forall|t: int| 0 <= t < j ==> #[trigger] inv_fact@[t] == inv_rev@[n - t],
            decreases n + 1 - j,
        {
            inv_fact.push(inv_rev[n - j]);
            j += 1;
        }
        let r = Factorial { fact, inv_fact };
        proof {
            assert forall|t: int| #![trigger r.inv_fact(t)] 0 <= t <= r.max_n() implies (r.inv_fact(t) * r.fact(t)) % (MOD as nat) == 1nat % (MOD as nat) by {
                assert(inv_fact@[t] == inv_rev@[n - t]);
                assert(n - (n - t) == t);
            }
        }
        r
    }

    /// `n` choose `k` modulo `MOD`. It is zero exactly when `k > n`, where no `k`-subset
    /// of `n` items exists; when `n > k` it is the coefficient itself (10 for `n = 5`,
    /// `k = 2`), not zero.
    pub fn binom(&self, n: usize, k: usize) -> (r: Mint<MOD>)
        requires
            self.wf(),
            n <= self.max_n(),
            k <= n ==> k <= self.max_n(),
        ensures
            r@ == binomial(n as nat, k as nat) % (MOD as nat),
    {
        if n >= k {
            let a = self.fact[n];
            let b = self.inv_fact[k];
            let c = self.inv_fact[n - k];
            let r = a * b * c;
            proof {
                let p = MOD as int;
                let bi = binomial(n as nat, k as nat) as int;
                let fk = factorial(k as nat) as int;
                let fnk = factorial((n - k) as nat) as int;
                lemma_binomial_factorial(n as nat, k as nat);
                assert(self.fact(k as int) == fk % p);
                assert(self.fact((n - k) as int) == fnk % p);
                assert(self.fact(n as int) == (bi * fk * fnk) % p);
                let ib = b@ as int;
                let ic = c@ as int;
                assert(ib == self.inv_fact(k as int));
                assert(ic == self.inv_fact((n - k) as int));
                assert((self.inv_fact(k as int) * self.fact(k as int)) % (MOD as nat) == 1nat % (MOD as nat));
                assert((self.inv_fact((n - k) as int) * self.fact((n - k) as int)) % (MOD as nat) == 1nat % (MOD as nat));
                assert((ib * (fk % p)) % p == 1int % p);
                assert((ic * (fnk % p)) % p == 1int % p);
                let f = bi * fk * fnk;
                lemma_mul_mod_noop_general(f, ib, p);
                lemma_mul_mod_noop_general(f * ib, ic, p);
                assert(f * ib * ic == bi * (fk * ib) * (fnk * ic)) by (nonlinear_arith)
                    requires
                        f == bi * fk * fnk,
                ;
                assert(fk * ib == ib * fk) by (nonlinear_arith);
                assert(fnk * ic == ic * fnk) by (nonlinear_arith);
                lemma_mul_mod_noop_general(ib, fk, p);
                lemma_mul_mod_noop_general(ic, fnk, p);
                lemma_cancel_units(bi, fk * ib, fnk * ic, p);
                assert(r@ == bi % p);
            }
            r
        } else {
            proof {
                lemma_binomial_above(n as nat, k as nat);
                lemma_small_mod(0, MOD as nat);
            }
            Mint::new(0)
        }
    }
}

} // verus!
