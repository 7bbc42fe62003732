//! Integer logarithms and powers of two.

use vstd::prelude::*;
use vstd::arithmetic::power2::*;

verus! {

/// The floor of the base-2 logarithm of `n`, together with the power of two it gives.
pub fn ilog2(n: usize) -> (r: (usize, usize))
    requires
        n >= 1,
    ensures
        r.1 == pow2(r.0 as nat),
        pow2(r.0 as nat) <= n < pow2((r.0 + 1) as nat),
        r.0 < 64,
{
    let mut w: usize = 0;
    let mut p: usize = 1;
    proof {
        lemma_pow2_unfold(1);
        reveal(vstd::arithmetic::power::pow);
        assert(pow2(0) == 1) by {
            lemma_pow2(0);
            reveal(vstd::arithmetic::power::pow);
        }
    }
    while p <= n / 2
        invariant
            p == pow2(w as nat),
            1 <= p <= n,
            w < 64,
            p >= pow2(w as nat),
            n <= usize::MAX,
            w <= 63 ==> pow2(w as nat) <= n,
        decreases n - p,
    {
        proof {
            lemma_pow2_unfold((w + 1) as nat);
            lemma2_to64();
            if w + 1 >= 64 {
                lemma_pow2_strictly_increases(63, 64);
                if w + 1 > 64 {
                    lemma_pow2_strictly_increases(64, (w + 1) as nat);
                }
                assert(usize::MAX < pow2(64)) by {
                    lemma2_to64_rest();
                }
            }
        }
        p = p * 2;
        w = w + 1;
    }
    proof {
        lemma_pow2_unfold((w + 1) as nat);
    }
    (w, p)
}

} // verus!
