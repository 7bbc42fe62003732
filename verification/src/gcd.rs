//! Greatest common divisors, through `num_integer`.

use vstd::prelude::*;
use num_integer::Integer;

verus! {

/// The greatest common divisor of `a` and `b` (with `gcd(a, 0) == a`).
pub open spec fn spec_gcd(a: nat, b: nat) -> nat
    decreases b,
{
    if b == 0 {
        a
    } else {
        spec_gcd(b, a % b)
    }
}

/// The absolute value of `x`.
pub open spec fn abs(x: int) -> nat {
    if x < 0 { (-x) as nat } else { x as nat }
}

/// `num_integer::Integer::extended_gcd` on `i64`: the greatest common divisor of `a` and `b`,
/// which is never negative, together with Bézout coefficients `x` and `y`, so that
/// `a * x + b * y` is the divisor. Nothing is claimed about which coefficients are chosen.
#[verifier::external_body]
pub(crate) fn extended_gcd(a: i64, b: i64) -> (r: (i64, i64, i64))
    requires
        a > i64::MIN,
        b > i64::MIN,
    ensures
        r.0 == spec_gcd(abs(a as int), abs(b as int)),
        a * r.1 + b * r.2 == r.0,
{
    let e = a.extended_gcd(&b);
    (e.gcd, e.x, e.y)
}

} // verus!
