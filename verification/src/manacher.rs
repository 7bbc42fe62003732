//! The longest palindromes around every centre of a sequence, by Manacher's algorithm.

use vstd::prelude::*;
use vstd::laws_eq::obeys_concrete_eq;
use crate::kmp::eq_at;

verus! {

/// `s[j - u]` and `s[j + u]` exist and agree.
pub open spec fn odd_match<T>(s: Seq<T>, j: int, u: int) -> bool {
    &&& 0 <= j - u
    &&& j + u < s.len()
    &&& s[j - u] == s[j + u]
}

/// `s[j - u]` and `s[j + 1 + u]` exist and agree.
pub open spec fn even_match<T>(s: Seq<T>, j: int, u: int) -> bool {
    &&& 0 <= j - u
    &&& j + 1 + u < s.len()
    &&& s[j - u] == s[j + 1 + u]
}

/// `len` is the length of the longest palindrome of odd length centred at `s[j]`.
pub open spec fn is_odd_len<T>(s: Seq<T>, j: int, len: int) -> bool {
    &&& len % 2 == 1
    &&& len >= 1
    &&& forall|v: int| 0 <= v < (len + 1) / 2 ==> #[trigger] odd_match(s, j, v)
    &&& !odd_match(s, j, (len + 1) / 2)
}

/// `len` is the length of the longest palindrome of even length centred between `s[j]` and
/// `s[j + 1]`.
pub open spec fn is_even_len<T>(s: Seq<T>, j: int, len: int) -> bool {
    &&& len % 2 == 0
    &&& len >= 0
    &&& forall|v: int| 0 <= v < len / 2 ==> #[trigger] even_match(s, j, v)
    &&& !even_match(s, j, len / 2)
}

// The algorithm works on `s` with a separator after each element: position `p` (from 1)
// holds `s[(p - 1) / 2]` when `p` is odd and a separator when `p` is even, up to `2 * len`.

/// Positions `p` and `q` hold the same thing.
spec fn same_at<T>(s: Seq<T>, p: int, q: int) -> bool {
    if p % 2 == 0 {
        q % 2 == 0
    } else {
        q % 2 == 1 && s[(p - 1) / 2] == s[(q - 1) / 2]
    }
}

/// The positions at distance `t` from `c` exist and hold the same thing.
spec fn ring_ok<T>(s: Seq<T>, c: int, t: int) -> bool {
    &&& 1 <= c - t
    &&& c + t <= 2 * s.len()
    &&& same_at(s, c - t, c + t)
}

/// `rad` is the first distance from `c` at which the positions differ or run out.
spec fn is_radius<T>(s: Seq<T>, c: int, rad: int) -> bool {
    &&& 0 <= rad
    &&& forall|t: int| 0 <= t < rad ==> #[trigger] ring_ok(s, c, t)
    &&& !ring_ok(s, c, rad)
}

/// The positions strictly between `l` and `r` read the same both ways.
spec fn mirrored<T>(s: Seq<T>, l: int, r: int) -> bool {
    forall|p: int| l < p < r ==> 1 <= p <= 2 * s.len() && #[trigger] same_at(s, p, l + r - p)
}

proof fn lemma_same_at_sym<T>(s: Seq<T>, p: int, q: int)
    requires
        same_at(s, p, q),
    ensures
        same_at(s, q, p),
{
}

proof fn lemma_same_at_trans<T>(s: Seq<T>, p: int, q: int, w: int)
    requires
        same_at(s, p, q),
        same_at(s, q, w),
    ensures
        same_at(s, p, w),
{
}

/// Inside a mirrored stretch, a centre sees at least what its mirror image sees, up to the
/// end of the stretch.
proof fn lemma_mirror<T>(s: Seq<T>, l: int, r: int, i: int, rj: int, t: int)
    requires
        mirrored(s, l, r),
        l + r < 2 * i,
        i < r,
        is_radius(s, l + r - i, rj),
        0 <= t < r - i,
        t < rj,
    ensures
        ring_ok(s, i, t),
{
    let j = l + r - i;
    assert(ring_ok(s, j, t));
    assert(l < i + t < r);
    assert(l < i - t < r);
    assert(same_at(s, i + t, l + r - (i + t)));
    assert(same_at(s, i - t, l + r - (i - t)));
    assert(l + r - (i + t) == j - t);
    assert(l + r - (i - t) == j + t);
    lemma_same_at_sym(s, i + t, j - t);
    lemma_same_at_trans(s, i - t, j + t, j - t);
    lemma_same_at_trans(s, i - t, j - t, i + t);
}

/// The radius at an element's position gives its longest odd palindrome.
proof fn lemma_odd_len<T>(s: Seq<T>, j: int, rad: int)
    requires
        0 <= j < s.len(),
        is_radius(s, 2 * j + 1, rad),
    ensures
        is_odd_len(s, j, if rad == 2 * j + 1 { rad } else { rad - 1 }),
{
    let c = 2 * j + 1;
    if rad > c {
        assert(ring_ok(s, c, c));
    }
    if rad != c && rad % 2 == 1 {
        assert(ring_ok(s, c, rad - 1));
    }
    let len = if rad == c { rad } else { rad - 1 };
    let u = (len + 1) / 2;
    assert(rad >= 1) by {
        assert(ring_ok(s, c, 0));
    }
    assert forall|v: int| 0 <= v < u implies #[trigger] odd_match(s, j, v) by {
        assert(ring_ok(s, c, 2 * v));
        assert((c - 2 * v - 1) / 2 == j - v);
        assert((c + 2 * v - 1) / 2 == j + v);
    }
    if rad != c {
        assert((c - 2 * u - 1) / 2 == j - u);
        assert((c + 2 * u - 1) / 2 == j + u);
    }
}

/// The radius at a separator gives the longest even palindrome around it.
proof fn lemma_even_len<T>(s: Seq<T>, j: int, rad: int)
    requires
        0 <= j,
        j + 1 < s.len(),
        is_radius(s, 2 * j + 2, rad),
    ensures
        is_even_len(s, j, if rad == 2 * j + 2 { rad } else { rad - 1 }),
{
    let c = 2 * j + 2;
    if rad > c {
        assert(ring_ok(s, c, c));
    }
    if rad != c && rad % 2 == 0 {
        assert(rad >= 1) by {
            assert(ring_ok(s, c, 0));
        }
        assert(ring_ok(s, c, rad - 1));
    }
    let len = if rad == c { rad } else { rad - 1 };
    let u = len / 2;
    assert forall|v: int| 0 <= v < u implies #[trigger] even_match(s, j, v) by {
        assert(ring_ok(s, c, 2 * v + 1));
        assert((c - (2 * v + 1) - 1) / 2 == j - v);
        assert((c + (2 * v + 1) - 1) / 2 == j + 1 + v);
    }
    if rad != c {
        assert((c - (2 * u + 1) - 1) / 2 == j - u);
        assert((c + (2 * u + 1) - 1) / 2 == j + 1 + u);
    }
}

/// The lengths of the longest palindromes around every centre of `str`: entry `2j` is the
/// longest of odd length centred at `str[j]`, entry `2j + 1` the longest of even length
/// centred between `str[j]` and `str[j + 1]`.
#[verifier::rlimit(40)]
pub fn manacher<T: Eq>(str: &[T]) -> (r: Vec<usize>)
    requires
        obeys_concrete_eq::<T>(),
        2 * str@.len() + 1 <= usize::MAX,
    ensures
        r@.len() == (if str@.len() == 0 { 0 } else { 2 * str@.len() - 1 }),
        forall|j: int| 0 <= j < str@.len() ==> is_odd_len(str@, j, #[trigger] r@[2 * j] as int),
        forall|j: int| 0 <= j && j + 1 < str@.len() ==> is_even_len(str@, j, #[trigger] r@[2 * j + 1] as int),
{
    let ghost s = str@;
    let n = str.len();
    if n == 0 {
        return Vec::new();
    }
    let mut radius: Vec<usize> = Vec::with_capacity(2 * n);
    radius.push(1);
    proof {
        assert(ring_ok(s, 1, 0));
        assert(!ring_ok(s, 1, 1));
        assert(is_radius(s, 1, 1));
    }
    // the positions strictly between `l` and `r` read the same both ways
    let mut l: usize = 1;
    let mut r: usize = 2;
    let mut i: usize = 2;
    while i < 2 * n
        invariant
            s == str@,
            n == s.len(),
            n >= 1,
            2 * n + 1 <= usize::MAX,
            obeys_concrete_eq::<T>(),
            2 <= i <= 2 * n,
            radius@.len() == i - 1,
            forall|q: int| 0 <= q < i - 1 ==> is_radius(s, q + 1, #[trigger] radius@[q] as int),
            l + r < 2 * i,
            i <= r <= 2 * n + 1,
            mirrored(s, l as int, r as int),
        decreases 2 * n - i,
    {
        let mut ri: usize = if r > i {
            let m = radius[l + (r - i) - 1];
            if r - i < m { r - i } else { m }
        } else {
            0
        };
        proof {
            if r > i {
                let j = l + r - i;
                assert(is_radius(s, j, radius@[j - 1] as int));
                assert forall|t: int| 0 <= t < ri implies #[trigger] ring_ok(s, i as int, t) by {
                    lemma_mirror(s, l as int, r as int, i as int, radius@[j - 1] as int, t);
                }
            }
        }
        let max_ri = if 2 * n - i + 1 < i { 2 * n - i + 1 } else { i };
        proof {
            if ri > max_ri {
                assert(ring_ok(s, i as int, max_ri as int));
            }
        }
        while ri < max_ri && ((i + ri) % 2 == 0 || eq_at(str, (i - ri) / 2, (i + ri - 1) / 2))
            invariant
                s == str@,
                n == s.len(),
                2 * n + 1 <= usize::MAX,
                obeys_concrete_eq::<T>(),
                2 <= i < 2 * n,
                max_ri == (if 2 * n - i + 1 < i { 2 * n - i + 1 } else { i as int }),
                ri <= max_ri,
                forall|t: int| 0 <= t < ri ==> #[trigger] ring_ok(s, i as int, t),
            decreases max_ri - ri,
        {
            proof {
                if (i + ri) % 2 != 0 {
                    assert((i - ri) % 2 == 1);
                    assert((i - ri) / 2 == (i - ri - 1) / 2);
                }
            }
            ri += 1;
        }
        proof {
            if ri < max_ri && (i + ri) % 2 != 0 {
                assert((i - ri) / 2 == (i - ri - 1) / 2);
            }
            assert(!ring_ok(s, i as int, ri as int));
            assert(ring_ok(s, i as int, 0));
            assert(is_radius(s, i as int, ri as int));
        }
        let ghost before = radius@;
        radius.push(ri);
        if i + ri > r {
            l = i - ri;
            r = i + ri;
            proof {
                assert forall|p: int| l < p < r implies 1 <= p <= 2 * s.len() && #[trigger] same_at(s, p, l + r - p) by {
                    if p >= i {
                        assert(ring_ok(s, i as int, p - i));
                        lemma_same_at_sym(s, i - (p - i), i + (p - i));
                    } else {
                        assert(ring_ok(s, i as int, i - p));
                    }
                }
            }
        }
        proof {
            assert forall|q: int| 0 <= q < i implies is_radius(s, q + 1, #[trigger] radius@[q] as int) by {
                if q < i - 1 {
                    assert(radius@[q] == before[q]);
                }
            }
        }
        i += 1;
    }
    let m = radius.len();
    let mut out: Vec<usize> = Vec::with_capacity(m);
    let mut k: usize = 0;
    while k < m
        invariant
            s == str@,
            n == s.len(),
            n >= 1,
            m == radius@.len(),
            m == 2 * n - 1,
            k <= m,
            out@.len() == k,
            forall|q: int| 0 <= q < k ==> #[trigger] out@[q] == (if radius@[q] == q + 1 { radius@[q] } else {
                (radius@[q] - 1) as usize
            }),
            forall|q: int| 0 <= q < 2 * n - 1 ==> is_radius(s, q + 1, #[trigger] radius@[q] as int),
        decreases m - k,
    {
        proof {
            assert(is_radius(s, k + 1, radius@[k as int] as int));
            assert(ring_ok(s, k + 1, 0));
        }
        let v = radius[k];
        out.push(if v != k + 1 { v - 1 } else { v });
        k += 1;
    }
    proof {
        assert forall|j: int| 0 <= j < s.len() implies is_odd_len(s, j, #[trigger] out@[2 * j] as int) by {
            assert(is_radius(s, 2 * j + 1, radius@[2 * j] as int));
            lemma_odd_len(s, j, radius@[2 * j] as int);
        }
        assert forall|j: int| 0 <= j && j + 1 < s.len() implies is_even_len(s, j, #[trigger] out@[2 * j + 1] as int) by {
            assert(is_radius(s, 2 * j + 2, radius@[2 * j + 1] as int));
            lemma_even_len(s, j, radius@[2 * j + 1] as int);
        }
    }
    out
}

} // verus!
