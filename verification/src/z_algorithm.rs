//! Longest common prefixes of a sequence with each of its suffixes.

use vstd::prelude::*;
use vstd::laws_eq::obeys_concrete_eq;
use crate::kmp::eq_at;

verus! {

/// `s[0..l]` equals `s[i..i + l]`.
pub open spec fn prefix_matches<T>(s: Seq<T>, i: int, l: int) -> bool {
    &&& 0 <= l
    &&& i + l <= s.len()
    &&& forall|k: int| 0 <= k < l ==> #[trigger] s[k] == s[i + k]
}

/// `l` is the length of the longest common prefix of `s` and `s[i..]`.
pub open spec fn is_lcp<T>(s: Seq<T>, i: int, l: int) -> bool {
    &&& prefix_matches(s, i, l)
    &&& (i + l == s.len() || s[l] != s[i + l])
}

/// For every `i`, the length of the longest common prefix of `str` and `str[i..]`.
pub fn z_algorithm<T: Eq>(str: &[T]) -> (z: Vec<usize>)
    requires
        obeys_concrete_eq::<T>(),
    ensures
        z@.len() == str@.len(),
        forall|i: int| 0 <= i < str@.len() ==> is_lcp(str@, i, #[trigger] z@[i] as int),
{
    let ghost s = str@;
    let n = str.len();
    let mut z: Vec<usize> = Vec::new();
    if n == 0 {
        return z;
    }
    z.push(n);
    proof {
        assert(prefix_matches(s, 0, n as int));
    }
    // the match reaching furthest right: `s[ml..mr] == s[0..mr - ml]`
    let mut ml: usize = 0;
    let mut mr: usize = 0;
    let mut i: usize = 1;
    while i < n
        invariant
            obeys_concrete_eq::<T>(),
            s == str@,
            n == s.len(),
            1 <= i <= n,
            z@.len() == i,
            forall|j: int| 0 <= j < i ==> is_lcp(s, j, #[trigger] z@[j] as int),
            ml < i || (ml == 0 && mr == 0),
            ml <= mr <= n,
            mr > 0 ==> ml >= 1,
            prefix_matches(s, ml as int, mr - ml),
        decreases n - i,
    {
        let init = if i < mr {
            let a = z[i - ml];
            let b = mr - i;
            if a < b { a } else { b }
        } else {
            0
        };
        proof {
            if i < mr {
                let d = i - ml;
                assert(is_lcp(s, d as int, z@[d as int] as int));
                assert forall|k: int| 0 <= k < init implies #[trigger] s[k] == s[i + k] by {
                    assert(s[k] == s[d + k]);
                    assert(s[d + k] == s[ml + (d + k)]);
                }
            }
        }
        let mut l = init;
        while i + l < n && eq_at(str, i + l, l)
            invariant
                obeys_concrete_eq::<T>(),
                s == str@,
                n == s.len(),
                1 <= i < n,
                prefix_matches(s, i as int, l as int),
            decreases n - i - l,
        {
            l += 1;
        }
        z.push(l);
        if i + l > mr {
            ml = i;
            mr = i + l;
        }
        i += 1;
    }
    z
}

} // verus!
