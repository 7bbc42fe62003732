//! Prefix function (longest proper borders) of a sequence.

use vstd::prelude::*;
use vstd::laws_eq::obeys_concrete_eq;

verus! {

/// `m` is the length of a proper border of `s[0..len]`: the prefix and the suffix of length
/// `m` agree.
pub open spec fn is_border<T>(s: Seq<T>, len: int, m: int) -> bool {
    &&& 0 <= m < len
    &&& forall|k: int| 0 <= k < m ==> #[trigger] s[k] == s[len - m + k]
}

/// `m` is the length of the longest proper border of `s[0..len]`.
pub open spec fn is_longest_border<T>(s: Seq<T>, len: int, m: int) -> bool {
    &&& is_border(s, len, m)
    &&& forall|m2: int| #[trigger] is_border(s, len, m2) ==> m2 <= m
}

/// Whether `s[i]` equals `s[j]`.
pub(crate) fn eq_at<T: Eq>(s: &[T], i: usize, j: usize) -> (r: bool)
    requires
        obeys_concrete_eq::<T>(),
        i < s@.len(),
        j < s@.len(),
    ensures
        r == (s@[i as int] == s@[j as int]),
{
    proof {
        reveal(obeys_concrete_eq);
    }
    s[i] == s[j]
}

/// A border of a border is a border.
proof fn lemma_border_trans<T>(s: Seq<T>, i: int, n: int, m: int)
    requires
        is_border(s, i, n),
        is_border(s, n, m),
    ensures
        is_border(s, i, m),
{
    assert forall|k: int| 0 <= k < m implies #[trigger] s[k] == s[i - m + k] by {
        assert(s[k] == s[n - m + k]);
        assert(s[n - m + k] == s[i - n + (n - m + k)]);
    }
}

/// A shorter border of `s[0..i]` is a border of a longer one.
proof fn lemma_border_of_border<T>(s: Seq<T>, i: int, n: int, m: int)
    requires
        is_border(s, i, n),
        is_border(s, i, m),
        m < n,
    ensures
        is_border(s, n, m),
{
    assert forall|k: int| 0 <= k < m implies #[trigger] s[k] == s[n - m + k] by {
        assert(s[k] == s[i - m + k]);
        assert(s[n - m + k] == s[i - n + (n - m + k)]);
    }
}

/// Extending the prefix `s[0..i]` by `s[i]`: from the longest border `n0` of `s[0..i]` that
/// may extend, the longest border of `s[0..=i]` follows.
proof fn lemma_kmp_step<T>(s: Seq<T>, ii: int, n0: int)
    requires
        0 < ii < s.len(),
        is_border(s, ii, n0),
        forall|m: int| n0 < m && is_border(s, ii, m) ==> s[m] != s[ii],
        n0 > 0 ==> s[n0] == s[ii],
    ensures
        is_longest_border(s, ii + 1, if s[n0] == s[ii] { n0 + 1 } else { 0 }),
{
    let n = if s[n0] == s[ii] { n0 + 1 } else { 0 };
    assert(is_border(s, ii + 1, n)) by {
        if n > 0 {
            assert forall|k: int| 0 <= k < n implies #[trigger] s[k] == s[ii + 1 - n + k] by {
                if k < n0 {
                    assert(s[k] == s[ii - n0 + k]);
                }
            }
        }
    }
    assert forall|m2: int| #[trigger] is_border(s, ii + 1, m2) implies m2 <= n by {
        if m2 > n {
            let m = m2 - 1;
            assert(s[m] == s[ii + 1 - m2 + m]);
            assert(is_border(s, ii, m)) by {
                assert forall|k: int| 0 <= k < m implies #[trigger] s[k] == s[ii - m + k] by {
                    assert(s[k] == s[ii + 1 - m2 + k]);
                }
            }
        }
    }
}

/// For every `i`, the length of the longest proper border of `str[0..=i]`.
pub fn kmp<T: Eq>(str: &[T]) -> (r: Vec<usize>)
    requires
        obeys_concrete_eq::<T>(),
    ensures
        r@.len() == str@.len(),
        forall|i: int| 0 <= i < str@.len() ==> is_longest_border(str@, i + 1, #[trigger] r@[i] as int),
{
    let ghost s = str@;
    let mut len: Vec<usize> = Vec::new();
    if str.len() == 0 {
        return len;
    }
    len.push(0);
    proof {
        assert forall|m2: int| #[trigger] is_border(s, 1, m2) implies m2 <= 0 by {}
    }
    let mut i: usize = 1;
    while i < str.len()
        invariant
            obeys_concrete_eq::<T>(),
            s == str@,
            1 <= i <= s.len(),
            len@.len() == i,
            forall|j: int| 0 <= j < i ==> is_longest_border(s, j + 1, #[trigger] len@[j] as int),
        decreases s.len() - i,
    {
        let mut n = len[i - 1];
        proof {
            assert(is_longest_border(s, i as int, n as int));
        }
        while n > 0 && !eq_at(str, i, n)
            invariant
                obeys_concrete_eq::<T>(),
                s == str@,
                1 <= i < s.len(),
                len@.len() == i,
                forall|j: int| 0 <= j < i ==> is_longest_border(s, j + 1, #[trigger] len@[j] as int),
                is_border(s, i as int, n as int),
                forall|m: int| n < m && is_border(s, i as int, m) ==> s[m] != s[i as int],
            decreases n,
        {
            let ghost old_n = n as int;
            n = len[n - 1];
            proof {
                assert(is_longest_border(s, old_n, n as int));
                lemma_border_trans(s, i as int, old_n, n as int);
                assert forall|m: int| n < m && is_border(s, i as int, m) implies s[m] != s[i as int] by {
                    if m < old_n {
                        lemma_border_of_border(s, i as int, old_n, m);
                    }
                }
            }
        }
        let ghost n0 = n as int;
        if eq_at(str, i, n) {
            n += 1;
        }
        proof {
            lemma_kmp_step(s, i as int, n0);
        }
        len.push(n);
        i += 1;
    }
    len
}

} // verus!
