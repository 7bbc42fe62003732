//! Suffix arrays: the starting positions of the suffixes of a sequence in increasing order.

use vstd::prelude::*;
use vstd::laws_cmp::obeys_cmp;
use vstd::laws_eq::obeys_eq;
use core::cmp::Ordering;
use vstd::std_specs::cmp::{OrdSpec, PartialOrdSpec};

verus! {

/// The comparison of `T` is a total order, and equal elements are the same value.
pub open spec fn total_order<T: Ord>() -> bool {
    &&& obeys_cmp::<T>()
    &&& vstd::laws_eq::obeys_concrete_eq::<T>()
}

/// `x` comes before `y` in the order of `T`.
pub open spec fn lt<T: Ord>(x: T, y: T) -> bool {
    x.cmp_spec(&y) == Ordering::Less
}

/// `a` and `b` agree on their first `k` elements, and at `k` either `a` has ended while `b`
/// goes on, or `a` has the smaller element.
pub open spec fn lex_at<T: Ord>(a: Seq<T>, b: Seq<T>, k: int) -> bool {
    &&& 0 <= k <= a.len()
    &&& k <= b.len()
    &&& forall|t: int| 0 <= t < k ==> #[trigger] a[t] == b[t]
    &&& (k == a.len() && k < b.len()) || (k < a.len() && k < b.len() && lt(a[k], b[k]))
}

/// `a` comes before `b` in lexicographic order.
pub open spec fn lex_lt<T: Ord>(a: Seq<T>, b: Seq<T>) -> bool {
    exists|k: int| lex_at(a, b, k)
}

/// The suffix of `s` from `i`.
pub open spec fn suffix<T>(s: Seq<T>, i: int) -> Seq<T> {
    s.subrange(i, s.len() as int)
}

/// `sa` lists every position of `s` once, in increasing order of the suffixes.
pub open spec fn is_suffix_array<T: Ord>(s: Seq<T>, sa: Seq<usize>) -> bool {
    &&& sa.len() == s.len()
    &&& forall|p: int| 0 <= p < sa.len() ==> #[trigger] sa[p] < s.len()
    &&& forall|p: int, q: int| 0 <= p < q < sa.len() ==> lex_lt(suffix(s, #[trigger] sa[p] as int), suffix(s, #[trigger] sa[q] as int))
}

/// The order of `T` is transitive.
proof fn lemma_lt_trans<T: Ord>(x: T, y: T, z: T)
    requires
        total_order::<T>(),
        lt(x, y),
        lt(y, z),
    ensures
        lt(x, z),
{
    reveal(vstd::laws_cmp::obeys_partial_cmp_spec_properties);
    reveal(vstd::laws_cmp::obeys_cmp_ord);
    assert(x.partial_cmp_spec(&y) == Some(x.cmp_spec(&y)));
    assert(y.partial_cmp_spec(&z) == Some(y.cmp_spec(&z)));
    assert(x.partial_cmp_spec(&z) == Some(x.cmp_spec(&z)));
}

/// Lexicographic order is transitive.
proof fn lemma_lex_trans<T: Ord>(a: Seq<T>, b: Seq<T>, c: Seq<T>)
    requires
        total_order::<T>(),
        lex_lt(a, b),
        lex_lt(b, c),
    ensures
        lex_lt(a, c),
{
    let k1 = choose|k: int| lex_at(a, b, k);
    let k2 = choose|k: int| lex_at(b, c, k);
    if k1 < k2 {
        assert forall|t: int| 0 <= t < k1 implies #[trigger] a[t] == c[t] by {
            assert(a[t] == b[t]);
            assert(b[t] == c[t]);
        }
        if k1 < a.len() {
            assert(b[k1] == c[k1]);
        }
        assert(lex_at(a, c, k1));
    } else if k2 < k1 {
        assert forall|t: int| 0 <= t < k2 implies #[trigger] a[t] == c[t] by {
            assert(a[t] == b[t]);
            assert(b[t] == c[t]);
        }
        assert(a[k2] == b[k2]);
        assert(lex_at(a, c, k2));
    } else {
        assert forall|t: int| 0 <= t < k1 implies #[trigger] a[t] == c[t] by {
            assert(a[t] == b[t]);
            assert(b[t] == c[t]);
        }
        if k1 < a.len() {
            lemma_lt_trans(a[k1], b[k1], c[k1]);
        }
        assert(lex_at(a, c, k1));
    }
}

/// Whether `x` equals `y`, and whether it comes before `y`.
fn order_of<T: Ord>(x: &T, y: &T) -> (r: (bool, bool))
    requires
        total_order::<T>(),
    ensures
        r.0 == (*x == *y),
        r.1 == lt(*x, *y),
{
    proof {
        reveal(vstd::laws_cmp::obeys_partial_cmp_spec_properties);
        reveal(vstd::laws_cmp::obeys_cmp_ord);
        reveal(vstd::laws_eq::obeys_eq_spec_properties);
        reveal(vstd::laws_eq::obeys_concrete_eq);
        assert(x.partial_cmp_spec(y) == Some(x.cmp_spec(y)));
        assert(y.partial_cmp_spec(x) == Some(y.cmp_spec(x)));
    }
    match x.cmp(y) {
        Ordering::Less => (false, true),
        Ordering::Equal => (true, false),
        Ordering::Greater => (false, false),
    }
}

/// Two elements are equal, or one comes before the other, and not both ways.
proof fn lemma_order<T: Ord>(x: T, y: T)
    requires
        total_order::<T>(),
    ensures
        x == y || lt(x, y) || lt(y, x),
        lt(x, y) ==> x != y && !lt(y, x),
{
    reveal(vstd::laws_cmp::obeys_partial_cmp_spec_properties);
    reveal(vstd::laws_cmp::obeys_cmp_ord);
    reveal(vstd::laws_eq::obeys_eq_spec_properties);
    reveal(vstd::laws_eq::obeys_concrete_eq);
    assert(x.partial_cmp_spec(&y) == Some(x.cmp_spec(&y)));
    assert(y.partial_cmp_spec(&x) == Some(y.cmp_spec(&x)));
}

/// Whether the suffix from `i` comes before the suffix from `j`; when it does not and
/// `i != j`, the suffix from `j` comes before.
fn suffix_less<T: Ord>(s: &[T], i: usize, j: usize) -> (r: bool)
    requires
        total_order::<T>(),
        i < s@.len(),
        j < s@.len(),
    ensures
        r == lex_lt(suffix(s@, i as int), suffix(s@, j as int)),
        !r && i != j ==> lex_lt(suffix(s@, j as int), suffix(s@, i as int)),
{
    let n = s.len();
    let ghost a = suffix(s@, i as int);
    let ghost b = suffix(s@, j as int);
    let mut k: usize = 0;
    while i + k < n && j + k < n
        invariant
            i < n,
            j < n,
            n == s@.len(),
            total_order::<T>(),
            a == suffix(s@, i as int),
            b == suffix(s@, j as int),
            i + k <= n,
            j + k <= n,
            forall|t: int| 0 <= t < k ==> #[trigger] a[t] == b[t],
        ensures
            i + k <= n,
            j + k <= n,
            forall|t: int| 0 <= t < k ==> #[trigger] a[t] == b[t],
            i + k < n && j + k < n ==> s@[i + k] != s@[j + k],
        decreases n - i - k,
    {
        let (same, _) = order_of(&s[i + k], &s[j + k]);
        if !same {
            break;
        }
        proof {
            assert(a[k as int] == s@[i + k]);
            assert(b[k as int] == s@[j + k]);
        }
        k += 1;
    }
    let ghost ki = k as int;
    if i + k < n && j + k < n {
        let (_, less) = order_of(&s[i + k], &s[j + k]);
        proof {
            lemma_order(s@[i + k], s@[j + k]);
            assert(a[ki] == s@[i + k]);
            assert(b[ki] == s@[j + k]);
            assert forall|t: int| 0 <= t < ki implies #[trigger] b[t] == a[t] by {}
            if lex_lt(a, b) {
                let k2 = choose|k2: int| lex_at(a, b, k2);
                if k2 < ki {
                    assert(a[k2] == b[k2]);
                    lemma_order(a[k2], b[k2]);
                } else if k2 > ki {
                    assert(a[ki] == b[ki]);
                }
            }
            if lex_lt(b, a) {
                let k2 = choose|k2: int| lex_at(b, a, k2);
                if k2 < ki {
                    assert(a[k2] == b[k2]);
                    lemma_order(b[k2], b[k2]);
                } else if k2 > ki {
                    assert(a[ki] == b[ki]);
                }
            }
            if less {
                assert(lex_at(a, b, ki));
            } else {
                assert(lex_at(b, a, ki));
            }
        }
        less
    } else {
        proof {
            assert forall|t: int| 0 <= t < ki implies #[trigger] b[t] == a[t] by {}
            if i + k == n && j + k < n {
                assert(lex_at(a, b, ki));
            }
            if j + k == n && i + k < n {
                assert(lex_at(b, a, ki));
            }
            if lex_lt(a, b) {
                let k2 = choose|k2: int| lex_at(a, b, k2);
                if k2 < ki {
                    assert(a[k2] == b[k2]);
                    lemma_order(a[k2], b[k2]);
                }
            }
        }
        i + k == n && j + k < n
    }
}

/// Fills `sa` with the suffix array of `str`, by sorting the positions with comparisons of
/// their suffixes.
pub fn suffix_array_brute_force<T: Ord>(str: &[T], sa: &mut [usize])
    requires
        total_order::<T>(),
        old(sa)@.len() == str@.len(),
    ensures
        is_suffix_array(str@, final(sa)@),
        forall|p: int, q: int| 0 <= p < q < final(sa)@.len() ==> #[trigger] final(sa)@[p] != #[trigger] final(sa)@[q],
{
    let n = sa.len();
    let mut i: usize = 0;
    while i < n
        invariant
            n == sa@.len(),
            i <= n,
            forall|p: int| 0 <= p < i ==> #[trigger] sa@[p] == p,
        decreases n - i,
    {
        sa[i] = i;
        i += 1;
    }
    let ghost s = str@;
    let mut i: usize = 1;
    while i < n
        invariant
            n == sa@.len(),
            n == s.len(),
            s == str@,
            total_order::<T>(),
            1 <= i || n == 0,
            i <= n || n == 0,
            forall|p: int| 0 <= p < n ==> #[trigger] sa@[p] < n,
            forall|p: int, q: int| 0 <= p < q < n ==> #[trigger] sa@[p] != #[trigger] sa@[q],
            forall|p: int, q: int| 0 <= p < q < i ==> lex_lt(suffix(s, #[trigger] sa@[p] as int), suffix(s, #[trigger] sa@[q] as int)),
        decreases n - i,
    {
        let mut j: usize = i;
        loop
            invariant
                n == sa@.len(),
                n == s.len(),
                s == str@,
                total_order::<T>(),
                1 <= i < n,
                j <= i,
                forall|p: int| 0 <= p < n ==> #[trigger] sa@[p] < n,
                forall|p: int, q: int| 0 <= p < q < n ==> #[trigger] sa@[p] != #[trigger] sa@[q],
                forall|p: int, q: int| 0 <= p < q < j ==> lex_lt(suffix(s, #[trigger] sa@[p] as int), suffix(s, #[trigger] sa@[q] as int)),
                forall|p: int, q: int| j <= p < q <= i ==> lex_lt(suffix(s, #[trigger] sa@[p] as int), suffix(s, #[trigger] sa@[q] as int)),
                0 < j < i ==> lex_lt(suffix(s, sa@[j - 1] as int), suffix(s, sa@[j + 1] as int)),
            ensures
                n == sa@.len(),
                forall|p: int| 0 <= p < n ==> #[trigger] sa@[p] < n,
                forall|p: int, q: int| 0 <= p < q < n ==> #[trigger] sa@[p] != #[trigger] sa@[q],
                forall|p: int, q: int| 0 <= p < q < i + 1 ==> lex_lt(suffix(s, #[trigger] sa@[p] as int), suffix(s, #[trigger] sa@[q] as int)),
            decreases j,
        {
            if j == 0 {
                break;
            }
            let less = suffix_less(str, sa[j], sa[j - 1]);
            if !less {
                proof {
                    assert(sa@[j as int] != sa@[j - 1]);
                    assert(lex_lt(suffix(s, sa@[j - 1] as int), suffix(s, sa@[j as int] as int)));
                    assert forall|p: int, q: int| 0 <= p < q < i + 1 implies lex_lt(suffix(s, #[trigger] sa@[p] as int), suffix(s, #[trigger] sa@[q] as int)) by {
                        if p < j && q >= j {
                            if p < j - 1 {
                                lemma_lex_trans(suffix(s, sa@[p] as int), suffix(s, sa@[j - 1] as int), suffix(s, sa@[j as int] as int));
                            }
                            if q > j {
                                if p < j - 1 {
                                    lemma_lex_trans(suffix(s, sa@[p] as int), suffix(s, sa@[j as int] as int), suffix(s, sa@[q] as int));
                                } else {
                                    lemma_lex_trans(suffix(s, sa@[j - 1] as int), suffix(s, sa@[j as int] as int), suffix(s, sa@[q] as int));
                                }
                            }
                        }
                    }
                }
                break;
            }
            let ghost before = sa@;
            let a = sa[j - 1];
            let b = sa[j];
            sa[j - 1] = b;
            sa[j] = a;
            proof {
                let sv = sa@;
                assert(sv == before.update(j - 1, b).update(j as int, a));
                assert forall|p: int, q: int| 0 <= p < q < n implies #[trigger] sv[p] != #[trigger] sv[q] by {
                    let pp = if p == j - 1 { j as int } else if p == j { j - 1 } else { p };
                    let qq = if q == j - 1 { j as int } else if q == j { j - 1 } else { q };
                    assert(sv[p] == before[pp]);
                    assert(sv[q] == before[qq]);
                    if pp < qq {
                        assert(before[pp] != before[qq]);
                    } else {
                        assert(before[qq] != before[pp]);
                    }
                }
                assert forall|p: int, q: int| 0 <= p < q < j - 1 implies lex_lt(suffix(s, #[trigger] sv[p] as int), suffix(s, #[trigger] sv[q] as int)) by {
                    assert(sv[p] == before[p] && sv[q] == before[q]);
                }
                assert forall|p: int, q: int| j - 1 <= p < q <= i implies lex_lt(suffix(s, #[trigger] sv[p] as int), suffix(s, #[trigger] sv[q] as int)) by {
                    if p == j - 1 {
                        if q != j {
                            assert(sv[q] == before[q]);
                            assert(lex_lt(suffix(s, before[j as int] as int), suffix(s, before[q] as int)));
                        }
                    } else if p == j {
                        assert(sv[q] == before[q]);
                        if q == j + 1 {
                        } else {
                            lemma_lex_trans(suffix(s, before[j - 1] as int), suffix(s, before[j + 1] as int), suffix(s, before[q] as int));
                        }
                    } else {
                        assert(sv[p] == before[p] && sv[q] == before[q]);
                    }
                }
                if j > 1 {
                    assert(sv[j - 2] == before[j - 2]);
                    assert(sv[j as int] == before[j - 1]);
                }
            }
            j -= 1;
        }
        i += 1;
    }
}

} // verus!
