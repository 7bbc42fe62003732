//! Sorting points of the plane along a Hilbert curve.

use vstd::prelude::*;
use vstd::arithmetic::power::{pow, lemma_pow_positive};

verus! {

/// Fixed-width unsigned integers, read bit by bit.
pub trait Unsigned: Copy + Sized + core::ops::BitOr<Output = Self> + core::ops::Not<Output = Self> {
    /// The number of bits.
    const BITS: u32;

    /// Zero.
    const ZERO: Self;

    /// Bit `n`, counted from the least significant; false from `BITS` on.
    spec fn bit(self, n: nat) -> bool;

    /// Every bit flipped.
    spec fn flipped(self) -> Self;

    /// The number of bits up to and including the highest one set.
    fn bit_width(self) -> (r: u32)
        ensures
            r <= Self::BITS,
            forall|n: nat| r <= n ==> !#[trigger] self.bit(n),
            r > 0 ==> self.bit((r - 1) as nat),
    ;

    /// Bit `n`.
    fn test(self, n: u8) -> (r: bool)
        requires
            (n as u32) < Self::BITS,
        ensures
            r == self.bit(n as nat),
    ;

    /// Every bit flipped.
    fn flip(self) -> (r: Self)
        ensures
            r == self.flipped(),
    ;

    /// Flipping twice gives the value back.
    proof fn lemma_flip_flip(x: Self)
        ensures
            x.flipped().flipped() == x,
    ;

    /// The width is that of one of the primitive unsigned types.
    proof fn lemma_bits_range()
        ensures
            8 <= Self::BITS <= 128,
    ;
}

impl Unsigned for u8 {
    const BITS: u32 = 8;

    const ZERO: u8 = 0;

    open spec fn bit(self, n: nat) -> bool {
        n < 8 && (self >> (n as u8)) & 1u8 == 1u8
    }

    open spec fn flipped(self) -> u8 {
        !self
    }

    fn bit_width(self) -> (r: u32) {
        let mut w: u32 = 8;
        while w > 0 && !self.test((w - 1) as u8)
            invariant
                w <= 8,
                forall|n: nat| w <= n ==> !#[trigger] self.bit(n),
            decreases w,
        {
            w -= 1;
        }
        w
    }

    fn test(self, n: u8) -> (r: bool) {
        (self >> n) & 1 == 1
    }

    fn flip(self) -> (r: u8) {
        !self
    }

    proof fn lemma_flip_flip(x: u8) {
        assert(!!x == x) by (bit_vector);
    }

    proof fn lemma_bits_range() {
    }
}

impl Unsigned for u16 {
    const BITS: u32 = 16;

    const ZERO: u16 = 0;

    open spec fn bit(self, n: nat) -> bool {
        n < 16 && (self >> (n as u16)) & 1u16 == 1u16
    }

    open spec fn flipped(self) -> u16 {
        !self
    }

    fn bit_width(self) -> (r: u32) {
        let mut w: u32 = 16;
        while w > 0 && !self.test((w - 1) as u8)
            invariant
                w <= 16,
                forall|n: nat| w <= n ==> !#[trigger] self.bit(n),
            decreases w,
        {
            w -= 1;
        }
        w
    }

    fn test(self, n: u8) -> (r: bool) {
        (self >> (n as u16)) & 1 == 1
    }

    fn flip(self) -> (r: u16) {
        !self
    }

    proof fn lemma_flip_flip(x: u16) {
        assert(!!x == x) by (bit_vector);
    }

    proof fn lemma_bits_range() {
    }
}

impl Unsigned for u32 {
    const BITS: u32 = 32;

    const ZERO: u32 = 0;

    open spec fn bit(self, n: nat) -> bool {
        n < 32 && (self >> (n as u32)) & 1u32 == 1u32
    }

    open spec fn flipped(self) -> u32 {
        !self
    }

    fn bit_width(self) -> (r: u32) {
        let mut w: u32 = 32;
        while w > 0 && !self.test((w - 1) as u8)
            invariant
                w <= 32,
                forall|n: nat| w <= n ==> !#[trigger] self.bit(n),
            decreases w,
        {
            w -= 1;
        }
        w
    }

    fn test(self, n: u8) -> (r: bool) {
        (self >> (n as u32)) & 1 == 1
    }

    fn flip(self) -> (r: u32) {
        !self
    }

    proof fn lemma_flip_flip(x: u32) {
        assert(!!x == x) by (bit_vector);
    }

    proof fn lemma_bits_range() {
    }
}

impl Unsigned for u64 {
    const BITS: u32 = 64;

    const ZERO: u64 = 0;

    open spec fn bit(self, n: nat) -> bool {
        n < 64 && (self >> (n as u64)) & 1u64 == 1u64
    }

    open spec fn flipped(self) -> u64 {
        !self
    }

    fn bit_width(self) -> (r: u32) {
        let mut w: u32 = 64;
        while w > 0 && !self.test((w - 1) as u8)
            invariant
                w <= 64,
                forall|n: nat| w <= n ==> !#[trigger] self.bit(n),
            decreases w,
        {
            w -= 1;
        }
        w
    }

    fn test(self, n: u8) -> (r: bool) {
        (self >> (n as u64)) & 1 == 1
    }

    fn flip(self) -> (r: u64) {
        !self
    }

    proof fn lemma_flip_flip(x: u64) {
        assert(!!x == x) by (bit_vector);
    }

    proof fn lemma_bits_range() {
    }
}

impl Unsigned for u128 {
    const BITS: u32 = 128;

    const ZERO: u128 = 0;

    open spec fn bit(self, n: nat) -> bool {
        n < 128 && (self >> (n as u128)) & 1u128 == 1u128
    }

    open spec fn flipped(self) -> u128 {
        !self
    }

    fn bit_width(self) -> (r: u32) {
        let mut w: u32 = 128;
        while w > 0 && !self.test((w - 1) as u8)
            invariant
                w <= 128,
                forall|n: nat| w <= n ==> !#[trigger] self.bit(n),
            decreases w,
        {
            w -= 1;
        }
        w
    }

    fn test(self, n: u8) -> (r: bool) {
        (self >> (n as u128)) & 1 == 1
    }

    fn flip(self) -> (r: u128) {
        !self
    }

    proof fn lemma_flip_flip(x: u128) {
        assert(!!x == x) by (bit_vector);
    }

    proof fn lemma_bits_range() {
    }
}

impl Unsigned for usize {
    const BITS: u32 = usize::BITS;

    const ZERO: usize = 0;

    open spec fn bit(self, n: nat) -> bool {
        n < usize::BITS && (self >> (n as usize)) & 1usize == 1usize
    }

    open spec fn flipped(self) -> usize {
        !self
    }

    fn bit_width(self) -> (r: u32) {
        let mut w: u32 = usize::BITS;
        while w > 0 && !self.test((w - 1) as u8)
            invariant
                w <= usize::BITS,
                usize::BITS <= 64,
                forall|n: nat| w <= n ==> !#[trigger] self.bit(n),
            decreases w,
        {
            w -= 1;
        }
        w
    }

    fn test(self, n: u8) -> (r: bool) {
        (self >> (n as usize)) & 1 == 1
    }

    fn flip(self) -> (r: usize) {
        !self
    }

    proof fn lemma_flip_flip(x: usize) {
        assert(!!x == x) by (bit_vector);
    }

    proof fn lemma_bits_range() {
    }
}

/// A point `(x, y)` carrying some data.
#[derive(Debug)]
pub struct Query<U, T> where U: Unsigned {
    pub x: U,
    pub y: U,
    pub data: T,
}

/// The quadrant of a square cell, numbered in the order in which the curve visits them:
/// `(x, y)` low halves first, then `x` high, then both high, then `y` high.
pub open spec fn quadrant(bx: bool, by: bool) -> nat {
    if !by {
        if !bx { 0 } else { 1 }
    } else if bx {
        2
    } else {
        3
    }
}

/// The position of `(x, y)` along the Hilbert curve through the square of bits `0..=k`: the
/// quadrant given by bit `k`, then the position inside it, where the first quadrant is
/// mirrored along the diagonal and the last one along the other diagonal.
pub open spec fn hilbert_key<U: Unsigned>(x: U, y: U, k: int) -> nat
    decreases k + 1,
{
    if k < 0 {
        0
    } else {
        let q = quadrant(x.bit(k as nat), y.bit(k as nat));
        let sub = if q == 0 {
            hilbert_key(y, x, k - 1)
        } else if q == 3 {
            hilbert_key(y.flipped(), x.flipped(), k - 1)
        } else {
            hilbert_key(x, y, k - 1)
        };
        (q * pow(4, k as nat) + sub) as nat
    }
}

/// The points are in increasing order of their position along the curve through bits `0..=k`.
pub open spec fn sorted_along<U: Unsigned, T>(s: Seq<Query<U, T>>, k: int) -> bool {
    forall|i: int, j: int| 0 <= i < j < s.len() ==> hilbert_key(#[trigger] s[i].x, s[i].y, k) <= hilbert_key(
        #[trigger] s[j].x,
        s[j].y,
        k,
    )
}

/// Neither coordinate of `q` has bit `b` set.
pub open spec fn clear_at<U: Unsigned, T>(q: Query<U, T>, b: nat) -> bool {
    !q.x.bit(b) && !q.y.bit(b)
}

/// No coordinate has a bit set at `w` or above.
pub open spec fn bounded_by<U: Unsigned, T>(s: Seq<Query<U, T>>, w: nat) -> bool {
    forall|i: int, n: nat| 0 <= i < s.len() && w <= n ==> #[trigger] clear_at(s[i], n)
}

/// `w` is the number of bits up to the highest one set in any coordinate.
pub open spec fn is_level<U: Unsigned, T>(s: Seq<Query<U, T>>, w: nat) -> bool {
    &&& bounded_by(s, w)
    &&& (w == 0 || !bounded_by(s, (w - 1) as nat))
}

/// `p` is a permutation of `0..n`.
pub open spec fn is_perm(p: Seq<int>, n: int) -> bool {
    &&& p.len() == n
    &&& forall|i: int| 0 <= i < n ==> 0 <= #[trigger] p[i] < n
    &&& forall|i: int, j: int| 0 <= i < n && 0 <= j < n && i != j ==> #[trigger] p[i] != #[trigger] p[j]
}

/// `new` is `old` rearranged by `p`.
pub open spec fn permuted<A>(new: Seq<A>, old: Seq<A>, p: Seq<int>) -> bool {
    &&& new.len() == old.len()
    &&& forall|i: int| 0 <= i < new.len() ==> #[trigger] new[i] == old[p[i]]
}

spec fn identity(n: nat) -> Seq<int> {
    Seq::new(n, |i: int| i)
}

proof fn lemma_identity<A>(s: Seq<A>)
    ensures
        is_perm(identity(s.len()), s.len() as int),
        permuted(s, s, identity(s.len())),
{
}

proof fn lemma_compose<A>(a: Seq<A>, b: Seq<A>, c: Seq<A>, p: Seq<int>, q: Seq<int>)
    requires
        is_perm(p, a.len() as int),
        permuted(b, a, p),
        is_perm(q, b.len() as int),
        permuted(c, b, q),
    ensures
        is_perm(Seq::new(c.len(), |i: int| p[q[i]]), a.len() as int),
        permuted(c, a, Seq::new(c.len(), |i: int| p[q[i]])),
{
    let r = Seq::new(c.len(), |i: int| p[q[i]]);
    assert forall|i: int| 0 <= i < c.len() implies #[trigger] c[i] == a[r[i]] by {
        assert(c[i] == b[q[i]]);
    }
    assert forall|i: int, j: int| 0 <= i < a.len() && 0 <= j < a.len() && i != j implies #[trigger] r[i] != #[trigger] r[j] by {
        assert(q[i] != q[j]);
    }
}

proof fn lemma_concat<A>(a: Seq<A>, a2: Seq<A>, pa: Seq<int>, b: Seq<A>, b2: Seq<A>, pb: Seq<int>)
    requires
        is_perm(pa, a.len() as int),
        permuted(a2, a, pa),
        is_perm(pb, b.len() as int),
        permuted(b2, b, pb),
    ensures
        is_perm(pa + pb.map_values(|v: int| v + a.len()), (a.len() + b.len()) as int),
        permuted(a2 + b2, a + b, pa + pb.map_values(|v: int| v + a.len())),
{
    let n = a.len() as int;
    let p = pa + pb.map_values(|v: int| v + a.len());
    assert forall|i: int| 0 <= i < n + b.len() implies 0 <= #[trigger] p[i] < n + b.len() by {
        if i >= n {
            assert(p[i] == pb[i - n] + n);
        }
    }
    assert forall|i: int, j: int| 0 <= i < n + b.len() && 0 <= j < n + b.len() && i != j implies #[trigger] p[i]
        != #[trigger] p[j] by {
        if i < n && j >= n {
            assert(p[j] == pb[j - n] + n);
        } else if i >= n && j < n {
            assert(p[i] == pb[i - n] + n);
        } else if i >= n && j >= n {
            assert(p[i] == pb[i - n] + n);
            assert(p[j] == pb[j - n] + n);
        }
    }
    assert forall|i: int| 0 <= i < (a2 + b2).len() implies #[trigger] (a2 + b2)[i] == (a + b)[p[i]] by {
        if i >= n {
            assert(p[i] == pb[i - n] + n);
            assert(b2[i - n] == b[pb[i - n]]);
        }
    }
}

/// Exchanges two elements.
#[verifier::external_body]
fn slice_swap<A>(s: &mut [A], i: usize, j: usize)
    requires
        i < old(s)@.len(),
        j < old(s)@.len(),
    ensures
        final(s)@ == old(s)@.update(i as int, old(s)@[j as int]).update(j as int, old(s)@[i as int]),
{
    s.swap(i, j)
}

/// The coordinate that a partition looks at.
pub open spec fn coord<U: Unsigned, T>(q: Query<U, T>, by_y: bool) -> U {
    if by_y { q.y } else { q.x }
}

fn coord_bit<U: Unsigned, T>(q: &Query<U, T>, by_y: bool, shift: u8) -> (r: bool)
    requires
        (shift as u32) < U::BITS,
    ensures
        r == coord(*q, by_y).bit(shift as nat),
{
    if by_y { q.y.test(shift) } else { q.x.test(shift) }
}

/// Moves the points whose coordinate has bit `shift` equal to `test` to the front.
fn partition<U: Unsigned, T>(s: &mut [Query<U, T>], by_y: bool, shift: u8, test: bool) -> (r: (usize, Ghost<Seq<int>>))
    requires
        (shift as u32) < U::BITS,
    ensures
        r.0 <= old(s)@.len(),
        is_perm(r.1@, old(s)@.len() as int),
        permuted(final(s)@, old(s)@, r.1@),
        forall|i: int| 0 <= i < r.0 ==> coord(#[trigger] final(s)@[i], by_y).bit(shift as nat) == test,
        forall|i: int| r.0 <= i < final(s)@.len() ==> coord(#[trigger] final(s)@[i], by_y).bit(shift as nat) != test,
{
    let ghost s0 = s@;
    let n = s.len();
    let ghost mut p = identity(n as nat);
    proof {
        lemma_identity(s0);
    }
    let mut l: usize = 0;
    let mut r: usize = n;
    loop
        invariant
            (shift as u32) < U::BITS,
            n == s@.len(),
            s0.len() == n,
            l <= r <= n,
            is_perm(p, n as int),
            permuted(s@, s0, p),
            forall|i: int| 0 <= i < l ==> coord(#[trigger] s@[i], by_y).bit(shift as nat) == test,
            forall|i: int| r <= i < n ==> coord(#[trigger] s@[i], by_y).bit(shift as nat) != test,
        ensures
            l <= n,
            n == s@.len(),
            is_perm(p, n as int),
            permuted(s@, s0, p),
            forall|i: int| 0 <= i < l ==> coord(#[trigger] s@[i], by_y).bit(shift as nat) == test,
            forall|i: int| l <= i < n ==> coord(#[trigger] s@[i], by_y).bit(shift as nat) != test,
        decreases r - l,
    {
        while l < r
            invariant
                (shift as u32) < U::BITS,
                n == s@.len(),
                l <= r <= n,
                forall|i: int| 0 <= i < l ==> coord(#[trigger] s@[i], by_y).bit(shift as nat) == test,
            ensures
                l <= r <= n,
                forall|i: int| 0 <= i < l ==> coord(#[trigger] s@[i], by_y).bit(shift as nat) == test,
                l < r ==> coord(s@[l as int], by_y).bit(shift as nat) != test,
            decreases r - l,
        {
            if coord_bit(&s[l], by_y, shift) != test {
                break;
            }
            l += 1;
        }
        while l < r
            invariant
                (shift as u32) < U::BITS,
                n == s@.len(),
                l <= r <= n,
                l < r ==> coord(s@[l as int], by_y).bit(shift as nat) != test,
                forall|i: int| r <= i < n ==> coord(#[trigger] s@[i], by_y).bit(shift as nat) != test,
            ensures
                l <= r <= n,
                forall|i: int| r <= i < n ==> coord(#[trigger] s@[i], by_y).bit(shift as nat) != test,
                l < r ==> coord(s@[l as int], by_y).bit(shift as nat) != test,
                l < r ==> coord(s@[r - 1], by_y).bit(shift as nat) == test,
            decreases r - l,
        {
            if coord_bit(&s[r - 1], by_y, shift) == test {
                break;
            }
            r -= 1;
        }
        if r - l > 1 {
            let ghost before = s@;
            let ghost pb = p;
            slice_swap(s, l, r - 1);
            proof {
                let sw = Seq::new(n as nat, |i: int| if i == l { (r - 1) as int } else if i == r - 1 { l as int } else { i });
                assert(is_perm(sw, n as int));
                assert(permuted(s@, before, sw));
                lemma_compose(s0, before, s@, pb, sw);
                p = Seq::new(n as nat, |i: int| pb[sw[i]]);
            }
            l += 1;
            r -= 1;
        } else {
            proof {
                if l < r {
                    assert(r - 1 == l);
                    assert(coord(s@[l as int], by_y).bit(shift as nat) != test);
                }
                assert(l == r);
            }
            break;
        }
    }
    (l, Ghost(p))
}

/// Exchanges the coordinates of every point.
fn transpose_all<U: Unsigned, T>(s: &mut [Query<U, T>])
    ensures
        final(s)@.len() == old(s)@.len(),
        forall|i: int| 0 <= i < old(s)@.len() ==> (#[trigger] final(s)@[i]) == (Query {
            x: old(s)@[i].y,
            y: old(s)@[i].x,
            data: old(s)@[i].data,
        }),
{
    let ghost s0 = s@;
    let n = s.len();
    let mut i: usize = 0;
    while i < n
        invariant
            n == s@.len(),
            s0.len() == n,
            i <= n,
            forall|j: int| 0 <= j < i ==> (#[trigger] s@[j]) == (Query { x: s0[j].y, y: s0[j].x, data: s0[j].data }),
            forall|j: int| i <= j < n ==> #[trigger] s@[j] == s0[j],
        decreases n - i,
    {
        let a = s[i].x;
        let b = s[i].y;
        s[i].x = b;
        s[i].y = a;
        i += 1;
    }
}

/// Replaces every point `(x, y)` by `(!y, !x)`.
fn reflect_all<U: Unsigned, T>(s: &mut [Query<U, T>])
    ensures
        final(s)@.len() == old(s)@.len(),
        forall|i: int| 0 <= i < old(s)@.len() ==> (#[trigger] final(s)@[i]) == (Query {
            x: old(s)@[i].y.flipped(),
            y: old(s)@[i].x.flipped(),
            data: old(s)@[i].data,
        }),
{
    let ghost s0 = s@;
    let n = s.len();
    let mut i: usize = 0;
    while i < n
        invariant
            n == s@.len(),
            s0.len() == n,
            i <= n,
            forall|j: int| 0 <= j < i ==> (#[trigger] s@[j]) == (Query {
                x: s0[j].y.flipped(),
                y: s0[j].x.flipped(),
                data: s0[j].data,
            }),
            forall|j: int| i <= j < n ==> #[trigger] s@[j] == s0[j],
        decreases n - i,
    {
        let a = s[i].x.flip();
        let b = s[i].y.flip();
        s[i].x = b;
        s[i].y = a;
        i += 1;
    }
}

/// Sorts the points of the first quadrant, which the curve runs through mirrored along the
/// diagonal.
fn sort_transposed<U: Unsigned, T>(s: &mut [Query<U, T>], k: u8) -> (p: Ghost<Seq<int>>)
    requires
        (k as u32) < U::BITS,
    ensures
        is_perm(p@, old(s)@.len() as int),
        permuted(final(s)@, old(s)@, p@),
        forall|i: int, j: int| 0 <= i < j < final(s)@.len() ==> hilbert_key(#[trigger] final(s)@[i].y, final(s)@[i].x, k as int)
            <= hilbert_key(#[trigger] final(s)@[j].y, final(s)@[j].x, k as int),
    decreases k, 1int,
{
    let ghost s0 = s@;
    transpose_all(s);
    let ghost s1 = s@;
    let p = inner(s, k);
    let ghost s2 = s@;
    transpose_all(s);
    proof {
        assert forall|i: int| 0 <= i < s@.len() implies #[trigger] s@[i] == s0[p@[i]] by {
            assert(s2[i] == s1[p@[i]]);
        }
        assert forall|i: int, j: int| 0 <= i < j < s@.len() implies hilbert_key(#[trigger] s@[i].y, s@[i].x, k as int)
            <= hilbert_key(#[trigger] s@[j].y, s@[j].x, k as int) by {
            assert(s2[i].x == s@[i].y && s2[i].y == s@[i].x);
            assert(s2[j].x == s@[j].y && s2[j].y == s@[j].x);
        }
    }
    p
}

/// Sorts the points of the last quadrant, which the curve runs through mirrored along the
/// other diagonal.
fn sort_reflected<U: Unsigned, T>(s: &mut [Query<U, T>], k: u8) -> (p: Ghost<Seq<int>>)
    requires
        (k as u32) < U::BITS,
    ensures
        is_perm(p@, old(s)@.len() as int),
        permuted(final(s)@, old(s)@, p@),
        forall|i: int, j: int| 0 <= i < j < final(s)@.len() ==> hilbert_key(
            (#[trigger] final(s)@[i]).y.flipped(),
            final(s)@[i].x.flipped(),
            k as int,
        ) <= hilbert_key((#[trigger] final(s)@[j]).y.flipped(), final(s)@[j].x.flipped(), k as int),
    decreases k, 1int,
{
    let ghost s0 = s@;
    reflect_all(s);
    let ghost s1 = s@;
    let p = inner(s, k);
    let ghost s2 = s@;
    reflect_all(s);
    proof {
        assert forall|i: int| 0 <= i < s@.len() implies #[trigger] s@[i] == s0[p@[i]] by {
            assert(s2[i] == s1[p@[i]]);
            U::lemma_flip_flip(s0[p@[i]].x);
            U::lemma_flip_flip(s0[p@[i]].y);
        }
        assert forall|i: int, j: int| 0 <= i < j < s@.len() implies hilbert_key(
            (#[trigger] s@[i]).y.flipped(),
            s@[i].x.flipped(),
            k as int,
        ) <= hilbert_key((#[trigger] s@[j]).y.flipped(), s@[j].x.flipped(), k as int) by {
            U::lemma_flip_flip(s2[i].x);
            U::lemma_flip_flip(s2[i].y);
            U::lemma_flip_flip(s2[j].x);
            U::lemma_flip_flip(s2[j].y);
        }
    }
    p
}

/// Keys along the curve through bits `0..=k` are below `4^(k+1)`.
proof fn lemma_key_bound<U: Unsigned>(x: U, y: U, k: int)
    requires
        k >= -1,
    ensures
        hilbert_key(x, y, k) < pow(4, (k + 1) as nat),
    decreases k + 1,
{
    if k < 0 {
        assert(pow(4, 0) == 1) by {
            vstd::arithmetic::power::lemma_pow0(4);
        }
    } else {
        lemma_key_bound(y, x, k - 1);
        lemma_key_bound(x, y, k - 1);
        lemma_key_bound(y.flipped(), x.flipped(), k - 1);
        vstd::arithmetic::power::lemma_pow_adds(4, k as nat, 1);
        vstd::arithmetic::power::lemma_pow1(4);
        lemma_pow_positive(4, k as nat);
        let q = quadrant(x.bit(k as nat), y.bit(k as nat));
        let e = pow(4, k as nat);
        assert(q * e + e <= 4 * e) by (nonlinear_arith)
            requires
                q <= 3,
                e > 0,
        ;
    }
}

/// Along the curve through bits `0..=k`, a point of an earlier quadrant comes first.
proof fn lemma_key_order<U: Unsigned>(ax: U, ay: U, bx: U, by: U, k: int)
    requires
        k >= 0,
        quadrant(ax.bit(k as nat), ay.bit(k as nat)) < quadrant(bx.bit(k as nat), by.bit(k as nat)),
    ensures
        hilbert_key(ax, ay, k) < hilbert_key(bx, by, k),
{
    let qa = quadrant(ax.bit(k as nat), ay.bit(k as nat));
    let qb = quadrant(bx.bit(k as nat), by.bit(k as nat));
    lemma_key_bound(ay, ax, k - 1);
    lemma_key_bound(ax, ay, k - 1);
    lemma_key_bound(ay.flipped(), ax.flipped(), k - 1);
    lemma_pow_positive(4, k as nat);
    let e = pow(4, k as nat);
    assert(qa * e + e <= qb * e) by (nonlinear_arith)
        requires
            qa < qb,
            e >= 0,
    ;
}

/// Inside one quadrant, the order along the curve is the order inside the quadrant.
proof fn lemma_key_same<U: Unsigned>(ax: U, ay: U, bx: U, by: U, k: int)
    requires
        k >= 0,
        quadrant(ax.bit(k as nat), ay.bit(k as nat)) == quadrant(bx.bit(k as nat), by.bit(k as nat)),
        quadrant(ax.bit(k as nat), ay.bit(k as nat)) == 0 ==> hilbert_key(ay, ax, k - 1) <= hilbert_key(by, bx, k - 1),
        quadrant(ax.bit(k as nat), ay.bit(k as nat)) == 3 ==> hilbert_key(ay.flipped(), ax.flipped(), k - 1)
            <= hilbert_key(by.flipped(), bx.flipped(), k - 1),
        quadrant(ax.bit(k as nat), ay.bit(k as nat)) == 1 || quadrant(ax.bit(k as nat), ay.bit(k as nat)) == 2
            ==> hilbert_key(ax, ay, k - 1) <= hilbert_key(bx, by, k - 1),
    ensures
        hilbert_key(ax, ay, k) <= hilbert_key(bx, by, k),
{
    let q = quadrant(ax.bit(k as nat), ay.bit(k as nat));
    lemma_pow_positive(4, k as nat);
    let e = pow(4, k as nat);
    assert(q * e >= 0) by (nonlinear_arith)
        requires
            e > 0,
    ;
}

/// The quadrant of a point at bit `k`.
pub open spec fn quad_of<U: Unsigned, T>(q: Query<U, T>, k: int) -> nat {
    quadrant(q.x.bit(k as nat), q.y.bit(k as nat))
}

/// Four runs, one per quadrant in order, each sorted by the position inside its quadrant, make
/// a run sorted along the curve.
proof fn lemma_merge_sorted<U: Unsigned, T>(f: Seq<Query<U, T>>, c1: int, c2: int, c3: int, k: int)
    requires
        k >= 0,
        0 <= c1 <= c2 <= c3 <= f.len(),
        forall|i: int| 0 <= i < f.len() ==> #[trigger] quad_of(f[i], k) == (if i < c1 { 0nat } else if i < c2 { 1nat } else if i < c3 { 2nat } else { 3nat }),
        forall|i: int, j: int| 0 <= i < j < c1 ==> hilbert_key(#[trigger] f[i].y, f[i].x, k - 1) <= hilbert_key(#[trigger] f[j].y, f[j].x, k - 1),
        forall|i: int, j: int| c1 <= i < j < c2 ==> hilbert_key(#[trigger] f[i].x, f[i].y, k - 1) <= hilbert_key(#[trigger] f[j].x, f[j].y, k - 1),
        forall|i: int, j: int| c2 <= i < j < c3 ==> hilbert_key(#[trigger] f[i].x, f[i].y, k - 1) <= hilbert_key(#[trigger] f[j].x, f[j].y, k - 1),
        forall|i: int, j: int| c3 <= i < j < f.len() ==> hilbert_key((#[trigger] f[i]).y.flipped(), f[i].x.flipped(), k - 1)
            <= hilbert_key((#[trigger] f[j]).y.flipped(), f[j].x.flipped(), k - 1),
    ensures
        sorted_along(f, k),
{
    assert forall|i: int, j: int| 0 <= i < j < f.len() implies hilbert_key(#[trigger] f[i].x, f[i].y, k) <= hilbert_key(
        #[trigger] f[j].x,
        f[j].y,
        k,
    ) by {
        let qi = quad_of(f[i], k);
        let qj = quad_of(f[j], k);
        assert(qi <= qj);
        if qi < qj {
            lemma_key_order(f[i].x, f[i].y, f[j].x, f[j].y, k);
        } else {
            if qi == 0 {
                assert(hilbert_key(f[i].y, f[i].x, k - 1) <= hilbert_key(f[j].y, f[j].x, k - 1));
            } else if qi == 1 {
                assert(i < c2 && j < c2);
                assert(hilbert_key(f[i].x, f[i].y, k - 1) <= hilbert_key(f[j].x, f[j].y, k - 1));
            } else if qi == 2 {
                assert(c2 <= i && j < c3);
                assert(hilbert_key(f[i].x, f[i].y, k - 1) <= hilbert_key(f[j].x, f[j].y, k - 1));
            } else {
                assert(hilbert_key(f[i].y.flipped(), f[i].x.flipped(), k - 1) <= hilbert_key(f[j].y.flipped(), f[j].x.flipped(), k - 1));
            }
            lemma_key_same(f[i].x, f[i].y, f[j].x, f[j].y, k);
        }
    }
}

/// Sorts the points along the curve through bits `0..=order`.
fn inner<U: Unsigned, T>(s: &mut [Query<U, T>], order: u8) -> (p: Ghost<Seq<int>>)
    requires
        (order as u32) < U::BITS,
    ensures
        is_perm(p@, old(s)@.len() as int),
        permuted(final(s)@, old(s)@, p@),
        sorted_along(final(s)@, order as int),
    decreases order, 0int,
{
    let ghost s0 = s@;
    let n = s.len();
    if n <= 1 {
        proof {
            lemma_identity(s0);
        }
        return Ghost(identity(n as nat));
    }
    let (m, Ghost(p1)) = partition(s, true, order, false);
    let ghost s1 = s@;
    let (left, right) = s.split_at_mut(m);
    let ghost l1 = left@;
    let ghost r1 = right@;
    // the points with the `y` bit clear, then those with it set
    let (m1, Ghost(p2)) = partition(left, false, order, false);
    let ghost l2 = left@;
    let (q0, q1) = left.split_at_mut(m1);
    let ghost b0 = q0@;
    let ghost b1 = q1@;
    let ghost mut pq0 = identity(b0.len());
    let ghost mut pq1 = identity(b1.len());
    if order > 0 {
        let Ghost(t0) = sort_transposed(q0, order - 1);
        let Ghost(t1) = inner(q1, order - 1);
        proof {
            pq0 = t0;
            pq1 = t1;
        }
    } else {
        proof {
            lemma_identity(b0);
            lemma_identity(b1);
        }
    }
    let ghost a0 = q0@;
    let ghost a1 = q1@;
    let (m2, Ghost(p3)) = partition(right, false, order, true);
    let ghost r2 = right@;
    let (q2, q3) = right.split_at_mut(m2);
    let ghost b2 = q2@;
    let ghost b3 = q3@;
    let ghost mut pq2 = identity(b2.len());
    let ghost mut pq3 = identity(b3.len());
    if order > 0 {
        let Ghost(t2) = inner(q2, order - 1);
        let Ghost(t3) = sort_reflected(q3, order - 1);
        proof {
            pq2 = t2;
            pq3 = t3;
        }
    } else {
        proof {
            lemma_identity(b2);
            lemma_identity(b3);
        }
    }
    let ghost a2 = q2@;
    let ghost a3 = q3@;
    let ghost k = order as int;
    let ghost f = (a0 + a1) + (a2 + a3);
    let ghost mut pf: Seq<int> = Seq::empty();
    proof {
        // where the points came from
        assert(l1 == s1.subrange(0, m as int));
        assert(r1 == s1.subrange(m as int, n as int));
        assert(s1 =~= l1 + r1);
        assert(l2 =~= b0 + b1);
        assert(r2 =~= b2 + b3);
        lemma_concat(b0, a0, pq0, b1, a1, pq1);
        lemma_concat(b2, a2, pq2, b3, a3, pq3);
        let pl0 = pq0 + pq1.map_values(|v: int| v + b0.len());
        let pr0 = pq2 + pq3.map_values(|v: int| v + b2.len());
        lemma_compose(l1, l2, a0 + a1, p2, pl0);
        lemma_compose(r1, r2, a2 + a3, p3, pr0);
        let pl = Seq::new((a0 + a1).len(), |i: int| p2[pl0[i]]);
        let pr = Seq::new((a2 + a3).len(), |i: int| p3[pr0[i]]);
        lemma_concat(l1, a0 + a1, pl, r1, a2 + a3, pr);
        let plr = pl + pr.map_values(|v: int| v + l1.len());
        lemma_compose(s0, s1, f, p1, plr);
        pf = Seq::new(f.len(), |i: int| p1[plr[i]]);
        // the quadrant of every point
        let c1 = a0.len() as int;
        let c2 = c1 + a1.len();
        let c3 = c2 + a2.len();
        assert forall|i: int| 0 <= i < f.len() implies #[trigger] quad_of(f[i], k) == (if i < c1 { 0nat } else if i < c2 {
            1nat
        } else if i < c3 {
            2nat
        } else {
            3nat
        }) by {
            if i < c2 {
                assert(f[i] == (a0 + a1)[i]);
                assert((a0 + a1)[i] == l1[pl[i]]);
                assert(l1[pl[i]] == s1[pl[i]]);
                assert(s1[pl[i]].y.bit(k as nat) == false);
                assert((a0 + a1)[i] == (b0 + b1)[pl0[i]]);
                assert((b0 + b1)[pl0[i]] == l2[pl0[i]]);
                if i < c1 {
                    assert(pl0[i] == pq0[i]);
                    assert(pq0[i] < b0.len());
                } else {
                    assert(pl0[i] == pq1[i - c1] + b0.len());
                }
            } else {
                let i2 = i - c2;
                assert(f[i] == (a2 + a3)[i2]);
                assert((a2 + a3)[i2] == r1[pr[i2]]);
                assert(r1[pr[i2]] == s1[pr[i2] + m]);
                assert(s1[pr[i2] + m].y.bit(k as nat) != false);
                assert((a2 + a3)[i2] == (b2 + b3)[pr0[i2]]);
                assert((b2 + b3)[pr0[i2]] == r2[pr0[i2]]);
                if i < c3 {
                    assert(pr0[i2] == pq2[i2]);
                    assert(pq2[i2] < b2.len());
                } else {
                    assert(pr0[i2] == pq3[i2 - a2.len()] + b2.len());
                }
            }
        }
        // the order inside each quadrant
        assert forall|i: int, j: int| 0 <= i < j < c1 implies hilbert_key(#[trigger] f[i].y, f[i].x, k - 1) <= hilbert_key(
            #[trigger] f[j].y,
            f[j].x,
            k - 1,
        ) by {
            assert(f[i] == a0[i] && f[j] == a0[j]);
        }
        assert forall|i: int, j: int| c1 <= i < j < c2 implies hilbert_key(#[trigger] f[i].x, f[i].y, k - 1) <= hilbert_key(
            #[trigger] f[j].x,
            f[j].y,
            k - 1,
        ) by {
            assert(f[i] == a1[i - c1] && f[j] == a1[j - c1]);
        }
        assert forall|i: int, j: int| c2 <= i < j < c3 implies hilbert_key(#[trigger] f[i].x, f[i].y, k - 1) <= hilbert_key(
            #[trigger] f[j].x,
            f[j].y,
            k - 1,
        ) by {
            assert(f[i] == a2[i - c2] && f[j] == a2[j - c2]);
        }
        assert forall|i: int, j: int| c3 <= i < j < f.len() implies hilbert_key((#[trigger] f[i]).y.flipped(), f[i].x.flipped(), k - 1)
            <= hilbert_key((#[trigger] f[j]).y.flipped(), f[j].x.flipped(), k - 1) by {
            assert(f[i] == a3[i - c3] && f[j] == a3[j - c3]);
        }
        lemma_merge_sorted(f, c1, c2, c3, k);
    }
    Ghost(pf)
}

/// Sorts the points along the Hilbert curve through the smallest square of bits that holds them
/// all. No coordinate may use the highest bit of its type.
pub fn hilbert_sort_2d<U: Unsigned, T>(slice: &mut [Query<U, T>])
    requires
        forall|i: int| 0 <= i < old(slice)@.len() ==> !(#[trigger] old(slice)@[i]).x.bit((U::BITS - 1) as nat)
            && !old(slice)@[i].y.bit((U::BITS - 1) as nat),
    ensures
        exists|p: Seq<int>| is_perm(p, old(slice)@.len() as int) && permuted(final(slice)@, old(slice)@, p),
        exists|w: nat| is_level(old(slice)@, w) && sorted_along(final(slice)@, w as int),
{
    let ghost s0 = slice@;
    proof {
        U::lemma_bits_range();
    }
    let n = slice.len();
    let mut order: u32 = 0;
    let ghost mut wit: int = 0;
    let mut i: usize = 0;
    while i < n
        invariant
            n == slice@.len(),
            s0 == slice@,
            8 <= U::BITS <= 128,
            i <= n,
            order < U::BITS,
            forall|j: int| 0 <= j < n ==> !(#[trigger] s0[j]).x.bit((U::BITS - 1) as nat) && !s0[j].y.bit((U::BITS - 1) as nat),
            forall|j: int, b: nat| 0 <= j < i && order <= b ==> #[trigger] clear_at(s0[j], b),
            order > 0 ==> 0 <= wit < i && !clear_at(s0[wit], (order - 1) as nat),
        decreases n - i,
    {
        let wx = slice[i].x.bit_width();
        let wy = slice[i].y.bit_width();
        let ghost old_order = order;
        proof {
            if wx >= U::BITS {
                assert(s0[i as int].x.bit((wx - 1) as nat));
            }
            if wy >= U::BITS {
                assert(s0[i as int].y.bit((wy - 1) as nat));
            }
        }
        if wx > order {
            order = wx;
        }
        if wy > order {
            order = wy;
        }
        proof {
            let qi = s0[i as int];
            assert forall|j: int, b: nat| 0 <= j < i + 1 && order <= b implies #[trigger] clear_at(s0[j], b) by {
                if j == i {
                    assert(!qi.x.bit(b));
                    assert(!qi.y.bit(b));
                } else {
                    assert(old_order <= b);
                }
            }
            if order > 0 && order != old_order {
                if order == wy {
                    assert(qi.y.bit((order - 1) as nat));
                } else {
                    assert(qi.x.bit((order - 1) as nat));
                }
                wit = i as int;
            }
        }
        i += 1;
    }
    proof {
        assert(bounded_by(s0, order as nat));
        if order > 0 {
            assert(!clear_at(s0[wit], (order - 1) as nat));
        }
        assert(is_level(s0, order as nat));
    }
    let p = inner(slice, order as u8);
    proof {
        assert(is_perm(p@, s0.len() as int) && permuted(slice@, s0, p@));
        assert(is_level(s0, order as nat) && sorted_along(slice@, order as int));
    }
}

} // verus!
