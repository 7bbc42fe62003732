//! Algebraic structures used to parameterise the data structures of this crate.

use vstd::prelude::*;

verus! {

/// A set with an associative binary operation.
pub trait SemiGroup {
    type Value;

    /// The mathematical operation.
    spec fn spec_op(lhs: Self::Value, rhs: Self::Value) -> Self::Value;

    /// The operation is associative.
    proof fn lemma_assoc(a: Self::Value, b: Self::Value, c: Self::Value)
        ensures
            Self::spec_op(Self::spec_op(a, b), c) == Self::spec_op(a, Self::spec_op(b, c)),
    ;

    /// Computes the operation.
    fn op(lhs: Self::Value, rhs: Self::Value) -> (r: Self::Value)
        ensures
            r == Self::spec_op(lhs, rhs),
    ;
}

/// A semigroup with a two-sided identity element.
pub trait Identity: SemiGroup {
    spec fn spec_id() -> Self::Value;

    proof fn lemma_id(a: Self::Value)
        ensures
            Self::spec_op(Self::spec_id(), a) == a,
            Self::spec_op(a, Self::spec_id()) == a,
    ;

    fn id() -> (r: Self::Value)
        ensures
            r == Self::spec_id(),
    ;
}

/// A semigroup with an identity.
pub trait Monoid: SemiGroup + Identity {}

impl<T: SemiGroup + Identity> Monoid for T {}

pub trait Inverse: Monoid {
    spec fn spec_inv(x: Self::Value) -> Self::Value;

    proof fn lemma_inv(a: Self::Value)
        ensures
            Self::spec_op(Self::spec_inv(a), a) == Self::spec_id(),
            Self::spec_op(a, Self::spec_inv(a)) == Self::spec_id(),
    ;

    fn inv(x: Self::Value) -> (r: Self::Value)
        ensures
            r == Self::spec_inv(x),
    ;
}

/// A monoid in which every element has an inverse.
pub trait Group: Monoid + Inverse {}

impl<T: Monoid + Inverse> Group for T {}

/// The operation is idempotent.
pub trait Idempotent: SemiGroup {
    proof fn lemma_idem(a: Self::Value)
        ensures
            Self::spec_op(a, a) == a,
    ;
}

/// The operation is commutative.
pub trait Commutative: SemiGroup {
    proof fn lemma_comm(a: Self::Value, b: Self::Value)
        ensures
            Self::spec_op(a, b) == Self::spec_op(b, a),
    ;
}

/// Folds a sequence from the left with the monoid operation.
pub open spec fn fold<T: Monoid>(s: Seq<T::Value>) -> T::Value
    decreases s.len(),
{
    if s.len() == 0 {
        T::spec_id()
    } else {
        T::spec_op(fold::<T>(s.drop_last()), s.last())
    }
}

/// Folding a concatenation is the operation of the two folds.
pub proof fn lemma_fold_concat<T: Monoid>(a: Seq<T::Value>, b: Seq<T::Value>)
    ensures
        fold::<T>(a + b) == T::spec_op(fold::<T>(a), fold::<T>(b)),
    decreases b.len(),
{
    if b.len() == 0 {
        assert(a + b =~= a);
        T::lemma_id(fold::<T>(a));
    } else {
        lemma_fold_concat::<T>(a, b.drop_last());
        assert((a + b).drop_last() =~= a + b.drop_last());
        T::lemma_assoc(fold::<T>(a), fold::<T>(b.drop_last()), b.last());
    }
}

/// A one-element sequence folds to its element.
pub proof fn lemma_fold_single<T: Monoid>(x: T::Value)
    ensures
        fold::<T>(seq![x]) == x,
{
    assert(seq![x].drop_last() =~= Seq::<T::Value>::empty());
    reveal_with_fuel(fold, 2);
    T::lemma_id(x);
}

/// A sequence of identities folds to the identity.
pub proof fn lemma_fold_ids<T: Monoid>(s: Seq<T::Value>)
    requires
        forall|i: int| 0 <= i < s.len() ==> #[trigger] s[i] == T::spec_id(),
    ensures
        fold::<T>(s) == T::spec_id(),
    decreases s.len(),
{
    if s.len() > 0 {
        lemma_fold_ids::<T>(s.drop_last());
        T::lemma_id(T::spec_id());
    }
}


/// Folds a non-empty sequence from the left with the semigroup operation.
pub open spec fn fold1<T: SemiGroup>(s: Seq<T::Value>) -> T::Value
    decreases s.len(),
{
    if s.len() <= 1 {
        s[0]
    } else {
        T::spec_op(fold1::<T>(s.drop_last()), s.last())
    }
}

/// Folding a concatenation of non-empty sequences is the operation of the two folds.
pub proof fn lemma_fold1_concat<T: SemiGroup>(a: Seq<T::Value>, b: Seq<T::Value>)
    requires
        a.len() > 0,
        b.len() > 0,
    ensures
        fold1::<T>(a + b) == T::spec_op(fold1::<T>(a), fold1::<T>(b)),
    decreases b.len(),
{
    if b.len() == 1 {
        assert((a + b).drop_last() =~= a);
    } else {
        lemma_fold1_concat::<T>(a, b.drop_last());
        assert((a + b).drop_last() =~= a + b.drop_last());
        T::lemma_assoc(fold1::<T>(a), fold1::<T>(b.drop_last()), b.last());
    }
}

/// Splitting `s[i..k]` at `j` splits its fold.
pub proof fn lemma_fold1_split<T: SemiGroup>(s: Seq<T::Value>, i: int, j: int, k: int)
    requires
        0 <= i < j < k <= s.len(),
    ensures
        fold1::<T>(s.subrange(i, k)) == T::spec_op(
            fold1::<T>(s.subrange(i, j)),
            fold1::<T>(s.subrange(j, k)),
        ),
{
    assert(s.subrange(i, k) =~= s.subrange(i, j) + s.subrange(j, k));
    lemma_fold1_concat::<T>(s.subrange(i, j), s.subrange(j, k));
}

/// Under an idempotent operation, two overlapping ranges `s[i..k]` and `s[j..m]` with
/// `i <= j < k <= m` combine to the fold of `s[i..m]`.
pub proof fn lemma_fold1_overlap<T: SemiGroup + Idempotent>(s: Seq<T::Value>, i: int, j: int, k: int, m: int)
    requires
        0 <= i <= j < k <= m <= s.len(),
    ensures
        T::spec_op(fold1::<T>(s.subrange(i, k)), fold1::<T>(s.subrange(j, m))) == fold1::<T>(
            s.subrange(i, m),
        ),
{
    let mid = fold1::<T>(s.subrange(j, k));
    // (A·M)·(M·B) == A·M·B
    if i < j {
        lemma_fold1_split::<T>(s, i, j, k);
        let a = fold1::<T>(s.subrange(i, j));
        if k < m {
            lemma_fold1_split::<T>(s, j, k, m);
            lemma_fold1_split::<T>(s, i, k, m);
            let b = fold1::<T>(s.subrange(k, m));
            T::lemma_assoc(T::spec_op(a, mid), mid, b);
            T::lemma_assoc(a, mid, mid);
            T::lemma_idem(mid);
        } else {
            T::lemma_assoc(a, mid, mid);
            T::lemma_idem(mid);
        }
    } else {
        if k < m {
            lemma_fold1_split::<T>(s, j, k, m);
            let b = fold1::<T>(s.subrange(k, m));
            T::lemma_assoc(mid, mid, b);
            T::lemma_idem(mid);
        } else {
            T::lemma_idem(mid);
        }
    }
}

/// The minimum of two totally ordered values; the identity is the type's largest value.
pub struct Min<T>(core::marker::PhantomData<T>);

/// The maximum of two totally ordered values; the identity is the type's smallest value.
pub struct Max<T>(core::marker::PhantomData<T>);

/// Addition of primitive integers, wrapping around on overflow as two's complement does.
pub struct Additive<T>(core::marker::PhantomData<T>);

impl SemiGroup for Min<u32> {
    type Value = u32;

    open spec fn spec_op(lhs: u32, rhs: u32) -> u32 {
        if lhs <= rhs { lhs } else { rhs }
    }

    proof fn lemma_assoc(a: u32, b: u32, c: u32) {
    }

    fn op(lhs: u32, rhs: u32) -> (r: u32) {
        if lhs <= rhs { lhs } else { rhs }
    }
}

impl Identity for Min<u32> {
    open spec fn spec_id() -> u32 {
        u32::MAX
    }

    proof fn lemma_id(a: u32) {
    }

    fn id() -> (r: u32) {
        u32::MAX
    }
}

impl Idempotent for Min<u32> {
    proof fn lemma_idem(a: u32) {
    }
}

impl Commutative for Min<u32> {
    proof fn lemma_comm(a: u32, b: u32) {
    }
}

impl SemiGroup for Max<u32> {
    type Value = u32;

    open spec fn spec_op(lhs: u32, rhs: u32) -> u32 {
        if lhs >= rhs { lhs } else { rhs }
    }

    proof fn lemma_assoc(a: u32, b: u32, c: u32) {
    }

    fn op(lhs: u32, rhs: u32) -> (r: u32) {
        if lhs >= rhs { lhs } else { rhs }
    }
}

impl Identity for Max<u32> {
    open spec fn spec_id() -> u32 {
        u32::MIN
    }

    proof fn lemma_id(a: u32) {
    }

    fn id() -> (r: u32) {
        u32::MIN
    }
}

impl Idempotent for Max<u32> {
    proof fn lemma_idem(a: u32) {
    }
}

impl Commutative for Max<u32> {
    proof fn lemma_comm(a: u32, b: u32) {
    }
}

impl SemiGroup for Additive<u32> {
    type Value = u32;

    open spec fn spec_op(lhs: u32, rhs: u32) -> u32 {
        vstd::wrapping::u32_specs::wrapping_add(lhs, rhs)
    }

    proof fn lemma_assoc(a: u32, b: u32, c: u32) {
    }

    fn op(lhs: u32, rhs: u32) -> (r: u32) {
        lhs.wrapping_add(rhs)
    }
}

impl Identity for Additive<u32> {
    open spec fn spec_id() -> u32 {
        0
    }

    proof fn lemma_id(a: u32) {
    }

    fn id() -> (r: u32) {
        0
    }
}

impl Inverse for Additive<u32> {
    open spec fn spec_inv(x: u32) -> u32 {
        vstd::wrapping::u32_specs::wrapping_sub(0, x)
    }

    proof fn lemma_inv(a: u32) {
    }

    fn inv(x: u32) -> (r: u32) {
        (0 as u32).wrapping_sub(x)
    }
}

impl Commutative for Additive<u32> {
    proof fn lemma_comm(a: u32, b: u32) {
    }
}

impl SemiGroup for Min<u64> {
    type Value = u64;

    open spec fn spec_op(lhs: u64, rhs: u64) -> u64 {
        if lhs <= rhs { lhs } else { rhs }
    }

    proof fn lemma_assoc(a: u64, b: u64, c: u64) {
    }

    fn op(lhs: u64, rhs: u64) -> (r: u64) {
        if lhs <= rhs { lhs } else { rhs }
    }
}

impl Identity for Min<u64> {
    open spec fn spec_id() -> u64 {
        u64::MAX
    }

    proof fn lemma_id(a: u64) {
    }

    fn id() -> (r: u64) {
        u64::MAX
    }
}

impl Idempotent for Min<u64> {
    proof fn lemma_idem(a: u64) {
    }
}

impl Commutative for Min<u64> {
    proof fn lemma_comm(a: u64, b: u64) {
    }
}

impl SemiGroup for Max<u64> {
    type Value = u64;

    open spec fn spec_op(lhs: u64, rhs: u64) -> u64 {
        if lhs >= rhs { lhs } else { rhs }
    }

    proof fn lemma_assoc(a: u64, b: u64, c: u64) {
    }

    fn op(lhs: u64, rhs: u64) -> (r: u64) {
        if lhs >= rhs { lhs } else { rhs }
    }
}

impl Identity for Max<u64> {
    open spec fn spec_id() -> u64 {
        u64::MIN
    }

    proof fn lemma_id(a: u64) {
    }

    fn id() -> (r: u64) {
        u64::MIN
    }
}

impl Idempotent for Max<u64> {
    proof fn lemma_idem(a: u64) {
    }
}

impl Commutative for Max<u64> {
    proof fn lemma_comm(a: u64, b: u64) {
    }
}

impl SemiGroup for Additive<u64> {
    type Value = u64;

    open spec fn spec_op(lhs: u64, rhs: u64) -> u64 {
        vstd::wrapping::u64_specs::wrapping_add(lhs, rhs)
    }

    proof fn lemma_assoc(a: u64, b: u64, c: u64) {
    }

    fn op(lhs: u64, rhs: u64) -> (r: u64) {
        lhs.wrapping_add(rhs)
    }
}

impl Identity for Additive<u64> {
    open spec fn spec_id() -> u64 {
        0
    }

    proof fn lemma_id(a: u64) {
    }

    fn id() -> (r: u64) {
        0
    }
}

impl Inverse for Additive<u64> {
    open spec fn spec_inv(x: u64) -> u64 {
        vstd::wrapping::u64_specs::wrapping_sub(0, x)
    }

    proof fn lemma_inv(a: u64) {
    }

    fn inv(x: u64) -> (r: u64) {
        (0 as u64).wrapping_sub(x)
    }
}

impl Commutative for Additive<u64> {
    proof fn lemma_comm(a: u64, b: u64) {
    }
}

impl SemiGroup for Min<usize> {
    type Value = usize;

    open spec fn spec_op(lhs: usize, rhs: usize) -> usize {
        if lhs <= rhs { lhs } else { rhs }
    }

    proof fn lemma_assoc(a: usize, b: usize, c: usize) {
    }

    fn op(lhs: usize, rhs: usize) -> (r: usize) {
        if lhs <= rhs { lhs } else { rhs }
    }
}

impl Identity for Min<usize> {
    open spec fn spec_id() -> usize {
        usize::MAX
    }

    proof fn lemma_id(a: usize) {
    }

    fn id() -> (r: usize) {
        usize::MAX
    }
}

impl Idempotent for Min<usize> {
    proof fn lemma_idem(a: usize) {
    }
}

impl Commutative for Min<usize> {
    proof fn lemma_comm(a: usize, b: usize) {
    }
}

impl SemiGroup for Max<usize> {
    type Value = usize;

    open spec fn spec_op(lhs: usize, rhs: usize) -> usize {
        if lhs >= rhs { lhs } else { rhs }
    }

    proof fn lemma_assoc(a: usize, b: usize, c: usize) {
    }

    fn op(lhs: usize, rhs: usize) -> (r: usize) {
        if lhs >= rhs { lhs } else { rhs }
    }
}

impl Identity for Max<usize> {
    open spec fn spec_id() -> usize {
        usize::MIN
    }

    proof fn lemma_id(a: usize) {
    }

    fn id() -> (r: usize) {
        usize::MIN
    }
}

impl Idempotent for Max<usize> {
    proof fn lemma_idem(a: usize) {
    }
}

impl Commutative for Max<usize> {
    proof fn lemma_comm(a: usize, b: usize) {
    }
}

impl SemiGroup for Additive<usize> {
    type Value = usize;

    open spec fn spec_op(lhs: usize, rhs: usize) -> usize {
        vstd::wrapping::usize_specs::wrapping_add(lhs, rhs)
    }

    proof fn lemma_assoc(a: usize, b: usize, c: usize) {
    }

    fn op(lhs: usize, rhs: usize) -> (r: usize) {
        lhs.wrapping_add(rhs)
    }
}

impl Identity for Additive<usize> {
    open spec fn spec_id() -> usize {
        0
    }

    proof fn lemma_id(a: usize) {
    }

    fn id() -> (r: usize) {
        0
    }
}

impl Inverse for Additive<usize> {
    open spec fn spec_inv(x: usize) -> usize {
        vstd::wrapping::usize_specs::wrapping_sub(0, x)
    }

    proof fn lemma_inv(a: usize) {
    }

    fn inv(x: usize) -> (r: usize) {
        (0 as usize).wrapping_sub(x)
    }
}

impl Commutative for Additive<usize> {
    proof fn lemma_comm(a: usize, b: usize) {
    }
}

impl SemiGroup for Min<i32> {
    type Value = i32;

    open spec fn spec_op(lhs: i32, rhs: i32) -> i32 {
        if lhs <= rhs { lhs } else { rhs }
    }

    proof fn lemma_assoc(a: i32, b: i32, c: i32) {
    }

    fn op(lhs: i32, rhs: i32) -> (r: i32) {
        if lhs <= rhs { lhs } else { rhs }
    }
}

impl Identity for Min<i32> {
    open spec fn spec_id() -> i32 {
        i32::MAX
    }

    proof fn lemma_id(a: i32) {
    }

    fn id() -> (r: i32) {
        i32::MAX
    }
}

impl Idempotent for Min<i32> {
    proof fn lemma_idem(a: i32) {
    }
}

impl Commutative for Min<i32> {
    proof fn lemma_comm(a: i32, b: i32) {
    }
}

impl SemiGroup for Max<i32> {
    type Value = i32;

    open spec fn spec_op(lhs: i32, rhs: i32) -> i32 {
        if lhs >= rhs { lhs } else { rhs }
    }

    proof fn lemma_assoc(a: i32, b: i32, c: i32) {
    }

    fn op(lhs: i32, rhs: i32) -> (r: i32) {
        if lhs >= rhs { lhs } else { rhs }
    }
}

impl Identity for Max<i32> {
    open spec fn spec_id() -> i32 {
        i32::MIN
    }

    proof fn lemma_id(a: i32) {
    }

    fn id() -> (r: i32) {
        i32::MIN
    }
}

impl Idempotent for Max<i32> {
    proof fn lemma_idem(a: i32) {
    }
}

impl Commutative for Max<i32> {
    proof fn lemma_comm(a: i32, b: i32) {
    }
}

impl SemiGroup for Additive<i32> {
    type Value = i32;

    open spec fn spec_op(lhs: i32, rhs: i32) -> i32 {
        vstd::wrapping::i32_specs::wrapping_add(lhs, rhs)
    }

    proof fn lemma_assoc(a: i32, b: i32, c: i32) {
    }

    fn op(lhs: i32, rhs: i32) -> (r: i32) {
        lhs.wrapping_add(rhs)
    }
}

impl Identity for Additive<i32> {
    open spec fn spec_id() -> i32 {
        0
    }

    proof fn lemma_id(a: i32) {
    }

    fn id() -> (r: i32) {
        0
    }
}

impl Inverse for Additive<i32> {
    open spec fn spec_inv(x: i32) -> i32 {
        vstd::wrapping::i32_specs::wrapping_sub(0, x)
    }

    proof fn lemma_inv(a: i32) {
    }

    fn inv(x: i32) -> (r: i32) {
        (0 as i32).wrapping_sub(x)
    }
}

impl Commutative for Additive<i32> {
    proof fn lemma_comm(a: i32, b: i32) {
    }
}

impl SemiGroup for Min<i64> {
    type Value = i64;

    open spec fn spec_op(lhs: i64, rhs: i64) -> i64 {
        if lhs <= rhs { lhs } else { rhs }
    }

    proof fn lemma_assoc(a: i64, b: i64, c: i64) {
    }

    fn op(lhs: i64, rhs: i64) -> (r: i64) {
        if lhs <= rhs { lhs } else { rhs }
    }
}

impl Identity for Min<i64> {
    open spec fn spec_id() -> i64 {
        i64::MAX
    }

    proof fn lemma_id(a: i64) {
    }

    fn id() -> (r: i64) {
        i64::MAX
    }
}

impl Idempotent for Min<i64> {
    proof fn lemma_idem(a: i64) {
    }
}

impl Commutative for Min<i64> {
    proof fn lemma_comm(a: i64, b: i64) {
    }
}

impl SemiGroup for Max<i64> {
    type Value = i64;

    open spec fn spec_op(lhs: i64, rhs: i64) -> i64 {
        if lhs >= rhs { lhs } else { rhs }
    }

    proof fn lemma_assoc(a: i64, b: i64, c: i64) {
    }

    fn op(lhs: i64, rhs: i64) -> (r: i64) {
        if lhs >= rhs { lhs } else { rhs }
    }
}

impl Identity for Max<i64> {
    open spec fn spec_id() -> i64 {
        i64::MIN
    }

    proof fn lemma_id(a: i64) {
    }

    fn id() -> (r: i64) {
        i64::MIN
    }
}

impl Idempotent for Max<i64> {
    proof fn lemma_idem(a: i64) {
    }
}

impl Commutative for Max<i64> {
    proof fn lemma_comm(a: i64, b: i64) {
    }
}

impl SemiGroup for Additive<i64> {
    type Value = i64;

    open spec fn spec_op(lhs: i64, rhs: i64) -> i64 {
        vstd::wrapping::i64_specs::wrapping_add(lhs, rhs)
    }

    proof fn lemma_assoc(a: i64, b: i64, c: i64) {
    }

    fn op(lhs: i64, rhs: i64) -> (r: i64) {
        lhs.wrapping_add(rhs)
    }
}

impl Identity for Additive<i64> {
    open spec fn spec_id() -> i64 {
        0
    }

    proof fn lemma_id(a: i64) {
    }

    fn id() -> (r: i64) {
        0
    }
}

impl Inverse for Additive<i64> {
    open spec fn spec_inv(x: i64) -> i64 {
        vstd::wrapping::i64_specs::wrapping_sub(0, x)
    }

    proof fn lemma_inv(a: i64) {
    }

    fn inv(x: i64) -> (r: i64) {
        (0 as i64).wrapping_sub(x)
    }
}

impl Commutative for Additive<i64> {
    proof fn lemma_comm(a: i64, b: i64) {
    }
}

impl SemiGroup for () {
    type Value = ();

    open spec fn spec_op(lhs: (), rhs: ()) -> () {
        ()
    }

    proof fn lemma_assoc(a: (), b: (), c: ()) {
    }

    fn op(lhs: (), rhs: ()) -> (r: ()) {
        ()
    }
}

impl Identity for () {
    open spec fn spec_id() -> () {
        ()
    }

    proof fn lemma_id(a: ()) {
    }

    fn id() -> (r: ()) {
        ()
    }
}

impl Inverse for () {
    open spec fn spec_inv(x: ()) -> () {
        ()
    }

    proof fn lemma_inv(a: ()) {
    }

    fn inv(x: ()) -> (r: ()) {
        ()
    }
}

impl Commutative for () {
    proof fn lemma_comm(a: (), b: ()) {
    }
}

impl Idempotent for () {
    proof fn lemma_idem(a: ()) {
    }
}

} // verus!
