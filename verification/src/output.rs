//! Decimal formatting of integers.

use vstd::prelude::*;
use vstd::string::StringSliceAdditionalSpecFns;
use crate::from_bytes::{FromBytes, all_digits, digits_value, unsigned_value, signed_value, unsigned_in_range, signed_in_range};

verus! {

/// The decimal digits of `n`, most significant first, without leading zeros.
pub open spec fn decimal(n: nat) -> Seq<u8>
    decreases n,
{
    if n < 10 {
        seq![(48 + n) as u8]
    } else {
        decimal(n / 10).push((48 + n % 10) as u8)
    }
}

/// The decimal representation of `v`, with a leading `-` when it is negative.
pub open spec fn signed_decimal(v: int) -> Seq<u8> {
    if v < 0 {
        seq![45u8] + decimal((-v) as nat)
    } else {
        decimal(v as nat)
    }
}

/// The characters whose codes are the bytes of `s`.
pub open spec fn ascii_chars(s: Seq<u8>) -> Seq<char> {
    s.map_values(|b: u8| b as char)
}

/// Whether every byte of `s` is ASCII.
pub open spec fn is_ascii_bytes(s: Seq<u8>) -> bool {
    forall|i: int| 0 <= i < s.len() ==> #[trigger] s[i] < 128
}

/// Decimal digits are ASCII.
proof fn lemma_decimal_ascii(n: nat)
    ensures
        is_ascii_bytes(decimal(n)),
        decimal(n).len() >= 1,
    decreases n,
{
    if n >= 10 {
        lemma_decimal_ascii(n / 10);
    }
}

/// Appends the decimal digits of `n` to `out`.
fn push_decimal(out: &mut Vec<u8>, n: u128)
    ensures
        final(out)@ == old(out)@ + decimal(n as nat),
    decreases n,
{
    if n >= 10 {
        push_decimal(out, n / 10);
    }
    let ghost mid = out@;
    out.push((48 + n % 10) as u8);
    proof {
        if n >= 10 {
            assert(mid + seq![(48 + n % 10) as u8] =~= mid.push((48 + n % 10) as u8));
            assert(old(out)@ + decimal(n as nat) =~= old(out)@ + decimal((n / 10) as nat).push(
                (48 + n % 10) as u8,
            ));
        } else {
            assert(old(out)@ + decimal(n as nat) =~= old(out)@.push((48 + n) as u8));
        }
    }
}

/// `String::from_utf8`: a byte below 128 is a one-byte UTF-8 sequence, so the call succeeds
/// and the string holds, in order, the characters whose codes are the bytes.
#[verifier::external_body]
fn string_from_ascii(bytes: Vec<u8>) -> (s: String)
    requires
        is_ascii_bytes(bytes@),
    ensures
        s@ == ascii_chars(bytes@),
{
    String::from_utf8(bytes).unwrap()
}

/// Scratch space for formatting integers.
pub struct IntBuffer {
    buf: Vec<u8>,
}

impl IntBuffer {
    /// The digits of the last number formatted in the buffer (none before the first).
    pub closed spec fn digits(&self) -> Seq<u8> {
        self.buf@
    }

    pub fn new() -> (r: Self)
        ensures
            r.digits() == Seq::<u8>::empty(),
    {
        IntBuffer { buf: Vec::new() }
    }

    /// Formats `n` in decimal.
    pub fn format<T: BufFormat>(&mut self, n: T) -> (r: String)
        ensures
            r@ == ascii_chars(n.spec_decimal()),
    {
        n.format(self)
    }

    /// Appends the decimal forms of the items of `iter` to `buf`, separated by `sep`.
    pub fn write_iter<T: BufFormat + Copy>(
        &mut self,
        buf: &mut Vec<u8>,
        iter: Vec<T>,
        sep: &str,
    ) -> (r: Result<(), ()>)
        ensures
            r is Ok,
            final(buf)@ == old(buf)@ + joined(iter@, sep.spec_bytes()),
    {
        let sep_b = sep.as_bytes();
        let mut i: usize = 0;
        while i < iter.len()
            invariant
                i <= iter@.len(),
                sep_b@ == sep.spec_bytes(),
                buf@ == old(buf)@ + joined(iter@.take(i as int), sep.spec_bytes()),
            decreases iter@.len() - i,
        {
            let ghost before = buf@;
            if i > 0 {
                append_bytes(buf, sep_b);
            }
            iter[i].write_decimal(buf);
            proof {
                let t = iter@.take(i + 1);
                assert(t.drop_last() =~= iter@.take(i as int));
                if i == 0 {
                    assert(joined(iter@.take(0), sep.spec_bytes()) =~= Seq::<u8>::empty());
                    assert(buf@ =~= old(buf)@ + joined(t, sep.spec_bytes()));
                } else {
                    assert(buf@ =~= old(buf)@ + joined(t, sep.spec_bytes()));
                }
            }
            i += 1;
        }
        proof {
            assert(iter@.take(iter@.len() as int) =~= iter@);
        }
        Ok(())
    }
}

/// Appends the bytes of `s` to `out`.
fn append_bytes(out: &mut Vec<u8>, s: &[u8])
    ensures
        final(out)@ == old(out)@ + s@,
{
    let mut i: usize = 0;
    while i < s.len()
        invariant
            i <= s@.len(),
            out@ == old(out)@ + s@.take(i as int),
        decreases s@.len() - i,
    {
        out.push(s[i]);
        proof {
            assert(s@.take(i + 1) =~= s@.take(i as int).push(s@[i as int]));
        }
        i += 1;
    }
    proof {
        assert(s@.take(s@.len() as int) =~= s@);
    }
}

/// The decimal forms of `vals` joined with `sep`.
pub open spec fn joined<T: BufFormat>(vals: Seq<T>, sep: Seq<u8>) -> Seq<u8>
    decreases vals.len(),
{
    if vals.len() == 0 {
        seq![]
    } else if vals.len() == 1 {
        vals[0].spec_decimal()
    } else {
        joined(vals.drop_last(), sep) + sep + vals.last().spec_decimal()
    }
}

/// Integers that can be formatted in decimal.
pub trait BufFormat: Sized {
    /// The decimal representation of `self`.
    spec fn spec_decimal(self) -> Seq<u8>;

    fn format(self, buf: &mut IntBuffer) -> (r: String)
        ensures
            r@ == ascii_chars(self.spec_decimal()),
    ;

    /// Appends the decimal representation to `out`.
    fn write_decimal(self, out: &mut Vec<u8>)
        ensures
            final(out)@ == old(out)@ + self.spec_decimal(),
    ;
}

/// Writes the decimal form of `v` into the buffer and returns it as a string.
fn format_i128(v: i128, buf: &mut IntBuffer) -> (r: String)
    requires
        v > i128::MIN,
    ensures
        r@ == ascii_chars(signed_decimal(v as int)),
{
    buf.buf.clear();
    write_i128(v, &mut buf.buf);
    let bytes = copy_vec(&buf.buf);
    proof {
        assert(bytes@ =~= signed_decimal(v as int));
        lemma_decimal_ascii(if v < 0 { (-v) as nat } else { v as nat });
        assert(is_ascii_bytes(signed_decimal(v as int)));
    }
    string_from_ascii(bytes)
}

/// Appends the decimal form of `v` to `out`.
fn write_i128(v: i128, out: &mut Vec<u8>)
    requires
        v > i128::MIN,
    ensures
        final(out)@ == old(out)@ + signed_decimal(v as int),
{
    if v < 0 {
        out.push(45u8);
        let ghost mid = out@;
        push_decimal(out, (-v) as u128);
        proof {
            assert(out@ =~= old(out)@ + signed_decimal(v as int));
        }
    } else {
        push_decimal(out, v as u128);
    }
}

/// A copy of `v`.
fn copy_vec(v: &Vec<u8>) -> (r: Vec<u8>)
    ensures
        r@ == v@,
{
    let mut r: Vec<u8> = Vec::new();
    append_bytes(&mut r, v.as_slice());
    proof {
        assert(r@ =~= v@);
    }
    r
}

impl BufFormat for u8 {
    open spec fn spec_decimal(self) -> Seq<u8> {
        signed_decimal(self as int)
    }

    fn format(self, buf: &mut IntBuffer) -> (r: String) {
        format_i128(self as i128, buf)
    }

    fn write_decimal(self, out: &mut Vec<u8>) {
        write_i128(self as i128, out)
    }
}

impl BufFormat for u16 {
    open spec fn spec_decimal(self) -> Seq<u8> {
        signed_decimal(self as int)
    }

    fn format(self, buf: &mut IntBuffer) -> (r: String) {
        format_i128(self as i128, buf)
    }

    fn write_decimal(self, out: &mut Vec<u8>) {
        write_i128(self as i128, out)
    }
}

impl BufFormat for u32 {
    open spec fn spec_decimal(self) -> Seq<u8> {
        signed_decimal(self as int)
    }

    fn format(self, buf: &mut IntBuffer) -> (r: String) {
        format_i128(self as i128, buf)
    }

    fn write_decimal(self, out: &mut Vec<u8>) {
        write_i128(self as i128, out)
    }
}

impl BufFormat for u64 {
    open spec fn spec_decimal(self) -> Seq<u8> {
        signed_decimal(self as int)
    }

    fn format(self, buf: &mut IntBuffer) -> (r: String) {
        format_i128(self as i128, buf)
    }

    fn write_decimal(self, out: &mut Vec<u8>) {
        write_i128(self as i128, out)
    }
}

impl BufFormat for usize {
    open spec fn spec_decimal(self) -> Seq<u8> {
        signed_decimal(self as int)
    }

    fn format(self, buf: &mut IntBuffer) -> (r: String) {
        format_i128(self as i128, buf)
    }

    fn write_decimal(self, out: &mut Vec<u8>) {
        write_i128(self as i128, out)
    }
}

impl BufFormat for i8 {
    open spec fn spec_decimal(self) -> Seq<u8> {
        signed_decimal(self as int)
    }

    fn format(self, buf: &mut IntBuffer) -> (r: String) {
        format_i128(self as i128, buf)
    }

    fn write_decimal(self, out: &mut Vec<u8>) {
        write_i128(self as i128, out)
    }
}

impl BufFormat for i16 {
    open spec fn spec_decimal(self) -> Seq<u8> {
        signed_decimal(self as int)
    }

    fn format(self, buf: &mut IntBuffer) -> (r: String) {
        format_i128(self as i128, buf)
    }

    fn write_decimal(self, out: &mut Vec<u8>) {
        write_i128(self as i128, out)
    }
}

impl BufFormat for i32 {
    open spec fn spec_decimal(self) -> Seq<u8> {
        signed_decimal(self as int)
    }

    fn format(self, buf: &mut IntBuffer) -> (r: String) {
        format_i128(self as i128, buf)
    }

    fn write_decimal(self, out: &mut Vec<u8>) {
        write_i128(self as i128, out)
    }
}

impl BufFormat for i64 {
    open spec fn spec_decimal(self) -> Seq<u8> {
        signed_decimal(self as int)
    }

    fn format(self, buf: &mut IntBuffer) -> (r: String) {
        format_i128(self as i128, buf)
    }

    fn write_decimal(self, out: &mut Vec<u8>) {
        write_i128(self as i128, out)
    }
}

impl BufFormat for isize {
    open spec fn spec_decimal(self) -> Seq<u8> {
        signed_decimal(self as int)
    }

    fn format(self, buf: &mut IntBuffer) -> (r: String) {
        format_i128(self as i128, buf)
    }

    fn write_decimal(self, out: &mut Vec<u8>) {
        write_i128(self as i128, out)
    }
}

/// A shared reference formats as the value it points to.
impl<'a, T: Copy + BufFormat> BufFormat for &'a T {
    open spec fn spec_decimal(self) -> Seq<u8> {
        (*self).spec_decimal()
    }

    fn format(self, buf: &mut IntBuffer) -> (r: String) {
        (*self).format(buf)
    }

    fn write_decimal(self, out: &mut Vec<u8>) {
        (*self).write_decimal(out)
    }
}

/// A mutable reference formats as the value it points to.
impl<'a, T: Copy + BufFormat> BufFormat for &'a mut T {
    open spec fn spec_decimal(self) -> Seq<u8> {
        (*self).spec_decimal()
    }

    fn format(self, buf: &mut IntBuffer) -> (r: String) {
        (*self).format(buf)
    }

    fn write_decimal(self, out: &mut Vec<u8>) {
        (*self).write_decimal(out)
    }
}

/// The digits of `n` are a numeral whose value is `n`.
proof fn lemma_decimal_value(n: nat)
    ensures
        decimal(n).len() >= 1,
        all_digits(decimal(n)),
        digits_value(decimal(n)) == n,
    decreases n,
{
    if n >= 10 {
        lemma_decimal_value(n / 10);
        let s = decimal(n);
        assert(s.drop_last() =~= decimal(n / 10));
        assert forall|i: int| 0 <= i < s.len() implies crate::from_bytes::is_digit(#[trigger] s[i]) by {
            if i < s.len() - 1 {
                assert(s[i] == decimal(n / 10)[i]);
            }
        }
        assert(s.last() == (48 + n % 10) as u8);
        assert((s.last() - 48) as nat == n % 10);
        assert(digits_value(s) == digits_value(s.drop_last()) * 10 + (s.last() - 48) as nat);
        assert(n == (n / 10) * 10 + n % 10);
    } else {
        let s = decimal(n);
        assert(s.drop_last() =~= Seq::<u8>::empty());
        assert(digits_value(s) == digits_value(s.drop_last()) * 10 + (s.last() - 48) as nat);
        assert(digits_value(Seq::<u8>::empty()) == 0);
    }
}

/// Reading back the decimal form of a natural number gives the number.
pub proof fn lemma_decimal_parses_back(n: nat)
    ensures
        unsigned_value(decimal(n)) == Some(n),
        signed_value(decimal(n)) == Some(n as int),
{
    lemma_decimal_value(n);
    assert(crate::from_bytes::is_digit(decimal(n)[0]));
}

/// Reading back the signed decimal form of an integer gives the integer: a `-` comes first
/// exactly when it is negative, and the digits are its magnitude.
pub proof fn lemma_signed_decimal_parses_back(v: int)
    ensures
        signed_value(signed_decimal(v)) == Some(v),
        (signed_decimal(v)[0] == 45u8) == (v < 0),
{
    if v < 0 {
        let m = (-v) as nat;
        lemma_decimal_value(m);
        let s = signed_decimal(v);
        assert(s.drop_first() =~= decimal(m));
    } else {
        lemma_decimal_parses_back(v as nat);
    }
}

/// Formatting a `u8` and reading the text back gives the value.
pub proof fn lemma_u8_format_parses_back(x: u8)
    ensures
        <u8 as FromBytes>::spec_from_bytes(x.spec_decimal()) == Some(x),
{
    lemma_decimal_parses_back(x as nat);
}

/// Formatting a `u16` and reading the text back gives the value.
pub proof fn lemma_u16_format_parses_back(x: u16)
    ensures
        <u16 as FromBytes>::spec_from_bytes(x.spec_decimal()) == Some(x),
{
    lemma_decimal_parses_back(x as nat);
}

/// Formatting a `u32` and reading the text back gives the value.
pub proof fn lemma_u32_format_parses_back(x: u32)
    ensures
        <u32 as FromBytes>::spec_from_bytes(x.spec_decimal()) == Some(x),
{
    lemma_decimal_parses_back(x as nat);
}

/// Formatting a `u64` and reading the text back gives the value.
pub proof fn lemma_u64_format_parses_back(x: u64)
    ensures
        <u64 as FromBytes>::spec_from_bytes(x.spec_decimal()) == Some(x),
{
    lemma_decimal_parses_back(x as nat);
}

/// Formatting a `usize` and reading the text back gives the value.
pub proof fn lemma_usize_format_parses_back(x: usize)
    ensures
        <usize as FromBytes>::spec_from_bytes(x.spec_decimal()) == Some(x),
{
    lemma_decimal_parses_back(x as nat);
}

/// Formatting an `i8` and reading the text back gives the value.
pub proof fn lemma_i8_format_parses_back(x: i8)
    ensures
        <i8 as FromBytes>::spec_from_bytes(x.spec_decimal()) == Some(x),
{
    lemma_signed_decimal_parses_back(x as int);
}

/// Formatting an `i16` and reading the text back gives the value.
pub proof fn lemma_i16_format_parses_back(x: i16)
    ensures
        <i16 as FromBytes>::spec_from_bytes(x.spec_decimal()) == Some(x),
{
    lemma_signed_decimal_parses_back(x as int);
}

/// Formatting an `i32` and reading the text back gives the value.
pub proof fn lemma_i32_format_parses_back(x: i32)
    ensures
        <i32 as FromBytes>::spec_from_bytes(x.spec_decimal()) == Some(x),
{
    lemma_signed_decimal_parses_back(x as int);
}

/// Formatting an `i64` and reading the text back gives the value.
pub proof fn lemma_i64_format_parses_back(x: i64)
    ensures
        <i64 as FromBytes>::spec_from_bytes(x.spec_decimal()) == Some(x),
{
    lemma_signed_decimal_parses_back(x as int);
}

/// Formatting an `isize` and reading the text back gives the value.
pub proof fn lemma_isize_format_parses_back(x: isize)
    ensures
        <isize as FromBytes>::spec_from_bytes(x.spec_decimal()) == Some(x),
{
    lemma_signed_decimal_parses_back(x as int);
}

/// Formatting through a reference formats the value it points to, so it reads back too.
pub proof fn lemma_ref_format_parses_back(x: &i64)
    ensures
        <i64 as FromBytes>::spec_from_bytes(x.spec_decimal()) == Some(*x),
{
    lemma_signed_decimal_parses_back(*x as int);
}

} // verus!
