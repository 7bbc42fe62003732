//! Parsing of decimal integers from ASCII bytes.

use vstd::prelude::*;

verus! {

/// Whether `b` is an ASCII decimal digit.
pub open spec fn is_digit(b: u8) -> bool {
    48 <= b <= 57
}

/// Whether every byte of `s` is an ASCII decimal digit.
pub open spec fn all_digits(s: Seq<u8>) -> bool {
    forall|i: int| 0 <= i < s.len() ==> is_digit(#[trigger] s[i])
}

/// The value of the decimal numeral `s` (leading zeros allowed).
pub open spec fn digits_value(s: Seq<u8>) -> nat
    decreases s.len(),
{
    if s.len() == 0 {
        0
    } else {
        digits_value(s.drop_last()) * 10 + (s.last() - 48) as nat
    }
}

/// The magnitude written in `s` after an optional leading `+`, if the rest is a non-empty
/// run of digits.
pub open spec fn unsigned_value(s: Seq<u8>) -> Option<nat> {
    let d = if s.len() > 0 && s[0] == 43 { s.drop_first() } else { s };
    if d.len() > 0 && all_digits(d) {
        Some(digits_value(d))
    } else {
        None
    }
}

/// The integer written in `s`: an optional `-` or `+` sign followed by a non-empty run of digits.
pub open spec fn signed_value(s: Seq<u8>) -> Option<int> {
    if s.len() > 0 && s[0] == 45 {
        let d = s.drop_first();
        if d.len() > 0 && all_digits(d) {
            Some(-digits_value(d))
        } else {
            None
        }
    } else {
        match unsigned_value(s) {
            Some(v) => Some(v as int),
            None => None,
        }
    }
}

/// The value of `s` as an unsigned integer, when it lies in `0..=max`.
pub open spec fn unsigned_in_range(s: Seq<u8>, max: int) -> Option<int> {
    match unsigned_value(s) {
        Some(v) => if v <= max { Some(v as int) } else { None },
        None => None,
    }
}

/// The value of `s` as a signed integer, when it lies in `min..=max`.
pub open spec fn signed_in_range(s: Seq<u8>, min: int, max: int) -> Option<int> {
    match signed_value(s) {
        Some(v) => if min <= v <= max { Some(v) } else { None },
        None => None,
    }
}

/// The value of a prefix of a numeral never exceeds the value of the numeral.
proof fn lemma_digits_value_prefix(s: Seq<u8>, i: int)
    requires
        0 <= i <= s.len(),
        all_digits(s),
    ensures
        digits_value(s.take(i)) <= digits_value(s),
    decreases s.len() - i,
{
    if i < s.len() {
        lemma_digits_value_prefix(s, i + 1);
        assert(s.take(i + 1).drop_last() =~= s.take(i));
    } else {
        assert(s.take(i) =~= s);
    }
}

/// Parses a non-empty run of digits into a `u128`; `None` if a byte is not a digit or the
/// value exceeds `u128::MAX`.
fn parse_digits_u128(d: &[u8]) -> (r: Option<u128>)
    ensures
        match r {
            Some(v) => d@.len() > 0 && all_digits(d@) && v == digits_value(d@),
            None => !(d@.len() > 0 && all_digits(d@)) || digits_value(d@) > u128::MAX,
        },
{
    if d.len() == 0 {
        return None;
    }
    let mut acc: u128 = 0;
    let mut i: usize = 0;
    while i < d.len()
        invariant
            0 <= i <= d@.len(),
            all_digits(d@.take(i as int)),
            acc == digits_value(d@.take(i as int)),
        decreases d@.len() - i,
    {
        let b = d[i];
        if b < 48 || b > 57 {
            return None;
        }
        assert(d@.take(i + 1).drop_last() =~= d@.take(i as int));
        let dv = (b - 48) as u128;
        match acc.checked_mul(10) {
            Some(m) => match m.checked_add(dv) {
                Some(v) => {
                    acc = v;
                },
                None => {
                    proof {
                        assert(all_digits(d@.take(i + 1)));
                        if all_digits(d@) {
                            lemma_digits_value_prefix(d@, i + 1);
                        }
                    }
                    return None;
                },
            },
            None => {
                proof {
                    assert(all_digits(d@.take(i + 1)));
                    if all_digits(d@) {
                        lemma_digits_value_prefix(d@, i + 1);
                    }
                }
                return None;
            },
        }
        i += 1;
    }
    assert(d@.take(d@.len() as int) =~= d@);
    Some(acc)
}

/// Parses a non-empty run of digits into the negated value as an `i128`; `None` if a byte is
/// not a digit or the negated value is below `i128::MIN`.
fn parse_digits_neg_i128(d: &[u8]) -> (r: Option<i128>)
    ensures
        match r {
            Some(v) => d@.len() > 0 && all_digits(d@) && v == -digits_value(d@),
            None => !(d@.len() > 0 && all_digits(d@)) || -digits_value(d@) < i128::MIN,
        },
{
    if d.len() == 0 {
        return None;
    }
    let mut acc: i128 = 0;
    let mut i: usize = 0;
    while i < d.len()
        invariant
            0 <= i <= d@.len(),
            all_digits(d@.take(i as int)),
            acc == -digits_value(d@.take(i as int)),
        decreases d@.len() - i,
    {
        let b = d[i];
        if b < 48 || b > 57 {
            return None;
        }
        assert(d@.take(i + 1).drop_last() =~= d@.take(i as int));
        let dv = (b - 48) as i128;
        match acc.checked_mul(10) {
            Some(m) => match m.checked_sub(dv) {
                Some(v) => {
                    acc = v;
                },
                None => {
                    proof {
                        assert(all_digits(d@.take(i + 1)));
                        if all_digits(d@) {
                            lemma_digits_value_prefix(d@, i + 1);
                        }
                    }
                    return None;
                },
            },
            None => {
                proof {
                    assert(all_digits(d@.take(i + 1)));
                    if all_digits(d@) {
                        lemma_digits_value_prefix(d@, i + 1);
                    }
                }
                return None;
            },
        }
        i += 1;
    }
    assert(d@.take(d@.len() as int) =~= d@);
    Some(acc)
}

/// Parses an unsigned numeral with an optional leading `+`, keeping it when it is at most `max`.
fn parse_unsigned(bytes: &[u8], max: u128) -> (r: Option<u128>)
    ensures
        match r {
            Some(v) => unsigned_in_range(bytes@, max as int) == Some(v as int),
            None => unsigned_in_range(bytes@, max as int) is None,
        },
{
    let digits: &[u8] = if bytes.len() > 0 && bytes[0] == 43 {
        slice_skip_first(bytes)
    } else {
        bytes
    };
    match parse_digits_u128(digits) {
        Some(v) => if v <= max { Some(v) } else { None },
        None => None,
    }
}

/// Parses a signed numeral (optional `-` or `+`), keeping it when it lies in `min..=max`.
fn parse_signed(bytes: &[u8], min: i128, max: i128) -> (r: Option<i128>)
    requires
        min <= 0 <= max,
    ensures
        match r {
            Some(v) => signed_in_range(bytes@, min as int, max as int) == Some(v as int),
            None => signed_in_range(bytes@, min as int, max as int) is None,
        },
{
    if bytes.len() > 0 && bytes[0] == 45 {
        let digits = slice_skip_first(bytes);
        match parse_digits_neg_i128(digits) {
            Some(v) => if min <= v { Some(v) } else { None },
            None => None,
        }
    } else {
        let digits: &[u8] = if bytes.len() > 0 && bytes[0] == 43 {
            slice_skip_first(bytes)
        } else {
            bytes
        };
        match parse_digits_u128(digits) {
            Some(v) => if v <= max as u128 { Some(v as i128) } else { None },
            None => None,
        }
    }
}

/// The bytes after the first one.
fn slice_skip_first(bytes: &[u8]) -> (r: &[u8])
    requires
        bytes@.len() > 0,
    ensures
        r@ == bytes@.drop_first(),
{
    let (_, rest) = bytes.split_at(1);
    rest
}

/// Types that can be parsed from the ASCII bytes of a token.
pub trait FromBytes: Sized {
    type Err;

    /// The value that `bytes` denotes, if any.
    spec fn spec_from_bytes(bytes: Seq<u8>) -> Option<Self>;

    fn from_bytes(bytes: &[u8]) -> (r: Result<Self, Self::Err>)
        ensures
            match r {
                Ok(v) => Self::spec_from_bytes(bytes@) == Some(v),
                Err(_) => Self::spec_from_bytes(bytes@) is None,
            },
    ;
}

impl FromBytes for u8 {
    type Err = ();

    open spec fn spec_from_bytes(bytes: Seq<u8>) -> Option<u8> {
        match unsigned_in_range(bytes, u8::MAX as int) {
            Some(v) => Some(v as u8),
            None => None,
        }
    }

    fn from_bytes(bytes: &[u8]) -> (r: Result<u8, ()>) {
        match parse_unsigned(bytes, u8::MAX as u128) {
            Some(v) => Ok(v as u8),
            None => Err(()),
        }
    }
}

impl FromBytes for u16 {
    type Err = ();

    open spec fn spec_from_bytes(bytes: Seq<u8>) -> Option<u16> {
        match unsigned_in_range(bytes, u16::MAX as int) {
            Some(v) => Some(v as u16),
            None => None,
        }
    }

    fn from_bytes(bytes: &[u8]) -> (r: Result<u16, ()>) {
        match parse_unsigned(bytes, u16::MAX as u128) {
            Some(v) => Ok(v as u16),
            None => Err(()),
        }
    }
}

impl FromBytes for u32 {
    type Err = ();

    open spec fn spec_from_bytes(bytes: Seq<u8>) -> Option<u32> {
        match unsigned_in_range(bytes, u32::MAX as int) {
            Some(v) => Some(v as u32),
            None => None,
        }
    }

    fn from_bytes(bytes: &[u8]) -> (r: Result<u32, ()>) {
        match parse_unsigned(bytes, u32::MAX as u128) {
            Some(v) => Ok(v as u32),
            None => Err(()),
        }
    }
}

impl FromBytes for u64 {
    type Err = ();

    open spec fn spec_from_bytes(bytes: Seq<u8>) -> Option<u64> {
        match unsigned_in_range(bytes, u64::MAX as int) {
            Some(v) => Some(v as u64),
            None => None,
        }
    }

    fn from_bytes(bytes: &[u8]) -> (r: Result<u64, ()>) {
        match parse_unsigned(bytes, u64::MAX as u128) {
            Some(v) => Ok(v as u64),
            None => Err(()),
        }
    }
}

impl FromBytes for usize {
    type Err = ();

    open spec fn spec_from_bytes(bytes: Seq<u8>) -> Option<usize> {
        match unsigned_in_range(bytes, usize::MAX as int) {
            Some(v) => Some(v as usize),
            None => None,
        }
    }

    fn from_bytes(bytes: &[u8]) -> (r: Result<usize, ()>) {
        match parse_unsigned(bytes, usize::MAX as u128) {
            Some(v) => Ok(v as usize),
            None => Err(()),
        }
    }
}

impl FromBytes for u128 {
    type Err = ();

    open spec fn spec_from_bytes(bytes: Seq<u8>) -> Option<u128> {
        match unsigned_in_range(bytes, u128::MAX as int) {
            Some(v) => Some(v as u128),
            None => None,
        }
    }

    fn from_bytes(bytes: &[u8]) -> (r: Result<u128, ()>) {
        match parse_unsigned(bytes, u128::MAX as u128) {
            Some(v) => Ok(v as u128),
            None => Err(()),
        }
    }
}

impl FromBytes for i8 {
    type Err = ();

    open spec fn spec_from_bytes(bytes: Seq<u8>) -> Option<i8> {
        match signed_in_range(bytes, i8::MIN as int, i8::MAX as int) {
            Some(v) => Some(v as i8),
            None => None,
        }
    }

    fn from_bytes(bytes: &[u8]) -> (r: Result<i8, ()>) {
        match parse_signed(bytes, i8::MIN as i128, i8::MAX as i128) {
            Some(v) => Ok(v as i8),
            None => Err(()),
        }
    }
}

impl FromBytes for i16 {
    type Err = ();

    open spec fn spec_from_bytes(bytes: Seq<u8>) -> Option<i16> {
        match signed_in_range(bytes, i16::MIN as int, i16::MAX as int) {
            Some(v) => Some(v as i16),
            None => None,
        }
    }

    fn from_bytes(bytes: &[u8]) -> (r: Result<i16, ()>) {
        match parse_signed(bytes, i16::MIN as i128, i16::MAX as i128) {
            Some(v) => Ok(v as i16),
            None => Err(()),
        }
    }
}

impl FromBytes for i32 {
    type Err = ();

    open spec fn spec_from_bytes(bytes: Seq<u8>) -> Option<i32> {
        match signed_in_range(bytes, i32::MIN as int, i32::MAX as int) {
            Some(v) => Some(v as i32),
            None => None,
        }
    }

    fn from_bytes(bytes: &[u8]) -> (r: Result<i32, ()>) {
        match parse_signed(bytes, i32::MIN as i128, i32::MAX as i128) {
            Some(v) => Ok(v as i32),
            None => Err(()),
        }
    }
}

impl FromBytes for i64 {
    type Err = ();

    open spec fn spec_from_bytes(bytes: Seq<u8>) -> Option<i64> {
        match signed_in_range(bytes, i64::MIN as int, i64::MAX as int) {
            Some(v) => Some(v as i64),
            None => None,
        }
    }

    fn from_bytes(bytes: &[u8]) -> (r: Result<i64, ()>) {
        match parse_signed(bytes, i64::MIN as i128, i64::MAX as i128) {
            Some(v) => Ok(v as i64),
            None => Err(()),
        }
    }
}

impl FromBytes for isize {
    type Err = ();

    open spec fn spec_from_bytes(bytes: Seq<u8>) -> Option<isize> {
        match signed_in_range(bytes, isize::MIN as int, isize::MAX as int) {
            Some(v) => Some(v as isize),
            None => None,
        }
    }

    fn from_bytes(bytes: &[u8]) -> (r: Result<isize, ()>) {
        match parse_signed(bytes, isize::MIN as i128, isize::MAX as i128) {
            Some(v) => Ok(v as isize),
            None => Err(()),
        }
    }
}

impl FromBytes for i128 {
    type Err = ();

    open spec fn spec_from_bytes(bytes: Seq<u8>) -> Option<i128> {
        match signed_in_range(bytes, i128::MIN as int, i128::MAX as int) {
            Some(v) => Some(v as i128),
            None => None,
        }
    }

    fn from_bytes(bytes: &[u8]) -> (r: Result<i128, ()>) {
        match parse_signed(bytes, i128::MIN as i128, i128::MAX as i128) {
            Some(v) => Ok(v as i128),
            None => Err(()),
        }
    }
}

} // verus!
