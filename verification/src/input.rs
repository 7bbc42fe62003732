//! Whitespace-separated token input over a byte buffer.

use vstd::prelude::*;
use crate::from_bytes::FromBytes;

verus! {

/// Whether `b` is ASCII whitespace (space, tab, line feed, form feed, carriage return).
pub open spec fn is_ascii_ws(b: u8) -> bool {
    b == 32 || b == 9 || b == 10 || b == 12 || b == 13
}

/// The first index at or after `i` whose byte is not whitespace (or `s.len()`).
pub open spec fn skip_ws(s: Seq<u8>, i: int) -> int
    decreases s.len() - i,
{
    if i >= s.len() || !is_ascii_ws(s[i]) {
        i
    } else {
        skip_ws(s, i + 1)
    }
}

/// The first index at or after `i` whose byte is whitespace (or `s.len()`).
pub open spec fn find_ws(s: Seq<u8>, i: int) -> int
    decreases s.len() - i,
{
    if i >= s.len() || is_ascii_ws(s[i]) {
        i
    } else {
        find_ws(s, i + 1)
    }
}

/// Where the next token starts when reading from position `pos`.
pub open spec fn token_start(s: Seq<u8>, pos: int) -> int {
    skip_ws(s, pos)
}

/// Where the next token ends when reading from position `pos`.
pub open spec fn token_end(s: Seq<u8>, pos: int) -> int {
    find_ws(s, skip_ws(s, pos))
}

/// The next token when reading from position `pos` (empty at the end of input).
pub open spec fn next_token_of(s: Seq<u8>, pos: int) -> Seq<u8> {
    s.subrange(token_start(s, pos), token_end(s, pos))
}

/// The reading position after the next token and the one whitespace byte that ends it.
pub open spec fn after_token(s: Seq<u8>, pos: int) -> int {
    let e = token_end(s, pos);
    if e < s.len() { e + 1 } else { e }
}

proof fn lemma_skip_ws_bounds(s: Seq<u8>, i: int)
    requires
        0 <= i <= s.len(),
    ensures
        i <= skip_ws(s, i) <= s.len(),
        skip_ws(s, i) < s.len() ==> !is_ascii_ws(s[skip_ws(s, i)]),
        forall|k: int| i <= k < skip_ws(s, i) ==> is_ascii_ws(#[trigger] s[k]),
    decreases s.len() - i,
{
    if i < s.len() && is_ascii_ws(s[i]) {
        lemma_skip_ws_bounds(s, i + 1);
    }
}

proof fn lemma_find_ws_bounds(s: Seq<u8>, i: int)
    requires
        0 <= i <= s.len(),
    ensures
        i <= find_ws(s, i) <= s.len(),
        find_ws(s, i) < s.len() ==> is_ascii_ws(s[find_ws(s, i)]),
        forall|k: int| i <= k < find_ws(s, i) ==> !is_ascii_ws(#[trigger] s[k]),
    decreases s.len() - i,
{
    if i < s.len() && !is_ascii_ws(s[i]) {
        lemma_find_ws_bounds(s, i + 1);
    }
}

proof fn lemma_skip_ws_step(s: Seq<u8>, i: int, j: int)
    requires
        0 <= i <= j <= s.len(),
        forall|k: int| i <= k < j ==> is_ascii_ws(#[trigger] s[k]),
    ensures
        skip_ws(s, i) == skip_ws(s, j),
    decreases j - i,
{
    if i < j {
        lemma_skip_ws_step(s, i + 1, j);
    }
}

proof fn lemma_find_ws_step(s: Seq<u8>, i: int, j: int)
    requires
        0 <= i <= j <= s.len(),
        forall|k: int| i <= k < j ==> !is_ascii_ws(#[trigger] s[k]),
    ensures
        find_ws(s, i) == find_ws(s, j),
    decreases j - i,
{
    if i < j {
        lemma_find_ws_step(s, i + 1, j);
    }
}

fn is_ascii_whitespace(b: u8) -> (r: bool)
    ensures
        r == is_ascii_ws(b),
{
    b == 32 || b == 9 || b == 10 || b == 12 || b == 13
}

/// Reads whitespace-separated tokens from an input held in memory.
pub struct FastInput {
    data: Vec<u8>,
    pos: usize,
}

impl FastInput {
    /// The whole input.
    pub closed spec fn input(&self) -> Seq<u8> {
        self.data@
    }

    /// How much of the input has been consumed.
    pub closed spec fn position(&self) -> int {
        self.pos as int
    }

    /// The part of the input that is yet to be read.
    pub open spec fn rest(&self) -> Seq<u8> {
        self.input().subrange(self.position(), self.input().len() as int)
    }

    pub closed spec fn wf(&self) -> bool {
        self.pos <= self.data.len()
    }

    /// Starts reading `reader` from its first byte.
    pub fn new(reader: &[u8]) -> (r: Self)
        ensures
            r.wf(),
            r.input() == reader@,
            r.position() == 0,
    {
        FastInput { data: copy_bytes(reader), pos: 0 }
    }

    /// Skips whitespace, then finds the extent of the next token.
    fn locate_token(&self) -> (r: (usize, usize))
        requires
            self.wf(),
        ensures
            r.0 == token_start(self.input(), self.position()),
            r.1 == token_end(self.input(), self.position()),
            r.0 <= r.1 <= self.input().len(),
    {
        let ghost s = self.data@;
        let mut i = self.pos;
        proof {
            lemma_skip_ws_bounds(s, i as int);
        }
        while i < self.data.len() && is_ascii_whitespace(self.data[i])
            invariant
                self.pos <= i <= self.data.len(),
                s == self.data@,
                skip_ws(s, self.pos as int) == skip_ws(s, i as int),
            decreases self.data.len() - i,
        {
            i += 1;
        }
        let start = i;
        proof {
            lemma_find_ws_bounds(s, start as int);
        }
        while i < self.data.len() && !is_ascii_whitespace(self.data[i])
            invariant
                start <= i <= self.data.len(),
                s == self.data@,
                start == skip_ws(s, self.pos as int),
                find_ws(s, start as int) == find_ws(s, i as int),
            decreases self.data.len() - i,
        {
            i += 1;
        }
        (start, i)
    }

    /// Parses the next whitespace-separated token as `T`.
    ///
    /// Returns `None` if the token does not denote a `T`; at the end of the input the token
    /// is empty.
    pub fn next_token<T: FromBytes>(&mut self) -> (r: Option<T>)
        requires
            old(self).wf(),
        ensures
            final(self).wf(),
            final(self).input() == old(self).input(),
            final(self).position() == after_token(old(self).input(), old(self).position()),
            r == T::spec_from_bytes(next_token_of(old(self).input(), old(self).position())),
    {
        let (start, end) = self.locate_token();
        let token = slice_range(&self.data, start, end);
        let parsed = T::from_bytes(token);
        self.pos = if end < self.data.len() { end + 1 } else { end };
        match parsed {
            Ok(v) => Some(v),
            Err(_) => None,
        }
    }

    /// Parses the next `len` tokens as `T`; `None` if any of them fails to parse.
    pub fn next_token_vec<T: FromBytes>(&mut self, len: usize) -> (r: Option<Vec<T>>)
        requires
            old(self).wf(),
        ensures
            final(self).wf(),
            final(self).input() == old(self).input(),
            match r {
                Some(v) => v@.len() == len && tokens_parse::<T>(
                    old(self).input(),
                    old(self).position(),
                    v@,
                    final(self).position(),
                ),
                None => exists|k: int|
                    0 <= k < len && token_fails::<T>(old(self).input(), old(self).position(), k),
            },
    {
        let mut vec: Vec<T> = Vec::new();
        let mut i: usize = 0;
        while i < len
            invariant
                self.wf(),
                self.input() == old(self).input(),
                i <= len,
                vec@.len() == i,
                tokens_parse::<T>(self.input(), old(self).position(), vec@, self.position()),
                self.position() == nth_position(self.input(), old(self).position(), i as nat),
            decreases len - i,
        {
            let ghost before = self.position();
            match self.next_token::<T>() {
                Some(v) => {
                    let ghost prev = vec@;
                    vec.push(v);
                    proof {
                        assert(vec@.drop_last() =~= prev);
                    }
                },
                None => {
                    proof {
                        assert(token_fails::<T>(self.input(), old(self).position(), i as int));
                    }
                    return None;
                },
            }
            i += 1;
        }
        Some(vec)
    }

    /// Appends the next whitespace-separated token to `buf`; at the end of the input nothing
    /// is appended.
    pub fn next_bytes(&mut self, buf: &mut Vec<u8>) -> (r: Result<(), ()>)
        requires
            old(self).wf(),
        ensures
            r is Ok,
            final(self).wf(),
            final(self).input() == old(self).input(),
            final(self).position() == after_token(old(self).input(), old(self).position()),
            final(buf)@ == old(buf)@ + next_token_of(old(self).input(), old(self).position()),
    {
        let (start, end) = self.locate_token();
        let mut i = start;
        while i < end
            invariant
                start <= i <= end <= self.data@.len(),
                buf@ == old(buf)@ + self.data@.subrange(start as int, i as int),
            decreases end - i,
        {
            buf.push(self.data[i]);
            proof {
                assert(self.data@.subrange(start as int, i + 1) =~= self.data@.subrange(start as int, i as int).push(self.data@[i as int]));
            }
            i += 1;
        }
        self.pos = if end < self.data.len() { end + 1 } else { end };
        Ok(())
    }
}

/// The reading position after `n` tokens have been read from position `pos`.
pub open spec fn nth_position(s: Seq<u8>, pos: int, n: nat) -> int
    decreases n,
{
    if n == 0 {
        pos
    } else {
        after_token(s, nth_position(s, pos, (n - 1) as nat))
    }
}

/// Reading `vals.len()` tokens from `pos` parses each as the corresponding value of `vals`
/// and ends at `end`.
pub open spec fn tokens_parse<T: FromBytes>(s: Seq<u8>, pos: int, vals: Seq<T>, end: int) -> bool {
    &&& end == nth_position(s, pos, vals.len())
    &&& forall|k: int| 0 <= k < vals.len() ==>
        T::spec_from_bytes(next_token_of(s, #[trigger] nth_position(s, pos, k as nat))) == Some(vals[k])
}

/// The `k`-th token read from `pos` does not parse as a `T`, while the earlier ones do.
pub open spec fn token_fails<T: FromBytes>(s: Seq<u8>, pos: int, k: int) -> bool {
    &&& T::spec_from_bytes(next_token_of(s, nth_position(s, pos, k as nat))) is None
    &&& forall|j: int| 0 <= j < k ==>
        T::spec_from_bytes(next_token_of(s, #[trigger] nth_position(s, pos, j as nat))) is Some
}

/// A vector holding the bytes of `s`.
pub(crate) fn copy_bytes(s: &[u8]) -> (r: Vec<u8>)
    ensures
        r@ == s@,
{
    let mut v: Vec<u8> = Vec::new();
    let mut i: usize = 0;
    while i < s.len()
        invariant
            i <= s@.len(),
            v@ == s@.take(i as int),
        decreases s@.len() - i,
    {
        v.push(s[i]);
        proof {
            assert(s@.take(i + 1) =~= s@.take(i as int).push(s@[i as int]));
        }
        i += 1;
    }
    proof {
        assert(s@.take(s@.len() as int) =~= s@);
    }
    v
}

/// The bytes `v[start..end]`.
fn slice_range(v: &Vec<u8>, start: usize, end: usize) -> (r: &[u8])
    requires
        start <= end <= v@.len(),
    ensures
        r@ == v@.subrange(start as int, end as int),
{
    let s = v.as_slice();
    let (head, _) = s.split_at(end);
    let (_, mid) = head.split_at(start);
    proof {
        assert(mid@ =~= v@.subrange(start as int, end as int));
    }
    mid
}

} // verus!
