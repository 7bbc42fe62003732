//! The buffer behind a fast token reader: it holds up to `N` bytes of an input stream,
//! skips whitespace and cuts tokens at separators, while the caller does the reading.

use vstd::prelude::*;
use crate::from_bytes::FromBytes;
use crate::input::is_ascii_ws;

verus! {

/// A byte that ends a token: space, carriage return or line feed.
pub open spec fn is_sep(b: u8) -> bool {
    b == 32 || b == 13 || b == 10
}

/// Up to `N` bytes of an input stream, handed out token by token.
pub struct FastBufReader<const N: usize> {
    buf: Vec<u8>,
    filled: usize,
    cursor: usize,
    stream: Ghost<Seq<u8>>,
}

impl<const N: usize> FastBufReader<N> {
    /// Every byte given to the buffer so far.
    pub closed spec fn stream(&self) -> Seq<u8> {
        self.stream@
    }

    /// How many bytes of the stream have been handed out or skipped.
    pub closed spec fn position(&self) -> int {
        self.stream@.len() - (self.filled - self.cursor)
    }

    /// The room left after the pending bytes.
    pub closed spec fn spare(&self) -> int {
        N - self.filled
    }

    /// The bytes read but not yet handed out.
    closed spec fn pending(&self) -> Seq<u8> {
        self.buf@.subrange(self.cursor as int, self.filled as int)
    }

    pub closed spec fn wf(&self) -> bool {
        &&& self.buf@.len() == N
        &&& self.cursor <= self.filled <= N
        &&& self.filled - self.cursor <= self.stream@.len()
        &&& self.stream@.subrange(self.position(), self.stream@.len() as int) == self.pending()
    }

    /// An empty buffer.
    pub fn new() -> (r: Self)
        ensures
            r.wf(),
            r.stream() == Seq::<u8>::empty(),
            r.position() == 0,
    {
        let mut buf: Vec<u8> = Vec::with_capacity(N);
        let mut i: usize = 0;
        while i < N
            invariant
                i <= N,
                buf@.len() == i,
            decreases N - i,
        {
            buf.push(0);
            i += 1;
        }
        let r = FastBufReader { buf, filled: 0, cursor: 0, stream: Ghost(Seq::empty()) };
        proof {
            assert(r.pending() =~= Seq::<u8>::empty());
            assert(r.stream@.subrange(0, 0) =~= Seq::<u8>::empty());
        }
        r
    }

    /// The number of bytes that `accept` can take.
    pub fn spare_len(&self) -> (r: usize)
        requires
            self.wf(),
        ensures
            r == self.spare(),
    {
        N - self.filled
    }

    /// The pending bytes are fewer than a token may need, so reading more is worth it.
    pub fn wants_refill(&self) -> (r: bool)
        requires
            self.wf(),
        ensures
            r == (self.stream().len() - self.position() < 40),
    {
        self.filled - self.cursor < 40
    }

    /// Moves the pending bytes to the front of the buffer, to make room after them.
    pub fn compact(&mut self)
        requires
            old(self).wf(),
        ensures
            final(self).wf(),
            final(self).stream() == old(self).stream(),
            final(self).position() == old(self).position(),
            final(self).spare() == N - (old(self).stream().len() - old(self).position()),
    {
        let ghost old_pending = self.pending();
        let len = self.filled - self.cursor;
        let c = self.cursor;
        let mut i: usize = 0;
        while i < len
            invariant
                len == old(self).filled - c,
                c == old(self).cursor,
                c + len <= N,
                i <= len,
                self.buf@.len() == N,
                self.stream == old(self).stream,
                self.filled == old(self).filled,
                self.cursor == c,
                forall|j: int| i <= j < len ==> #[trigger] self.buf@[c + j] == old_pending[j],
                forall|j: int| 0 <= j < i ==> #[trigger] self.buf@[j] == old_pending[j],
            decreases len - i,
        {
            let b = self.buf[c + i];
            proof {
                assert(b == old_pending[i as int]);
            }
            let ghost before = self.buf@;
            self.buf.set(i, b);
            proof {
                assert forall|j: int| i + 1 <= j < len implies #[trigger] self.buf@[c + j] == old_pending[j] by {
                    assert(c + j != i);
                    assert(before[c + j] == old_pending[j]);
                }
            }
            i += 1;
        }
        self.filled = len;
        self.cursor = 0;
        proof {
            assert(self.pending() =~= old_pending);
        }
    }

    /// Appends freshly read bytes to the stream.
    pub fn accept(&mut self, bytes: &[u8])
        requires
            old(self).wf(),
            bytes@.len() <= old(self).spare(),
        ensures
            final(self).wf(),
            final(self).stream() == old(self).stream() + bytes@,
            final(self).position() == old(self).position(),
    {
        let ghost old_pending = self.pending();
        let start = self.filled;
        let c = self.cursor;
        let mut i: usize = 0;
        while i < bytes.len()
            invariant
                self.buf@.len() == N,
                start == old(self).filled,
                c == old(self).cursor,
                c <= start,
                self.stream == old(self).stream,
                self.filled == start,
                self.cursor == c,
                start + bytes@.len() <= N,
                i <= bytes@.len(),
                self.buf@.subrange(c as int, start as int) == old_pending,
                forall|j: int| 0 <= j < i ==> #[trigger] self.buf@[start + j] == bytes@[j],
            decreases bytes@.len() - i,
        {
            let ghost before = self.buf@;
            self.buf.set(start + i, bytes[i]);
            proof {
                assert(self.buf@.subrange(c as int, start as int) =~= before.subrange(c as int, start as int));
            }
            i += 1;
        }
        self.filled = start + bytes.len();
        proof {
            self.stream = Ghost(old(self).stream@ + bytes@);
            assert forall|j: int| 0 <= j < old_pending.len() implies #[trigger] self.buf@[c + j] == old_pending[j] by {
                assert(self.buf@.subrange(c as int, start as int)[j] == old_pending[j]);
            }
            let tot = old_pending + bytes@;
            assert forall|k: int| 0 <= k < tot.len() implies #[trigger] self.pending()[k] == tot[k] by {
                if k >= old_pending.len() {
                    let j = k - old_pending.len();
                    assert(self.buf@[start + j] == bytes@[j]);
                    assert(c + k == start + j);
                }
            }
            assert(self.pending() =~= tot);
            assert(self.stream@.subrange(self.position(), self.stream@.len() as int) =~= old_pending + bytes@);
        }
    }

    /// Skips the whitespace at the front of the buffer.
    pub fn skip_until_ascii_whitespace(&mut self)
        requires
            old(self).wf(),
        ensures
            final(self).wf(),
            final(self).stream() == old(self).stream(),
            old(self).position() <= final(self).position() <= final(self).stream().len(),
            forall|i: int| old(self).position() <= i < final(self).position() ==> is_ascii_ws(#[trigger] final(self).stream()[i]),
            final(self).position() < final(self).stream().len() ==> !is_ascii_ws(final(self).stream()[final(self).position()]),
            final(self).spare() == old(self).spare(),
    {
        let ghost s = self.stream@;
        let ghost p0 = self.position();
        while self.cursor < self.filled
            invariant
                self.wf(),
                self.stream@ == s,
                p0 <= self.position(),
                forall|i: int| p0 <= i < self.position() ==> is_ascii_ws(#[trigger] s[i]),
                self.filled == old(self).filled,
            ensures
                self.wf(),
                self.stream@ == s,
                p0 <= self.position(),
                forall|i: int| p0 <= i < self.position() ==> is_ascii_ws(#[trigger] s[i]),
                self.position() < s.len() ==> !is_ascii_ws(s[self.position()]),
                self.filled == old(self).filled,
            decreases self.filled - self.cursor,
        {
            let b = self.buf[self.cursor];
            if !(b == 32 || b == 9 || b == 10 || b == 12 || b == 13) {
                proof {
                    assert(self.pending()[0] == b);
                    assert(s.subrange(self.position(), s.len() as int)[0] == s[self.position()]);
                }
                break;
            }
            let ghost pend = self.pending();
            let ghost pos = self.position();
            proof {
                assert(s[pos] == pend[0]);
            }
            self.cursor += 1;
            proof {
                assert(self.pending() =~= pend.subrange(1, pend.len() as int));
                assert(s.subrange(pos, s.len() as int) == pend);
                assert(self.stream@.subrange(self.position(), self.stream@.len() as int) =~= self.pending());
            }
        }
    }

    /// The number of pending bytes before the first separator, or all of them.
    fn position_ascii_whitespace(&self) -> (n: usize)
        requires
            self.wf(),
        ensures
            n <= self.filled - self.cursor,
            forall|i: int| 0 <= i < n ==> !is_sep(#[trigger] self.pending()[i]),
            n < self.filled - self.cursor ==> is_sep(self.pending()[n as int]),
    {
        let mut n: usize = 0;
        while self.cursor + n < self.filled
            invariant
                self.wf(),
                self.cursor + n <= self.filled,
                forall|i: int| 0 <= i < n ==> !is_sep(#[trigger] self.pending()[i]),
            ensures
                self.cursor + n <= self.filled,
                forall|i: int| 0 <= i < n ==> !is_sep(#[trigger] self.pending()[i]),
                self.cursor + n < self.filled ==> is_sep(self.pending()[n as int]),
            decreases self.filled - self.cursor - n,
        {
            let b = self.buf[self.cursor + n];
            if b == 32 || b == 13 || b == 10 {
                break;
            }
            n += 1;
        }
        n
    }

    /// Moves the pending bytes up to the first separator onto `acc`; returns whether a
    /// separator ended them, which then stays pending.
    pub fn take_token(&mut self, acc: &mut Vec<u8>) -> (done: bool)
        requires
            old(self).wf(),
        ensures
            final(self).wf(),
            final(self).stream() == old(self).stream(),
            old(self).position() <= final(self).position() <= final(self).stream().len(),
            final(acc)@ == old(acc)@ + final(self).stream().subrange(old(self).position(), final(self).position()),
            forall|i: int| old(self).position() <= i < final(self).position() ==> !is_sep(#[trigger] final(self).stream()[i]),
            done ==> final(self).position() < final(self).stream().len() && is_sep(final(self).stream()[final(self).position()]),
            !done ==> final(self).position() == final(self).stream().len(),
    {
        let n = self.position_ascii_whitespace();
        let ghost s = self.stream@;
        let ghost p0 = self.position();
        let mut i: usize = 0;
        while i < n
            invariant
                self.wf(),
                self.stream@ == s,
                p0 == self.position(),
                n <= self.filled - self.cursor,
                i <= n,
                acc@ == old(acc)@ + s.subrange(p0, p0 + i),
            decreases n - i,
        {
            let b = self.buf[self.cursor + i];
            proof {
                assert(s[p0 + i] == self.pending()[i as int]);
            }
            acc.push(b);
            proof {
                assert(s.subrange(p0, p0 + i + 1) =~= s.subrange(p0, p0 + i).push(b));
            }
            i += 1;
        }
        let done = self.cursor + n < self.filled;
        let ghost pend = self.pending();
        proof {
            assert forall|i: int| p0 <= i < p0 + n implies !is_sep(#[trigger] s[i]) by {
                assert(s[i] == self.pending()[i - p0]);
            }
            if done {
                assert(s[p0 + n] == self.pending()[n as int]);
            }
        }
        self.cursor = self.cursor + n;
        proof {
            assert(self.pending() =~= pend.subrange(n as int, pend.len() as int));
            assert(s.subrange(p0, s.len() as int) == pend);
            assert(self.stream@.subrange(self.position(), self.stream@.len() as int) =~= self.pending());
        }
        done
    }
}

} // verus!
