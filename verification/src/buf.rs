//! A buffered reader that hands out its input one byte at a time: the
//! bytes not yet consumed are kept at the front of the buffer, and a read
//! from the source fills the rest.
use vstd::prelude::*;

verus! {

/// The size of the buffer that `CopyingBufReader::new` makes.
pub const DEFAULT_BUF_SIZE: usize = 8 * 1024;

/// A source of bytes, finite.
pub trait Read {
    /// The bytes the source will still give, in order.
    spec fn rest(&self) -> Seq<u8>;

    /// Reads the next bytes of the source into `buf[start..]` and returns
    /// how many; 0 only when there is no room or the source has ended. The
    /// bytes before `start` are left alone.
    fn read(&mut self, buf: &mut Vec<u8>, start: usize) -> (n: usize)
        requires
            start <= old(buf).len(),
        ensures
            final(buf).len() == old(buf).len(),
            final(buf)@.subrange(0, start as int) == old(buf)@.subrange(0, start as int),
            n <= old(buf).len() - start,
            n <= old(self).rest().len(),
            final(buf)@.subrange(start as int, start + n) == old(self).rest().take(n as int),
            final(self).rest() == old(self).rest().skip(n as int),
            n == 0 && start < old(buf).len() ==> old(self).rest().len() == 0,
    ;
}

/// Bytes held in memory, read from the front.
pub struct SliceReader {
    data: Vec<u8>,
    pos: usize,
}

impl SliceReader {
    /// A source that yields `data`.
    pub fn new(data: Vec<u8>) -> (r: SliceReader)
        ensures
            r.remaining() == data@,
    {
        SliceReader { data, pos: 0 }
    }

    /// The bytes still to be read.
    pub closed spec fn remaining(&self) -> Seq<u8> {
        self.data@.subrange(self.pos as int, self.data@.len() as int)
    }

    #[verifier::type_invariant]
    spec fn wf(&self) -> bool {
        self.pos <= self.data.len()
    }
}

impl Read for SliceReader {
    open spec fn rest(&self) -> Seq<u8> {
        self.remaining()
    }

    /// Copies as many of the remaining bytes as fit into `buf[start..]`.
    fn read(&mut self, buf: &mut Vec<u8>, start: usize) -> (n: usize)
        ensures
            final(buf)@.subrange(start as int, start + n) == old(self).remaining().take(n as int),
            final(self).remaining() == old(self).remaining().skip(n as int),
            n == if old(self).remaining().len() < old(buf).len() - start {
                old(self).remaining().len()
            } else {
                (old(buf).len() - start) as nat
            },
    {
        proof {
            use_type_invariant(&*self);
        }
        let pos0 = self.pos;
        let len = self.data.len();
        let rem = len - pos0;
        let ghost rem0 = self.remaining();
        let room = buf.len() - start;
        let n = if rem < room {
            rem
        } else {
            room
        };
        let mut i: usize = 0;
        while i < n
            invariant
                i <= n,
                n <= room,
                room == old(buf).len() - start,
                start <= old(buf).len(),
                buf.len() == old(buf).len(),
                pos0 + n <= len,
                len == self.data.len(),
                self.pos == pos0,
                self.data == old(self).data,
                buf@.subrange(0, start as int) == old(buf)@.subrange(0, start as int),
                forall|k: int| 0 <= k < i ==> #[trigger] buf@[start + k] == self.data@[pos0 + k],
            decreases n - i,
        {
            buf.set(start + i, self.data[pos0 + i]);
            proof {
                assert(buf@.subrange(0, start as int) =~= old(buf)@.subrange(0, start as int));
            }
            i += 1;
        }
        proof {
            assert forall|k: int| 0 <= k < n implies #[trigger] rem0[k] == self.data@[pos0 + k] by {
            }
            assert(rem0 == old(self).remaining());
            assert forall|k: int| 0 <= k < n implies buf@.subrange(start as int, start + n)[k]
                == rem0.take(n as int)[k] by {
                assert(buf@[start + k] == self.data@[pos0 + k]);
            }
        }
        self.pos = pos0 + n;
        proof {
            assert(buf@.subrange(start as int, start + n) =~= old(self).remaining().take(n as int));
            assert(self.remaining() =~= old(self).remaining().skip(n as int));
        }
        n
    }
}

/// A buffered reader over the source `inner`.
pub struct CopyingBufReader<R> {
    inner: R,
    buf: Vec<u8>,
    pos: usize,
    amt: usize,
    /// The bytes consumed so far.
    taken: Ghost<Seq<u8>>,
}

impl<R: Read> CopyingBufReader<R> {
    /// The buffer's positions are in order.
    pub closed spec fn wf(&self) -> bool {
        self.pos <= self.amt <= self.buf.len()
    }

    /// The bytes read from the source and not consumed yet.
    pub closed spec fn pending(&self) -> Seq<u8> {
        self.buf@.subrange(self.pos as int, self.amt as int)
    }

    /// The bytes consumed so far.
    pub closed spec fn taken(&self) -> Seq<u8> {
        self.taken@
    }

    /// The size of the buffer.
    pub closed spec fn capacity(&self) -> nat {
        self.buf.len() as nat
    }

    /// The source.
    pub closed spec fn source(&self) -> R {
        self.inner
    }

    /// The buffer.
    pub closed spec fn buffer(&self) -> Seq<u8> {
        self.buf@
    }

    /// The position in the buffer of the next byte to hand out.
    pub closed spec fn position(&self) -> int {
        self.pos as int
    }

    /// The end of the bytes read into the buffer.
    pub closed spec fn filled(&self) -> int {
        self.amt as int
    }

    /// How the buffer holds the pending bytes.
    pub proof fn lemma_layout(&self)
        requires
            self.wf(),
        ensures
            0 <= self.position() <= self.filled() <= self.buffer().len(),
            self.capacity() == self.buffer().len(),
            self.pending() == self.buffer().subrange(self.position(), self.filled()),
    {
    }

    /// The bytes still to come: those pending, then those the source will
    /// still give.
    pub closed spec fn rest(&self) -> Seq<u8> {
        self.pending() + self.inner.rest()
    }

    /// Everything the reader hands out: what it has handed out, then what
    /// is still to come.
    pub open spec fn stream(&self) -> Seq<u8> {
        self.taken() + self.rest()
    }

    /// A reader over `inner` with a buffer of `DEFAULT_BUF_SIZE` bytes.
    pub fn new(inner: R) -> (r: CopyingBufReader<R>)
        ensures
            r.wf(),
            r.capacity() == DEFAULT_BUF_SIZE,
            r.pending() == Seq::<u8>::empty(),
            r.taken() == Seq::<u8>::empty(),
            r.source() == inner,
            r.rest() == inner.rest(),
            r.buffer() == Seq::new(DEFAULT_BUF_SIZE as nat, |i: int| 0u8),
            r.position() == 0,
            r.filled() == 0,
    {
        CopyingBufReader::with_capacity(DEFAULT_BUF_SIZE, inner)
    }

    /// A reader over `inner` with a buffer of `capacity` bytes.
    pub fn with_capacity(capacity: usize, inner: R) -> (r: CopyingBufReader<R>)
        ensures
            r.wf(),
            r.capacity() == capacity,
            r.pending() == Seq::<u8>::empty(),
            r.taken() == Seq::<u8>::empty(),
            r.source() == inner,
            r.rest() == inner.rest(),
            r.buffer() == Seq::new(capacity as nat, |i: int| 0u8),
            r.position() == 0,
            r.filled() == 0,
    {
        let r = CopyingBufReader {
            inner,
            buf: vec![0; capacity],
            pos: 0,
            amt: 0,
            taken: Ghost(Seq::empty()),
        };
        proof {
            assert(r.pending() =~= Seq::<u8>::empty());
            assert(r.rest() =~= inner.rest());
            assert forall|i: int| 0 <= i < capacity implies r.buf@[i] == 0u8 by {
                assert(cloned(0u8, r.buf@[i]));
            }
            assert(r.buffer() =~= Seq::new(capacity as nat, |i: int| 0u8));
        }
        r
    }

    /// Moves the pending bytes to the front of the buffer and reads from the
    /// source into the room behind them.
    pub fn refill(&mut self)
        requires
            old(self).wf(),
        ensures
            final(self).wf(),
            final(self).capacity() == old(self).capacity(),
            final(self).taken() == old(self).taken(),
            final(self).pending().len() >= old(self).pending().len(),
            final(self).pending().take(old(self).pending().len() as int) == old(self).pending(),
            final(self).rest() == old(self).rest(),
            old(self).pending().len() < old(self).capacity() && old(self).pending().len() < old(
                self,
            ).rest().len() ==> final(self).pending().len() > old(self).pending().len(),
            final(self).position() == 0,
            final(self).buffer().len() == old(self).buffer().len(),
            old(self).filled() - old(self).position() <= final(self).filled(),
            final(self).buffer().subrange(0, old(self).filled() - old(self).position()) == old(
                self,
            ).buffer().subrange(old(self).position(), old(self).filled()),
            final(self).buffer().subrange(old(self).filled() - old(self).position(), final(self).filled())
                == old(self).source().rest().take(
                final(self).filled() - (old(self).filled() - old(self).position()),
            ),
            final(self).source().rest() == old(self).source().rest().skip(
                final(self).filled() - (old(self).filled() - old(self).position()),
            ),
    {
        let buf_kept = self.amt - self.pos;
        let buf_len = self.buf.len();
        let pos = self.pos;
        let ghost before = self.pending();
        let mut i: usize = 0;
        while i < buf_kept
            invariant
                i <= buf_kept,
                buf_kept + pos <= buf_len,
                buf_len == self.buf.len(),
                before.len() == buf_kept,
                self.taken == old(self).taken,
                self.pos == old(self).pos,
                self.amt == old(self).amt,
                self.inner == old(self).inner,
                forall|k: int| 0 <= k < buf_kept ==> #[trigger] before[k] == old(self).buf@[pos + k],
                forall|k: int| i <= k < buf_kept ==> #[trigger] self.buf@[pos + k] == old(self).buf@[pos + k],
                forall|k: int| 0 <= k < i ==> #[trigger] self.buf@[k] == before[k],
            decreases buf_kept - i,
        {
            let b = self.buf[pos + i];
            self.buf.set(i, b);
            i += 1;
        }
        let n = self.inner.read(&mut self.buf, buf_kept);
        proof {
            assert forall|k: int| 0 <= k < buf_kept implies #[trigger] self.buf@[k] == before[k] by {
                assert(self.buf@.subrange(0, buf_kept as int)[k] == self.buf@[k]);
            }
        }
        self.pos = 0;
        self.amt = buf_kept + n;
        proof {
            assert(self.pending().take(before.len() as int) =~= before);
            let src = old(self).inner.rest();
            assert(self.pending() =~= before + src.take(n as int)) by {
                assert(self.buf@.subrange(0, buf_kept as int) =~= before);
                assert(self.buf@.subrange(0, (buf_kept + n) as int) =~= self.buf@.subrange(
                    0,
                    buf_kept as int,
                ) + self.buf@.subrange(buf_kept as int, buf_kept + n));
            }
            assert(old(self).rest() =~= before + src);
            assert(src =~= src.take(n as int) + src.skip(n as int));
            assert(self.rest() =~= old(self).rest());
            assert(self.buf@.subrange(0, buf_kept as int) =~= old(self).buf@.subrange(
                pos as int,
                old(self).amt as int,
            ));
        }
    }

    /// The next byte without consuming it, reading from the source when no
    /// byte is pending; `None` when the input has ended (always, with a
    /// buffer of no room).
    pub fn peek(&mut self) -> (b: Option<u8>)
        requires
            old(self).wf(),
        ensures
            final(self).wf(),
            final(self).capacity() == old(self).capacity(),
            final(self).taken() == old(self).taken(),
            final(self).rest() == old(self).rest(),
            old(self).pending().len() > 0 ==> final(self).pending() == old(self).pending(),
            b == (if old(self).capacity() > 0 && old(self).rest().len() > 0 {
                Some(old(self).rest()[0])
            } else {
                None
            }),
            b is Some <==> final(self).pending().len() > 0,
            old(self).position() < old(self).filled() ==> *final(self) == *old(self),
            old(self).position() == old(self).filled() ==> {
                &&& final(self).position() == 0
                &&& final(self).buffer().len() == old(self).buffer().len()
                &&& final(self).buffer().subrange(0, final(self).filled()) == old(
                    self,
                ).source().rest().take(final(self).filled())
                &&& final(self).source().rest() == old(self).source().rest().skip(
                    final(self).filled(),
                )
            },
            b == (if final(self).position() < final(self).filled() {
                Some(final(self).buffer()[final(self).position()])
            } else {
                None
            }),
    {
        if self.pos == self.amt {
            self.refill();
        }
        if self.amt > self.pos {
            Some(self.buf[self.pos])
        } else {
            None
        }
    }

    /// Consumes `amt` pending bytes.
    pub fn consume(&mut self, amt: usize)
        requires
            old(self).wf(),
            amt <= old(self).pending().len(),
        ensures
            final(self).wf(),
            final(self).capacity() == old(self).capacity(),
            final(self).pending() == old(self).pending().skip(amt as int),
            final(self).taken() == old(self).taken() + old(self).pending().take(amt as int),
            final(self).rest() == old(self).rest().skip(amt as int),
            final(self).stream() == old(self).stream(),
            final(self).position() == old(self).position() + amt,
            final(self).filled() == old(self).filled(),
            final(self).buffer() == old(self).buffer(),
            final(self).source() == old(self).source(),
    {
        let ghost old_pending = self.pending();
        self.taken = Ghost(self.taken@ + old_pending.take(amt as int));
        self.pos = self.pos + amt;
        proof {
            assert(self.pending() =~= old_pending.skip(amt as int));
            assert(self.rest() =~= old(self).rest().skip(amt as int));
            assert(old(self).rest().take(amt as int) =~= old_pending.take(amt as int));
            assert(self.stream() =~= old(self).stream());
        }
    }
}

} // verus!
