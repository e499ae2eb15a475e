//! The byte source the decoder reads from: a buffer of bytes that have
//! arrived so far and a cursor over them. The transport (a socket, a file,
//! a test vector) appends bytes with `feed`; the decoder consumes them in
//! order. Running out of buffered bytes is the "would block" condition.

use vstd::prelude::*;

verus! {

/// A readable byte channel that supports non-atomic partial reads: it hands
/// out however many bytes it holds, and the rest of a request waits for the
/// transport to `feed` more.
pub struct ByteSource {
    data: Vec<u8>,
    pos: usize,
}

impl ByteSource {
    /// Well-formed: the cursor never passes the end of the buffer.
    pub closed spec fn wf(&self) -> bool {
        self.pos <= self.data@.len()
    }

    /// The bytes that have arrived and are not yet consumed, in arrival order.
    pub closed spec fn remaining(&self) -> Seq<u8> {
        self.data@.subrange(self.pos as int, self.data@.len() as int)
    }

    /// How many bytes were consumed over this source's whole lifetime.
    pub closed spec fn consumed(&self) -> int {
        self.pos as int
    }

    /// An empty source: no bytes have arrived.
    pub fn new() -> (r: ByteSource)
        ensures
            r.wf(),
            r.remaining() == Seq::<u8>::empty(),
            r.consumed() == 0,
    {
        let r = ByteSource { data: Vec::new(), pos: 0 };
        proof {
            assert(r.remaining() =~= Seq::<u8>::empty());
        }
        r
    }

    /// Append newly arrived bytes behind whatever is still unconsumed.
    pub fn feed(&mut self, bytes: &[u8])
        requires
            old(self).wf(),
            old(self).consumed() + old(self).remaining().len() + bytes@.len() <= usize::MAX,
        ensures
            final(self).wf(),
            final(self).remaining() == old(self).remaining() + bytes@,
            final(self).consumed() == old(self).consumed(),
    {
        let mut i: usize = 0;
        while i < bytes.len()
            invariant
                old(self).wf(),
                i <= bytes@.len(),
                self.pos == old(self).pos,
                self.data@ == old(self).data@ + bytes@.subrange(0, i as int),
                old(self).data@.len() + bytes@.len() <= usize::MAX,
                old(self).data@.len() == old(self).consumed() + old(self).remaining().len(),
            decreases bytes@.len() - i,
        {
            self.data.push(bytes[i]);
            i = i + 1;
            proof {
                assert(self.data@ =~= old(self).data@ + bytes@.subrange(0, i as int));
            }
        }
        proof {
            assert(bytes@.subrange(0, bytes@.len() as int) =~= bytes@);
            assert(final(self).remaining() =~= old(self).remaining() + bytes@);
        }
    }

    /// How many bytes this source holds in all, consumed and unconsumed:
    /// callers use it to keep `feed` within the address-space bound.
    pub fn buffered_len(&self) -> (r: usize)
        requires
            self.wf(),
        ensures
            r == self.consumed() + self.remaining().len(),
    {
        self.data.len()
    }

    /// How many bytes can be read right now.
    pub fn available(&self) -> (r: usize)
        requires
            self.wf(),
        ensures
            r == self.remaining().len(),
    {
        self.data.len() - self.pos
    }

    /// Consume up to `n` bytes: all of `n` if they are buffered, otherwise
    /// whatever is there. The bytes come out in arrival order and are never
    /// handed out twice.
    pub fn take_up_to(&mut self, n: usize) -> (r: Vec<u8>)
        requires
            old(self).wf(),
        ensures
            final(self).wf(),
            old(self).remaining().len() <= usize::MAX,
            r@.len() == vstd::math::min(n as int, old(self).remaining().len() as int),
            r@ == old(self).remaining().take(r@.len() as int),
            final(self).remaining() == old(self).remaining().skip(r@.len() as int),
            final(self).consumed() == old(self).consumed() + r@.len(),
    {
        let total: usize = self.data.len();
        proof {
            assert(old(self).remaining().len() + old(self).pos == total);
        }
        let mut out: Vec<u8> = Vec::new();
        let mut k: usize = 0;
        while k < n && self.pos < self.data.len()
            invariant
                old(self).wf(),
                self.wf(),
                k <= n,
                self.data@ == old(self).data@,
                self.pos == old(self).pos + k,
                self.pos <= self.data@.len(),
                out@.len() == k,
                out@ == old(self).remaining().take(k as int),
            decreases n - k,
        {
            let b = self.data[self.pos];
            out.push(b);
            self.pos = self.pos + 1;
            k = k + 1;
            proof {
                assert(out@ =~= old(self).remaining().take(k as int));
            }
        }
        proof {
            assert(final(self).remaining() =~= old(self).remaining().skip(out@.len() as int));
        }
        out
    }
}

} // verus!
