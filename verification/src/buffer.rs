use vstd::prelude::*;

verus! {

/// A growable byte buffer with an explicit read position.
///
/// Every decoding step works against the unread suffix (`rem`). Consumed
/// bytes stay in place and only the position moves forward, so a read that
/// cannot complete commits nothing and the identical read can be retried
/// verbatim once more bytes have been fed.
pub struct Buffer {
    data: Vec<u8>,
    pos: usize,
}

impl Buffer {
    /// The bytes not yet consumed. The position never passes the end of the
    /// data; the empty case below only keeps the definition total.
    pub closed spec fn rem(&self) -> Seq<u8> {
        if self.pos <= self.data@.len() {
            self.data@.skip(self.pos as int)
        } else {
            Seq::empty()
        }
    }

    pub fn new() -> (r: Buffer)
        ensures
            r.rem() == Seq::<u8>::empty(),
    {
        let b = Buffer { data: Vec::new(), pos: 0 };
        proof {
            assert(b.rem() =~= Seq::<u8>::empty());
        }
        b
    }

    /// Number of unread bytes.
    pub fn remaining(&self) -> (r: usize)
        ensures
            r == self.rem().len(),
    {
        if self.pos <= self.data.len() {
            self.data.len() - self.pos
        } else {
            0
        }
    }

    /// The unread byte at relative offset `i`.
    pub fn get(&self, i: usize) -> (r: u8)
        requires
            i < self.rem().len(),
        ensures
            r == self.rem()[i as int],
    {
        proof {
            assert(self.data.len() == self.data@.len());
        }
        self.data[self.pos + i]
    }

    /// Append a chunk of fresh input at the end.
    pub fn feed(&mut self, chunk: &[u8])
        ensures
            final(self).rem() == old(self).rem() + chunk@,
    {
        let l = self.data.len();
        if self.pos > l {
            self.pos = l;
        }
        proof {
            assert(self.rem() =~= old(self).rem());
        }
        let ghost prev = *self;
        let n = chunk.len();
        let mut i: usize = 0;
        proof {
            assert(self.data@ =~= prev.data@ + chunk@.subrange(0, 0));
        }
        while i < n
            invariant
                i <= n,
                n == chunk@.len(),
                self.pos == prev.pos,
                prev.pos <= prev.data@.len(),
                self.data@ == prev.data@ + chunk@.subrange(0, i as int),
            decreases n - i,
        {
            self.data.push(chunk[i]);
            i = i + 1;
            proof {
                assert(self.data@ =~= prev.data@ + chunk@.subrange(0, i as int));
            }
        }
        proof {
            assert(self.data@ =~= prev.data@ + chunk@);
            assert(self.rem() =~= prev.rem() + chunk@);
        }
    }

    /// Consume `n` unread bytes.
    pub fn advance(&mut self, n: usize)
        requires
            n <= old(self).rem().len(),
        ensures
            final(self).rem() == old(self).rem().skip(n as int),
    {
        let l = self.data.len();
        if self.pos <= l {
            self.pos = self.pos + n;
        }
        proof {
            assert(self.rem() =~= old(self).rem().skip(n as int));
        }
    }

    /// Copy out `n` unread bytes starting at relative offset `at`, without
    /// consuming them.
    pub fn read_bytes(&self, at: usize, n: usize) -> (r: Vec<u8>)
        requires
            at + n <= self.rem().len(),
        ensures
            r@ == self.rem().subrange(at as int, at + n),
    {
        proof {
            assert(self.data.len() == self.data@.len());
        }
        let mut out: Vec<u8> = Vec::new();
        let mut i: usize = 0;
        proof {
            assert(out@ =~= self.rem().subrange(at as int, at as int));
        }
        while i < n
            invariant
                i <= n,
                at + n <= self.rem().len(),
                self.rem().len() <= usize::MAX,
                out@ == self.rem().subrange(at as int, at + i),
            decreases n - i,
        {
            let b = self.get(at + i);
            out.push(b);
            i = i + 1;
            proof {
                assert(out@ =~= self.rem().subrange(at as int, at + i));
            }
        }
        out
    }
}

} // verus!
