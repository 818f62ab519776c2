//! An incremental read head over a growing byte buffer.
use vstd::prelude::*;

use crate::error::Error;
use crate::leb128::{leb_parse, parse_leb128};

verus! {

/// Bytes received so far and the position of the next read.
///
/// Every read either succeeds and moves the position past what it consumed,
/// or fails and leaves the cursor as it was, so that it can be retried once
/// more bytes have been appended.
pub struct Bytes {
    data: Vec<u8>,
    pos: usize,
}

impl Bytes {
    #[verifier::type_invariant]
    spec fn inv(self) -> bool {
        self.pos <= self.data@.len()
    }

    /// Every byte that the cursor holds, consumed or not.
    pub closed spec fn data(&self) -> Seq<u8> {
        self.data@
    }

    /// The number of bytes consumed.
    pub closed spec fn pos(&self) -> nat {
        self.pos as nat
    }

    /// The bytes not yet consumed.
    pub open spec fn rest(&self) -> Seq<u8> {
        self.data().skip(self.pos() as int)
    }

    /// The number of bytes consumed so far.
    pub fn position(&self) -> (r: usize)
        ensures
            r == self.pos(),
    {
        self.pos
    }

    /// Moves the position back to `p`, a position this cursor has had.
    pub fn rewind(&mut self, p: usize)
        requires
            p <= old(self).pos(),
        ensures
            final(self).data() == old(self).data(),
            final(self).pos() == p,
    {
        proof {
            use_type_invariant(&*self);
        }
        self.pos = p;
    }

    /// A cursor at the start of `data`.
    pub fn new(data: Vec<u8>) -> (r: Bytes)
        ensures
            r.rest() == data@,
    {
        let r = Bytes { data, pos: 0 };
        assert(r.data@.skip(0) == r.data@);
        r
    }

    /// The number of bytes not yet consumed.
    pub fn remaining(&self) -> (r: usize)
        ensures
            r == self.rest().len(),
    {
        proof {
            use_type_invariant(self);
        }
        self.data.len() - self.pos
    }

    /// Appends a chunk that arrived; consumed bytes are dropped.
    pub fn push_chunk(&mut self, chunk: &Vec<u8>)
        ensures
            final(self).rest() == old(self).rest() + chunk@,
    {
        proof {
            use_type_invariant(&*self);
        }
        let mut fresh: Vec<u8> = Vec::new();
        let mut i: usize = self.pos;
        while i < self.data.len()
            invariant
                self.pos <= i <= self.data@.len(),
                fresh@ == self.data@.subrange(self.pos as int, i as int),
            decreases self.data@.len() - i,
        {
            fresh.push(self.data[i]);
            i = i + 1;
        }
        let mut j: usize = 0;
        while j < chunk.len()
            invariant
                j <= chunk@.len(),
                fresh@ == old(self).rest() + chunk@.subrange(0, j as int),
            decreases chunk@.len() - j,
        {
            fresh.push(chunk[j]);
            j = j + 1;
        }
        assert(chunk@.subrange(0, chunk@.len() as int) == chunk@);
        *self = Bytes { data: fresh, pos: 0 };
        assert(self.data@.skip(0) == self.data@);
    }

    /// Reads one byte.
    pub fn read_u8(&mut self) -> (r: Result<u8, Error>)
        ensures
            old(self).rest().len() == 0 ==> r == Err::<u8, Error>(Error::NotEnoughData)
                && *final(self) == *old(self),
            old(self).rest().len() > 0 ==> r == Ok::<u8, Error>(old(self).rest()[0])
                && final(self).data() == old(self).data() && final(self).pos() == old(self).pos()
                + 1 && final(self).rest() == old(self).rest().skip(1),
    {
        proof {
            use_type_invariant(&*self);
        }
        if self.pos < self.data.len() {
            let b = self.data[self.pos];
            self.pos = self.pos + 1;
            assert(self.rest() =~= old(self).rest().skip(1));
            Ok(b)
        } else {
            Err(Error::NotEnoughData)
        }
    }

    /// Reads the next `len` bytes.
    pub fn read_bytes(&mut self, len: usize) -> (r: Result<Vec<u8>, Error>)
        ensures
            old(self).rest().len() < len ==> r == Err::<Vec<u8>, Error>(Error::NotEnoughData)
                && *final(self) == *old(self),
            old(self).rest().len() >= len ==> r is Ok && r->Ok_0@ == old(self).rest().take(
                len as int,
            ) && final(self).data() == old(self).data() && final(self).pos() == old(self).pos()
                + len && final(self).rest() == old(self).rest().skip(len as int),
    {
        proof {
            use_type_invariant(&*self);
        }
        if self.data.len() - self.pos < len {
            return Err(Error::NotEnoughData);
        }
        let mut out: Vec<u8> = Vec::new();
        let mut i: usize = 0;
        while i < len
            invariant
                i <= len,
                self.pos + len <= self.data.len(),
                out@ == self.data@.subrange(self.pos as int, self.pos + i),
            decreases len - i,
        {
            out.push(self.data[self.pos + i]);
            i = i + 1;
        }
        self.pos = self.pos + len;
        assert(out@ == old(self).rest().take(len as int));
        assert(self.rest() =~= old(self).rest().skip(len as int));
        Ok(out)
    }

    /// Reads a varint; its value is taken modulo `2^64`.
    pub fn read_leb128(&mut self) -> (r: Result<u64, Error>)
        ensures
            match leb_parse(old(self).rest()) {
                None => r == Err::<u64, Error>(Error::NotEnoughData) && *final(self) == *old(
                    self,
                ),
                Some((v, n)) => r == Ok::<u64, Error>((v % 0x1_0000_0000_0000_0000) as u64)
                    && final(self).data() == old(self).data() && final(self).pos() == old(
                    self,
                ).pos() + n && final(self).rest() == old(self).rest().skip(n as int),
            },
    {
        proof {
            use_type_invariant(&*self);
        }
        let total = self.data.len();
        let slice = self.data.as_slice();
        let ghost t = old(self).rest();
        assert(slice@.skip(self.pos as int) == t);
        proof {
            crate::leb128::lemma_leb_parse_len(t);
        }
        match parse_leb128(slice, self.pos) {
            None => Err(Error::NotEnoughData),
            Some((v, n)) => {
                assert(n <= total - self.pos);
                self.pos = self.pos + n;
                assert(self.rest() =~= t.skip(n as int));
                Ok(v)
            },
        }
    }
}

} // verus!
