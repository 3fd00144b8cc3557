use vstd::prelude::*;

use crate::error::PacketError;

verus! {

/// A byte source that is read from the front.
pub struct Reader {
    bytes: Vec<u8>,
    pos: usize,
}

impl View for Reader {
    /// The bytes that have not been read yet.
    type V = Seq<u8>;

    closed spec fn view(&self) -> Seq<u8> {
        self.bytes@.subrange(self.pos as int, self.bytes@.len() as int)
    }
}

impl Reader {
    #[verifier::type_invariant]
    spec fn inv(self) -> bool {
        self.pos <= self.bytes@.len()
    }

    /// A source that yields `bytes` in order.
    pub fn new(bytes: Vec<u8>) -> (r: Reader)
        ensures
            r@ == bytes@,
    {
        let r = Reader { bytes, pos: 0 };
        assert(r@ =~= bytes@);
        r
    }

    /// Number of bytes not read yet.
    pub fn remaining(&self) -> (r: usize)
        ensures
            r == self@.len(),
    {
        proof {
            use_type_invariant(self);
        }
        self.bytes.len() - self.pos
    }

    /// Reads one byte.
    pub fn read_u8(&mut self) -> (r: Result<u8, PacketError>)
        ensures
            old(self)@.len() == 0 ==> r == Err::<u8, PacketError>(PacketError::IO) && final(self)@
                == old(self)@,
            old(self)@.len() > 0 ==> r == Ok::<u8, PacketError>(old(self)@[0]) && final(self)@
                == old(self)@.drop_first(),
    {
        proof {
            use_type_invariant(&*self);
        }
        if self.pos < self.bytes.len() {
            let b = self.bytes[self.pos];
            self.pos = self.pos + 1;
            assert(self@ =~= old(self)@.drop_first());
            Ok(b)
        } else {
            Err(PacketError::IO)
        }
    }

    /// Reads exactly `n` bytes.
    pub fn read_exact(&mut self, n: usize) -> (r: Result<Vec<u8>, PacketError>)
        ensures
            n > old(self)@.len() ==> r == Err::<Vec<u8>, PacketError>(PacketError::IO)
                && final(self)@ == old(self)@,
            n <= old(self)@.len() ==> (r matches Ok(v) && v@ == old(self)@.take(n as int))
                && final(self)@ == old(self)@.skip(n as int),
    {
        proof {
            use_type_invariant(&*self);
        }
        if n > self.bytes.len() - self.pos {
            return Err(PacketError::IO);
        }
        let mut out: Vec<u8> = Vec::with_capacity(n);
        let start = self.pos;
        let end = start + n;
        let mut k: usize = 0;
        while k < n
            invariant
                end == start + n,
                end <= self.bytes@.len(),
                self.pos == start,
                self.bytes@ == old(self).bytes@,
                old(self).pos == start,
                k <= n,
                out@ == self.bytes@.subrange(start as int, start + k),
            decreases n - k,
        {
            out.push(self.bytes[start + k]);
            k = k + 1;
            assert(out@ =~= self.bytes@.subrange(start as int, start + k));
        }
        self.pos = start + n;
        assert(out@ =~= old(self)@.take(n as int));
        assert(self@ =~= old(self)@.skip(n as int));
        Ok(out)
    }
}

} // verus!
