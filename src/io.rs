use vstd::prelude::*;

use crate::error::PacketError;
use crate::reader::Reader;

verus! {

/// A type whose values can be written to a byte sink.
pub trait Writable: Sized {
    /// The bytes that a write of `self` appends, or the error that it returns.
    spec fn spec_write(&self) -> Result<Seq<u8>, PacketError>;

    /// What a write of `self` needs of the key types that it holds.
    spec fn write_ready(&self) -> bool;

    /// Appends the encoding of `self` to `o`; on an error `o` is left as it was.
    fn write(&self, o: &mut Vec<u8>) -> (r: Result<(), PacketError>)
        requires
            self.write_ready(),
        ensures
            match self.spec_write() {
                Ok(b) => r is Ok && final(o)@ == old(o)@ + b,
                Err(e) => r == Err::<(), PacketError>(e) && final(o)@ == old(o)@,
            },
    ;
}

/// A type whose values can be read from a byte source.
pub trait Readable: Sized + DeepView {
    /// The model of the value at the front of `s` and the number of bytes
    /// that it takes, or the error that a read of `s` returns.
    spec fn spec_read(s: Seq<u8>) -> Result<(Self::V, nat), PacketError>;

    /// The number of bytes that a failing read of `s` has taken when it returns.
    spec fn spec_err_taken(s: Seq<u8>) -> nat;

    /// What a read needs of the key types involved.
    spec fn read_ready() -> bool;

    /// A read takes no more bytes than there are, whether it succeeds or fails.
    proof fn lemma_read_len(s: Seq<u8>)
        ensures
            Self::spec_read(s) matches Ok((v, n)) ==> n <= s.len(),
            Self::spec_read(s) is Err ==> Self::spec_err_taken(s) <= s.len(),
    ;

    /// Reads one value from the front of `i`; on an error `i` is left just after
    /// the bytes that the read had taken.
    fn read(i: &mut Reader) -> (r: Result<Self, PacketError>)
        requires
            Self::read_ready(),
        ensures
            match Self::spec_read(old(i)@) {
                Ok((v, n)) => r matches Ok(x) && x.deep_view() == v && n <= old(i)@.len()
                    && final(i)@ == old(i)@.skip(n as int),
                Err(e) => r == Err::<Self, PacketError>(e) && final(i)@ == old(i)@.skip(
                    Self::spec_err_taken(old(i)@) as int,
                ),
            },
    ;
}

/// A type that can be both written and read back.
pub trait Codec: Readable + Writable {
    /// What the round trip needs of the value's model (keys that their models tell apart).
    spec fn round_trip_ready(&self) -> bool;

    /// Reading what a write of `v` appends, followed by any bytes, gives back
    /// the model of `v` and takes exactly those bytes.
    proof fn lemma_round_trip(v: &Self, rest: Seq<u8>)
        requires
            v.spec_write() is Ok,
            v.round_trip_ready(),
        ensures
            Self::spec_read(v.spec_write()->Ok_0 + rest) == Ok::<(Self::V, nat), PacketError>(
                (v.deep_view(), v.spec_write()->Ok_0.len()),
            ),
    ;
}

/// The bytes of `v`.
pub fn encode<T: Writable>(v: &T) -> (r: Result<Vec<u8>, PacketError>)
    requires
        v.write_ready(),
    ensures
        match v.spec_write() {
            Ok(b) => r matches Ok(x) && x@ == b,
            Err(e) => r == Err::<Vec<u8>, PacketError>(e),
        },
{
    let mut o: Vec<u8> = Vec::new();
    match v.write(&mut o) {
        Ok(()) => {
            assert(o@ =~= Seq::<u8>::empty() + v.spec_write()->Ok_0);
            Ok(o)
        },
        Err(e) => Err(e),
    }
}

/// The value at the front of `bytes`.
pub fn decode<T: Readable>(bytes: Vec<u8>) -> (r: Result<T, PacketError>)
    requires
        T::read_ready(),
    ensures
        match T::spec_read(bytes@) {
            Ok((v, n)) => r matches Ok(x) && x.deep_view() == v,
            Err(e) => r == Err::<T, PacketError>(e),
        },
{
    let mut i = Reader::new(bytes);
    T::read(&mut i)
}

/// Decoding the encoding of `v` gives back `v` (its model) and takes every byte.
pub proof fn lemma_decode_encode<T: Codec>(v: &T)
    requires
        v.spec_write() is Ok,
        v.round_trip_ready(),
    ensures
        T::spec_read(v.spec_write()->Ok_0) == Ok::<(T::V, nat), PacketError>(
            (v.deep_view(), v.spec_write()->Ok_0.len()),
        ),
{
    T::lemma_round_trip(v, Seq::empty());
    assert(v.spec_write()->Ok_0 + Seq::<u8>::empty() =~= v.spec_write()->Ok_0);
}

} // verus!
