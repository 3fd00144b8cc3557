use vstd::prelude::*;

use crate::error::PacketError;
use crate::io::{Codec, Readable, Writable};
use crate::reader::Reader;
use crate::varint::{var_bytes, VarInt, VarLong};

verus! {

/// A packet group exchanged in both directions: each packet is its VarInt id,
/// then its fields in declared order.
#[derive(Debug, Clone, PartialEq)]
pub enum BiPackets {
    TestA { b: VarLong, a: Vec<u8> },
    TestB {},
}

/// The model of a `BiPackets` value.
pub enum BiPacketsModel {
    TestA { b: VarLong, a: Seq<u8> },
    TestB,
}

/// Id of the `TestA` packet.
pub const TEST_A_ID: u32 = 0x01;

/// Id of the `TestB` packet.
pub const TEST_B_ID: u32 = 0x02;

impl DeepView for BiPackets {
    type V = BiPacketsModel;

    open spec fn deep_view(&self) -> BiPacketsModel {
        match self {
            BiPackets::TestA { b, a } => BiPacketsModel::TestA { b: *b, a: a.deep_view() },
            BiPackets::TestB {  } => BiPacketsModel::TestB,
        }
    }
}

impl BiPackets {
    /// The id of the packet that `self` is.
    pub open spec fn spec_id(&self) -> u32 {
        match self {
            BiPackets::TestA { .. } => TEST_A_ID,
            BiPackets::TestB { .. } => TEST_B_ID,
        }
    }

    /// The id of the packet that `self` is.
    pub fn id(&self) -> (r: VarInt)
        ensures
            r == VarInt(self.spec_id()),
    {
        VarInt(
            match self {
                BiPackets::TestA { .. } => TEST_A_ID,
                BiPackets::TestB { .. } => TEST_B_ID,
            },
        )
    }
}

impl Writable for BiPackets {
    open spec fn spec_write(&self) -> Result<Seq<u8>, PacketError> {
        match self {
            BiPackets::TestA { b, a } => match (*b, *a).spec_write() {
                Ok(x) => Ok(var_bytes(TEST_A_ID as nat) + x),
                Err(e) => Err(e),
            },
            BiPackets::TestB {  } => Ok(var_bytes(TEST_B_ID as nat)),
        }
    }

    open spec fn write_ready(&self) -> bool {
        true
    }

    fn write(&self, o: &mut Vec<u8>) -> (r: Result<(), PacketError>) {
        let start = o.len();
        match self {
            BiPackets::TestA { b, a } => {
                let _ = VarInt(TEST_A_ID).write(o);
                let _ = b.write(o);
                match a.write(o) {
                    Ok(()) => {},
                    Err(e) => {
                        o.truncate(start);
                        assert(o@ =~= old(o)@);
                        return Err(e);
                    },
                }
                assert(o@ =~= old(o)@ + self.spec_write()->Ok_0);
            },
            BiPackets::TestB {  } => {
                let _ = VarInt(TEST_B_ID).write(o);
            },
        }
        Ok(())
    }
}

impl Readable for BiPackets {
    /// An id that no packet of the group carries fails with that id, and leaves
    /// the source just after it; a field that fails is named with its packet.
    open spec fn spec_read(s: Seq<u8>) -> Result<(BiPacketsModel, nat), PacketError> {
        match VarInt::spec_read(s) {
            Err(e) => Err(e),
            Ok((id, n)) => if id.0 == TEST_A_ID {
                match VarLong::spec_read(s.skip(n as int)) {
                    Err(e) => Err(PacketError::FieldDecodeFailure("TestA", "b", Box::new(e))),
                    Ok((b, m1)) => match Vec::<u8>::spec_read(s.skip((n + m1) as int)) {
                        Err(e) => Err(PacketError::FieldDecodeFailure("TestA", "a", Box::new(e))),
                        Ok((a, m2)) => Ok((BiPacketsModel::TestA { b, a }, n + m1 + m2)),
                    },
                }
            } else if id.0 == TEST_B_ID {
                Ok((BiPacketsModel::TestB, n))
            } else {
                Err(PacketError::UnknownPacket(id.0))
            },
        }
    }

    open spec fn spec_err_taken(s: Seq<u8>) -> nat {
        match VarInt::spec_read(s) {
            Err(_) => VarInt::spec_err_taken(s),
            Ok((id, n)) => if id.0 == TEST_A_ID {
                match VarLong::spec_read(s.skip(n as int)) {
                    Err(_) => n + VarLong::spec_err_taken(s.skip(n as int)),
                    Ok((b, m1)) => n + m1 + Vec::<u8>::spec_err_taken(s.skip((n + m1) as int)),
                }
            } else {
                n
            },
        }
    }

    open spec fn read_ready() -> bool {
        true
    }

    proof fn lemma_read_len(s: Seq<u8>) {
        VarInt::lemma_read_len(s);
        if let Ok((id, n)) = VarInt::spec_read(s) {
            VarLong::lemma_read_len(s.skip(n as int));
            if let Ok((b, m1)) = VarLong::spec_read(s.skip(n as int)) {
                Vec::<u8>::lemma_read_len(s.skip((n + m1) as int));
            }
        }
    }

    fn read(i: &mut Reader) -> (r: Result<BiPackets, PacketError>) {
        let ghost s = i@;
        let p_id = match VarInt::read(i) {
            Ok(v) => v.0,
            Err(e) => return Err(e),
        };
        let ghost n = (s.len() - i@.len()) as nat;
        proof {
            assert(i@ =~= s.skip(n as int));
        }
        if p_id == TEST_A_ID {
            let ghost s1 = i@;
            let b = match VarLong::read(i) {
                Ok(b) => b,
                Err(e) => {
                    proof {
                        VarLong::lemma_read_len(s1);
                        assert(s1.skip(VarLong::spec_err_taken(s1) as int) =~= s.skip(
                            (n + VarLong::spec_err_taken(s1)) as int,
                        ));
                    }
                    return Err(PacketError::FieldDecodeFailure("TestA", "b", Box::new(e)));
                },
            };
            let ghost m1 = (s1.len() - i@.len()) as nat;
            let ghost s2 = i@;
            proof {
                assert(s2 =~= s.skip((n + m1) as int));
            }
            let a = match Vec::<u8>::read(i) {
                Ok(a) => a,
                Err(e) => {
                    proof {
                        Vec::<u8>::lemma_read_len(s2);
                        assert(s2.skip(Vec::<u8>::spec_err_taken(s2) as int) =~= s.skip(
                            (n + m1 + Vec::<u8>::spec_err_taken(s2)) as int,
                        ));
                    }
                    return Err(PacketError::FieldDecodeFailure("TestA", "a", Box::new(e)));
                },
            };
            assert(i@ =~= s.skip(s.len() - i@.len()));
            Ok(BiPackets::TestA { b, a })
        } else if p_id == TEST_B_ID {
            Ok(BiPackets::TestB {  })
        } else {
            Err(PacketError::UnknownPacket(p_id))
        }
    }
}

impl Codec for BiPackets {
    open spec fn round_trip_ready(&self) -> bool {
        true
    }

    proof fn lemma_round_trip(v: &BiPackets, rest: Seq<u8>) {
        match v {
            BiPackets::TestA { b, a } => {
                let bb = b.spec_write()->Ok_0;
                let ab = a.spec_write()->Ok_0;
                let body = (*b, *a).spec_write()->Ok_0;
                assert(body == bb + ab);
                VarInt::lemma_round_trip(&VarInt(TEST_A_ID), body + rest);
                VarLong::lemma_round_trip(b, ab + rest);
                Vec::<u8>::lemma_round_trip(a, rest);
                let idb = var_bytes(TEST_A_ID as nat);
                let all = idb + body + rest;
                assert(all =~= idb + (body + rest));
                assert(all.skip(idb.len() as int) =~= bb + (ab + rest));
                assert(all.skip((idb.len() + bb.len()) as int) =~= ab + rest);
            },
            BiPackets::TestB {  } => {
                VarInt::lemma_round_trip(&VarInt(TEST_B_ID), rest);
            },
        }
    }
}

/// A stream whose leading VarInt is no id of the group fails to read, with
/// exactly that id, and leaves the source just after the id.
pub proof fn lemma_bi_packets_unknown_id(s: Seq<u8>)
    requires
        VarInt::spec_read(s) is Ok,
        VarInt::spec_read(s)->Ok_0.0 .0 != TEST_A_ID,
        VarInt::spec_read(s)->Ok_0.0 .0 != TEST_B_ID,
    ensures
        BiPackets::spec_read(s) == Err::<(BiPacketsModel, nat), PacketError>(
            PacketError::UnknownPacket(VarInt::spec_read(s)->Ok_0.0 .0),
        ),
        BiPackets::spec_err_taken(s) == VarInt::spec_read(s)->Ok_0.1,
{
}

/// An enumeration carried as a field: each variant is written as its VarInt value.
#[derive(Debug, Clone, Copy, PartialEq, Eq, Structural)]
pub enum Test {
    X,
    B,
}

/// Value of `Test::X` on the wire.
pub const TEST_X_VALUE: u32 = 1;

/// Value of `Test::B` on the wire.
pub const TEST_B_VALUE: u32 = 999;

impl Test {
    /// The value that stands for `self` on the wire.
    pub open spec fn spec_value(&self) -> u32 {
        match self {
            Test::X => TEST_X_VALUE,
            Test::B => TEST_B_VALUE,
        }
    }
}

impl DeepView for Test {
    type V = Test;

    open spec fn deep_view(&self) -> Test {
        *self
    }
}

impl Writable for Test {
    open spec fn spec_write(&self) -> Result<Seq<u8>, PacketError> {
        Ok(var_bytes(self.spec_value() as nat))
    }

    open spec fn write_ready(&self) -> bool {
        true
    }

    fn write(&self, o: &mut Vec<u8>) -> (r: Result<(), PacketError>) {
        let v = match self {
            Test::X => TEST_X_VALUE,
            Test::B => TEST_B_VALUE,
        };
        VarInt(v).write(o)
    }
}

impl Readable for Test {
    /// A value that no variant carries fails.
    open spec fn spec_read(s: Seq<u8>) -> Result<(Test, nat), PacketError> {
        match VarInt::spec_read(s) {
            Err(e) => Err(e),
            Ok((v, n)) => if v.0 == TEST_X_VALUE {
                Ok((Test::X, n))
            } else if v.0 == TEST_B_VALUE {
                Ok((Test::B, n))
            } else {
                Err(PacketError::UnknownEnumValue)
            },
        }
    }

    /// An unknown value leaves the source just after it.
    open spec fn spec_err_taken(s: Seq<u8>) -> nat {
        match VarInt::spec_read(s) {
            Err(_) => VarInt::spec_err_taken(s),
            Ok((v, n)) => n,
        }
    }

    open spec fn read_ready() -> bool {
        true
    }

    proof fn lemma_read_len(s: Seq<u8>) {
        VarInt::lemma_read_len(s);
    }

    fn read(i: &mut Reader) -> (r: Result<Test, PacketError>) {
        let ghost s = i@;
        let value = match VarInt::read(i) {
            Ok(v) => v.0,
            Err(e) => return Err(e),
        };
        if value == TEST_X_VALUE {
            Ok(Test::X)
        } else if value == TEST_B_VALUE {
            Ok(Test::B)
        } else {
            assert(i@ =~= s.skip(s.len() - i@.len()));
            Err(PacketError::UnknownEnumValue)
        }
    }
}

impl Codec for Test {
    open spec fn round_trip_ready(&self) -> bool {
        true
    }

    proof fn lemma_round_trip(v: &Test, rest: Seq<u8>) {
        VarInt::lemma_round_trip(&VarInt(v.spec_value()), rest);
    }
}

/// A record that is only ever sent: its fields in declared order, no tags.
#[derive(Debug, Clone, PartialEq)]
pub struct TestStruct {
    pub name: String,
}

impl Writable for TestStruct {
    open spec fn spec_write(&self) -> Result<Seq<u8>, PacketError> {
        self.name.spec_write()
    }

    open spec fn write_ready(&self) -> bool {
        true
    }

    fn write(&self, o: &mut Vec<u8>) -> (r: Result<(), PacketError>) {
        self.name.write(o)
    }
}

} // verus!
