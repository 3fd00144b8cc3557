use vstd::prelude::*;

use crate::error::PacketError;
use crate::io::{Codec, Readable, Writable};
use crate::reader::Reader;
use crate::varint::{var_bytes, VarInt};

verus! {

/// A packet type that is one variant of the packet group `Enum`.
pub trait VariantOf<Enum>: Sized {
    /// The id of this packet within its group.
    spec fn spec_discriminant_id() -> u32;

    /// The packet that `e` holds, if `e` is this variant.
    spec fn spec_destructure(e: Enum) -> Option<Self>;

    /// The id of this packet within its group.
    fn discriminant_id() -> (r: u32)
        ensures
            r == Self::spec_discriminant_id(),
    ;

    /// The packet that `e` holds, or `None` where `e` is another variant.
    fn destructure(e: Enum) -> (r: Option<Self>)
        ensures
            r == Self::spec_destructure(e),
    ;
}

/// Id of `TestPacket` within `Packets`.
pub const TEST_PACKET_ID: u32 = 0x05;

/// Id of `ExamplePacket` within `Packets`.
pub const EXAMPLE_PACKET_ID: u32 = 0x06;

/// A packet that carries one `VarInt`.
#[derive(Debug, Clone, Copy, PartialEq, Eq, Structural)]
pub struct TestPacket {
    pub test: VarInt,
}

/// A packet that carries one byte.
#[derive(Debug, Clone, Copy, PartialEq, Eq, Structural)]
pub struct ExamplePacket {
    pub test: u8,
}

/// A packet group that is received: its id, then the packet's fields.
#[derive(Debug, Clone, Copy, PartialEq, Eq, Structural)]
pub enum Packets {
    TestPacket(TestPacket),
    ExamplePacket(ExamplePacket),
}

impl DeepView for TestPacket {
    type V = TestPacket;

    open spec fn deep_view(&self) -> TestPacket {
        *self
    }
}

impl DeepView for ExamplePacket {
    type V = ExamplePacket;

    open spec fn deep_view(&self) -> ExamplePacket {
        *self
    }
}

impl DeepView for Packets {
    type V = Packets;

    open spec fn deep_view(&self) -> Packets {
        *self
    }
}

impl Packets {
    /// The id of the packet that `self` holds.
    pub open spec fn spec_id(&self) -> u32 {
        match self {
            Packets::TestPacket(_) => TEST_PACKET_ID,
            Packets::ExamplePacket(_) => EXAMPLE_PACKET_ID,
        }
    }

    /// The id of the packet that `self` holds.
    pub fn id(&self) -> (r: u32)
        ensures
            r == self.spec_id(),
    {
        match self {
            Packets::TestPacket(_) => TEST_PACKET_ID,
            Packets::ExamplePacket(_) => EXAMPLE_PACKET_ID,
        }
    }
}

impl VariantOf<Packets> for TestPacket {
    open spec fn spec_discriminant_id() -> u32 {
        TEST_PACKET_ID
    }

    open spec fn spec_destructure(e: Packets) -> Option<TestPacket> {
        match e {
            Packets::TestPacket(p) => Some(p),
            _ => None,
        }
    }

    fn discriminant_id() -> (r: u32) {
        TEST_PACKET_ID
    }

    fn destructure(e: Packets) -> (r: Option<TestPacket>) {
        match e {
            Packets::TestPacket(p) => Some(p),
            _ => None,
        }
    }
}

impl VariantOf<Packets> for ExamplePacket {
    open spec fn spec_discriminant_id() -> u32 {
        EXAMPLE_PACKET_ID
    }

    open spec fn spec_destructure(e: Packets) -> Option<ExamplePacket> {
        match e {
            Packets::ExamplePacket(p) => Some(p),
            _ => None,
        }
    }

    fn discriminant_id() -> (r: u32) {
        EXAMPLE_PACKET_ID
    }

    fn destructure(e: Packets) -> (r: Option<ExamplePacket>) {
        match e {
            Packets::ExamplePacket(p) => Some(p),
            _ => None,
        }
    }
}

impl From<TestPacket> for Packets {
    fn from(packet: TestPacket) -> (r: Packets)
        ensures
            r == Packets::TestPacket(packet),
    {
        Packets::TestPacket(packet)
    }
}

impl vstd::std_specs::convert::FromSpecImpl<TestPacket> for Packets {
    open spec fn obeys_from_spec() -> bool {
        true
    }

    open spec fn from_spec(packet: TestPacket) -> Packets {
        Packets::TestPacket(packet)
    }
}

impl From<ExamplePacket> for Packets {
    fn from(packet: ExamplePacket) -> (r: Packets)
        ensures
            r == Packets::ExamplePacket(packet),
    {
        Packets::ExamplePacket(packet)
    }
}

impl vstd::std_specs::convert::FromSpecImpl<ExamplePacket> for Packets {
    open spec fn obeys_from_spec() -> bool {
        true
    }

    open spec fn from_spec(packet: ExamplePacket) -> Packets {
        Packets::ExamplePacket(packet)
    }
}

impl Writable for TestPacket {
    /// The packet's id, then its field.
    open spec fn spec_write(&self) -> Result<Seq<u8>, PacketError> {
        Ok(var_bytes(TEST_PACKET_ID as nat) + self.test.spec_write()->Ok_0)
    }

    open spec fn write_ready(&self) -> bool {
        true
    }

    fn write(&self, o: &mut Vec<u8>) -> (r: Result<(), PacketError>) {
        let _ = VarInt(TEST_PACKET_ID).write(o);
        let _ = self.test.write(o);
        assert(o@ =~= old(o)@ + self.spec_write()->Ok_0);
        Ok(())
    }
}

impl Readable for TestPacket {
    /// The field alone: the id is read by the group. A field that fails is
    /// named with its packet.
    open spec fn spec_read(s: Seq<u8>) -> Result<(TestPacket, nat), PacketError> {
        match VarInt::spec_read(s) {
            Ok((test, n)) => Ok((TestPacket { test }, n)),
            Err(e) => Err(PacketError::FieldDecodeFailure("TestPacket", "test", Box::new(e))),
        }
    }

    open spec fn spec_err_taken(s: Seq<u8>) -> nat {
        VarInt::spec_err_taken(s)
    }

    open spec fn read_ready() -> bool {
        true
    }

    proof fn lemma_read_len(s: Seq<u8>) {
        VarInt::lemma_read_len(s);
    }

    fn read(i: &mut Reader) -> (r: Result<TestPacket, PacketError>) {
        match VarInt::read(i) {
            Ok(test) => Ok(TestPacket { test }),
            Err(e) => Err(PacketError::FieldDecodeFailure("TestPacket", "test", Box::new(e))),
        }
    }
}

impl Writable for ExamplePacket {
    /// The packet's id, then its field.
    open spec fn spec_write(&self) -> Result<Seq<u8>, PacketError> {
        Ok(var_bytes(EXAMPLE_PACKET_ID as nat) + seq![self.test])
    }

    open spec fn write_ready(&self) -> bool {
        true
    }

    fn write(&self, o: &mut Vec<u8>) -> (r: Result<(), PacketError>) {
        let _ = VarInt(EXAMPLE_PACKET_ID).write(o);
        let _ = self.test.write(o);
        assert(o@ =~= old(o)@ + self.spec_write()->Ok_0);
        Ok(())
    }
}

impl Readable for ExamplePacket {
    /// The field alone: the id is read by the group. A field that fails is
    /// named with its packet.
    open spec fn spec_read(s: Seq<u8>) -> Result<(ExamplePacket, nat), PacketError> {
        match u8::spec_read(s) {
            Ok((test, n)) => Ok((ExamplePacket { test }, n)),
            Err(e) => Err(PacketError::FieldDecodeFailure("ExamplePacket", "test", Box::new(e))),
        }
    }

    open spec fn spec_err_taken(s: Seq<u8>) -> nat {
        u8::spec_err_taken(s)
    }

    open spec fn read_ready() -> bool {
        true
    }

    proof fn lemma_read_len(s: Seq<u8>) {
    }

    fn read(i: &mut Reader) -> (r: Result<ExamplePacket, PacketError>) {
        match u8::read(i) {
            Ok(test) => Ok(ExamplePacket { test }),
            Err(e) => Err(PacketError::FieldDecodeFailure("ExamplePacket", "test", Box::new(e))),
        }
    }
}

impl Readable for Packets {
    /// An id that no packet of the group carries fails with that id, and leaves
    /// the source just after it.
    open spec fn spec_read(s: Seq<u8>) -> Result<(Packets, nat), PacketError> {
        match VarInt::spec_read(s) {
            Err(e) => Err(e),
            Ok((id, n)) => if id.0 == TEST_PACKET_ID {
                match TestPacket::spec_read(s.skip(n as int)) {
                    Ok((p, m)) => Ok((Packets::TestPacket(p), n + m)),
                    Err(e) => Err(e),
                }
            } else if id.0 == EXAMPLE_PACKET_ID {
                match ExamplePacket::spec_read(s.skip(n as int)) {
                    Ok((p, m)) => Ok((Packets::ExamplePacket(p), n + m)),
                    Err(e) => Err(e),
                }
            } else {
                Err(PacketError::UnknownPacket(id.0))
            },
        }
    }

    open spec fn read_ready() -> bool {
        true
    }

    open spec fn spec_err_taken(s: Seq<u8>) -> nat {
        match VarInt::spec_read(s) {
            Err(_) => VarInt::spec_err_taken(s),
            Ok((id, n)) => if id.0 == TEST_PACKET_ID {
                n + TestPacket::spec_err_taken(s.skip(n as int))
            } else if id.0 == EXAMPLE_PACKET_ID {
                n + ExamplePacket::spec_err_taken(s.skip(n as int))
            } else {
                n
            },
        }
    }

    proof fn lemma_read_len(s: Seq<u8>) {
        VarInt::lemma_read_len(s);
        if let Ok((id, n)) = VarInt::spec_read(s) {
            TestPacket::lemma_read_len(s.skip(n as int));
            ExamplePacket::lemma_read_len(s.skip(n as int));
        }
    }

    fn read(i: &mut Reader) -> (r: Result<Packets, PacketError>) {
        let ghost s = i@;
        let packet_id = match VarInt::read(i) {
            Ok(v) => v.0,
            Err(e) => return Err(e),
        };
        let ghost n = (s.len() - i@.len()) as nat;
        let ghost s1 = i@;
        proof {
            assert(s1 =~= s.skip(n as int));
        }
        if packet_id == TEST_PACKET_ID {
            match TestPacket::read(i) {
                Ok(p) => {
                    assert(i@ =~= s.skip(s.len() - i@.len()));
                    Ok(Packets::TestPacket(p))
                },
                Err(e) => {
                    proof {
                        TestPacket::lemma_read_len(s1);
                        assert(i@ =~= s.skip((n + TestPacket::spec_err_taken(s1)) as int));
                    }
                    Err(e)
                },
            }
        } else if packet_id == EXAMPLE_PACKET_ID {
            match ExamplePacket::read(i) {
                Ok(p) => {
                    assert(i@ =~= s.skip(s.len() - i@.len()));
                    Ok(Packets::ExamplePacket(p))
                },
                Err(e) => {
                    proof {
                        assert(i@ =~= s.skip((n + ExamplePacket::spec_err_taken(s1)) as int));
                    }
                    Err(e)
                },
            }
        } else {
            Err(PacketError::UnknownPacket(packet_id))
        }
    }
}

/// The bytes that a write of the packet held by `p` appends.
pub open spec fn packet_bytes(p: Packets) -> Seq<u8> {
    match p {
        Packets::TestPacket(t) => t.spec_write()->Ok_0,
        Packets::ExamplePacket(x) => x.spec_write()->Ok_0,
    }
}

/// Reading the group from what a write of one of its packets appends, followed
/// by any bytes, gives back that packet in its variant and takes exactly those bytes.
pub proof fn lemma_packets_round_trip(p: Packets, rest: Seq<u8>)
    ensures
        Packets::spec_read(packet_bytes(p) + rest) == Ok::<(Packets, nat), PacketError>(
            (p, packet_bytes(p).len()),
        ),
{
    match p {
        Packets::TestPacket(t) => {
            let body = t.test.spec_write()->Ok_0;
            VarInt::lemma_round_trip(&VarInt(TEST_PACKET_ID), body + rest);
            VarInt::lemma_round_trip(&t.test, rest);
            let all = var_bytes(TEST_PACKET_ID as nat) + body + rest;
            assert(all =~= var_bytes(TEST_PACKET_ID as nat) + (body + rest));
            assert(all.skip(var_bytes(TEST_PACKET_ID as nat).len() as int) =~= body + rest);
        },
        Packets::ExamplePacket(x) => {
            let body = seq![x.test];
            VarInt::lemma_round_trip(&VarInt(EXAMPLE_PACKET_ID), body + rest);
            let all = var_bytes(EXAMPLE_PACKET_ID as nat) + body + rest;
            assert(all =~= var_bytes(EXAMPLE_PACKET_ID as nat) + (body + rest));
            assert(all.skip(var_bytes(EXAMPLE_PACKET_ID as nat).len() as int) =~= body + rest);
        },
    }
}

/// A stream whose leading VarInt is no id of the group fails to read, with
/// exactly that id, and leaves the source just after the id.
pub proof fn lemma_packets_unknown_id(s: Seq<u8>)
    requires
        VarInt::spec_read(s) is Ok,
        VarInt::spec_read(s)->Ok_0.0 .0 != TEST_PACKET_ID,
        VarInt::spec_read(s)->Ok_0.0 .0 != EXAMPLE_PACKET_ID,
    ensures
        Packets::spec_read(s) == Err::<(Packets, nat), PacketError>(
            PacketError::UnknownPacket(VarInt::spec_read(s)->Ok_0.0 .0),
        ),
        Packets::spec_err_taken(s) == VarInt::spec_read(s)->Ok_0.1,
{
}

} // verus!
