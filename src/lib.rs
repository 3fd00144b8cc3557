pub mod composite;
pub mod error;
pub mod io;
pub mod map;
pub mod packet;
pub mod packets;
pub mod primitive;
pub mod reader;
pub mod varint;

pub use composite::MAX_STRING_LENGTH;
pub use error::PacketError;
pub use io::{decode, encode, Codec, Readable, Writable};
pub use packet::{ExamplePacket, Packets, TestPacket, VariantOf};
pub use packets::{BiPackets, Test, TestStruct};
pub use reader::Reader;
pub use varint::{VarInt, VarLong};
