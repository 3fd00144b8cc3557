use vstd::prelude::*;

verus! {

/// Every way an encode or a decode can fail.
#[derive(Debug, PartialEq, Eq)]
pub enum PacketError {
    /// The byte source ended before the value did.
    IO,
    /// The bytes of a string are not valid UTF-8.
    BadEncoding,
    /// A string length (first) above the largest allowed one (second).
    InvalidStringLength(usize, usize),
    /// A boolean byte other than 0 or 1.
    InvalidBoolean(u8),
    /// A variable-length integer ran over its largest byte count.
    VarOverflow(usize),
    /// A collection too long for its count prefix.
    LengthOverflow(usize),
    /// A packet discriminant that no packet of the group carries.
    UnknownPacket(u32),
    /// An enumeration value that no variant carries.
    UnknownEnumValue,
    /// The element at this index of a list or map failed to read, with the wrapped error.
    ElementFailed(usize, Box<PacketError>),
    /// This field (second) of this packet (first) failed to read, with the wrapped error.
    FieldDecodeFailure(&'static str, &'static str, Box<PacketError>),
}

impl PacketError {
    /// The source ended before the value did, possibly inside a list element or
    /// a packet field: more bytes could make the read succeed.
    pub open spec fn spec_is_incomplete(&self) -> bool
        decreases self,
    {
        match self {
            PacketError::IO => true,
            PacketError::ElementFailed(_, e) => e.spec_is_incomplete(),
            PacketError::FieldDecodeFailure(_, _, e) => e.spec_is_incomplete(),
            _ => false,
        }
    }

    /// Whether the source ended before the value did.
    pub fn is_incomplete(&self) -> (r: bool)
        ensures
            r == self.spec_is_incomplete(),
        decreases self,
    {
        match self {
            PacketError::IO => true,
            PacketError::ElementFailed(_, e) => e.is_incomplete(),
            PacketError::FieldDecodeFailure(_, _, e) => e.is_incomplete(),
            _ => false,
        }
    }
}

} // verus!
