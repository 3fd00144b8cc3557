use byteorder::{BigEndian, ByteOrder};
use vstd::arithmetic::power::pow;
use vstd::prelude::*;

use crate::error::PacketError;
use crate::io::{Codec, Readable, Writable};
use crate::reader::Reader;

verus! {

/// The `k` bytes of `x`, most significant first (`x` taken modulo `256^k`).
pub open spec fn be_bytes(x: nat, k: nat) -> Seq<u8>
    decreases k,
{
    if k == 0 {
        Seq::empty()
    } else {
        be_bytes(x / 256, (k - 1) as nat).push((x % 256) as u8)
    }
}

/// The number whose bytes, most significant first, are `s`.
pub open spec fn be_value(s: Seq<u8>) -> nat
    decreases s.len(),
{
    if s.len() == 0 {
        0
    } else {
        be_value(s.drop_last()) * 256 + s.last() as nat
    }
}

/// Decoding the `k` bytes of `x` gives back `x` when it fits in them.
pub proof fn lemma_be_round_trip(x: nat, k: nat)
    requires
        x < pow(256, k),
    ensures
        be_bytes(x, k).len() == k,
        be_value(be_bytes(x, k)) == x,
    decreases k,
{
    reveal(pow);
    if k > 0 {
        assert(pow(256, k) == 256 * pow(256, (k - 1) as nat));
        assert(x / 256 < pow(256, (k - 1) as nat)) by {
            vstd::arithmetic::div_mod::lemma_div_by_multiple_is_strongly_ordered(
                x as int,
                pow(256, k) as int,
                pow(256, (k - 1) as nat) as int,
                256,
            );
        }
        lemma_be_round_trip(x / 256, (k - 1) as nat);
        let b = be_bytes(x, k);
        assert(b.drop_last() =~= be_bytes(x / 256, (k - 1) as nat));
    } else {
        assert(x == 0);
    }
}

/// The value of `k` leading bytes, or a missing-bytes error.
pub open spec fn fixed_read(s: Seq<u8>, k: nat) -> Result<(nat, nat), PacketError> {
    if s.len() < k {
        Err(PacketError::IO)
    } else {
        Ok((be_value(s.take(k as int)), k))
    }
}

/// Relies on byteorder's `BigEndian::write_u16`: the bytes of `n`, most significant first.
#[verifier::external_body]
fn be_write_u16(n: u16) -> (r: Vec<u8>)
    ensures
        r@ == be_bytes(n as nat, 2),
{
    let mut buf = vec![0u8; 2];
    BigEndian::write_u16(&mut buf, n);
    buf
}

/// Relies on byteorder's `BigEndian::write_u32`: the bytes of `n`, most significant first.
#[verifier::external_body]
fn be_write_u32(n: u32) -> (r: Vec<u8>)
    ensures
        r@ == be_bytes(n as nat, 4),
{
    let mut buf = vec![0u8; 4];
    BigEndian::write_u32(&mut buf, n);
    buf
}

/// Relies on byteorder's `BigEndian::write_u64`: the bytes of `n`, most significant first.
#[verifier::external_body]
fn be_write_u64(n: u64) -> (r: Vec<u8>)
    ensures
        r@ == be_bytes(n as nat, 8),
{
    let mut buf = vec![0u8; 8];
    BigEndian::write_u64(&mut buf, n);
    buf
}

/// Relies on byteorder's `BigEndian::read_u16`: the number whose bytes, most
/// significant first, are the first two of `b`.
#[verifier::external_body]
fn be_read_u16(b: &[u8]) -> (r: u16)
    requires
        b@.len() >= 2,
    ensures
        r as nat == be_value(b@.take(2)),
{
    BigEndian::read_u16(b)
}

/// Relies on byteorder's `BigEndian::read_u32`: the number whose bytes, most
/// significant first, are the first four of `b`.
#[verifier::external_body]
fn be_read_u32(b: &[u8]) -> (r: u32)
    requires
        b@.len() >= 4,
    ensures
        r as nat == be_value(b@.take(4)),
{
    BigEndian::read_u32(b)
}

/// Relies on byteorder's `BigEndian::read_u64`: the number whose bytes, most
/// significant first, are the first eight of `b`.
#[verifier::external_body]
fn be_read_u64(b: &[u8]) -> (r: u64)
    requires
        b@.len() >= 8,
    ensures
        r as nat == be_value(b@.take(8)),
{
    BigEndian::read_u64(b)
}

impl Writable for u8 {
    open spec fn spec_write(&self) -> Result<Seq<u8>, PacketError> {
        Ok(seq![*self])
    }

    open spec fn write_ready(&self) -> bool {
        true
    }

    fn write(&self, o: &mut Vec<u8>) -> (r: Result<(), PacketError>) {
        o.push(*self);
        assert(o@ =~= old(o)@ + self.spec_write()->Ok_0);
        Ok(())
    }
}

impl Readable for u8 {
    open spec fn spec_read(s: Seq<u8>) -> Result<(u8, nat), PacketError> {
        if s.len() == 0 {
            Err(PacketError::IO)
        } else {
            Ok((s[0], 1))
        }
    }

    open spec fn spec_err_taken(s: Seq<u8>) -> nat {
        0
    }

    open spec fn read_ready() -> bool {
        true
    }

    proof fn lemma_read_len(s: Seq<u8>) {
    }

    fn read(i: &mut Reader) -> (r: Result<u8, PacketError>) {
        i.read_u8()
    }
}

impl Codec for u8 {
    open spec fn round_trip_ready(&self) -> bool {
        true
    }

    proof fn lemma_round_trip(v: &u8, rest: Seq<u8>) {
    }
}

impl Writable for i8 {
    open spec fn spec_write(&self) -> Result<Seq<u8>, PacketError> {
        Ok(seq![*self as u8])
    }

    open spec fn write_ready(&self) -> bool {
        true
    }

    fn write(&self, o: &mut Vec<u8>) -> (r: Result<(), PacketError>) {
        o.push(*self as u8);
        assert(o@ =~= old(o)@ + self.spec_write()->Ok_0);
        Ok(())
    }
}

impl Readable for i8 {
    open spec fn spec_read(s: Seq<u8>) -> Result<(i8, nat), PacketError> {
        if s.len() == 0 {
            Err(PacketError::IO)
        } else {
            Ok((s[0] as i8, 1))
        }
    }

    open spec fn spec_err_taken(s: Seq<u8>) -> nat {
        0
    }

    open spec fn read_ready() -> bool {
        true
    }

    proof fn lemma_read_len(s: Seq<u8>) {
    }

    fn read(i: &mut Reader) -> (r: Result<i8, PacketError>) {
        match i.read_u8() {
            Ok(b) => Ok(b as i8),
            Err(e) => Err(e),
        }
    }
}

impl Codec for i8 {
    open spec fn round_trip_ready(&self) -> bool {
        true
    }

    proof fn lemma_round_trip(v: &i8, rest: Seq<u8>) {
        let x = *v;
        assert(((x as u8) as i8) == x) by (bit_vector);
    }
}

/// The byte that stands for `b`.
pub open spec fn bool_byte(b: bool) -> u8 {
    if b {
        1
    } else {
        0
    }
}

impl Writable for bool {
    open spec fn spec_write(&self) -> Result<Seq<u8>, PacketError> {
        Ok(seq![bool_byte(*self)])
    }

    open spec fn write_ready(&self) -> bool {
        true
    }

    fn write(&self, o: &mut Vec<u8>) -> (r: Result<(), PacketError>) {
        let b: u8 = if *self {
            1
        } else {
            0
        };
        o.push(b);
        assert(o@ =~= old(o)@ + self.spec_write()->Ok_0);
        Ok(())
    }
}

impl Readable for bool {
    /// Only the bytes 0 and 1 are booleans.
    open spec fn spec_read(s: Seq<u8>) -> Result<(bool, nat), PacketError> {
        if s.len() == 0 {
            Err(PacketError::IO)
        } else if s[0] == 0 {
            Ok((false, 1))
        } else if s[0] == 1 {
            Ok((true, 1))
        } else {
            Err(PacketError::InvalidBoolean(s[0]))
        }
    }

    open spec fn spec_err_taken(s: Seq<u8>) -> nat {
        if s.len() == 0 {
            0
        } else {
            1
        }
    }

    open spec fn read_ready() -> bool {
        true
    }

    proof fn lemma_read_len(s: Seq<u8>) {
    }

    fn read(i: &mut Reader) -> (r: Result<bool, PacketError>) {
        let byte = match i.read_u8() {
            Ok(b) => b,
            Err(e) => return Err(e),
        };
        match byte {
            0 => Ok(false),
            1 => Ok(true),
            _ => Err(PacketError::InvalidBoolean(byte)),
        }
    }
}

impl Codec for bool {
    open spec fn round_trip_ready(&self) -> bool {
        true
    }

    proof fn lemma_round_trip(v: &bool, rest: Seq<u8>) {
    }
}

impl Writable for u16 {
    open spec fn spec_write(&self) -> Result<Seq<u8>, PacketError> {
        Ok(be_bytes(*self as nat, 2))
    }

    open spec fn write_ready(&self) -> bool {
        true
    }

    fn write(&self, o: &mut Vec<u8>) -> (r: Result<(), PacketError>) {
        let mut b = be_write_u16(*self);
        o.append(&mut b);
        assert(o@ =~= old(o)@ + self.spec_write()->Ok_0);
        Ok(())
    }
}

impl Readable for u16 {
    open spec fn spec_read(s: Seq<u8>) -> Result<(u16, nat), PacketError> {
        match fixed_read(s, 2) {
            Ok((v, n)) => Ok((v as u16, n)),
            Err(e) => Err(e),
        }
    }

    open spec fn spec_err_taken(s: Seq<u8>) -> nat {
        0
    }

    open spec fn read_ready() -> bool {
        true
    }

    proof fn lemma_read_len(s: Seq<u8>) {
    }

    fn read(i: &mut Reader) -> (r: Result<u16, PacketError>) {
        match i.read_exact(2) {
            Ok(b) => {
                assert(b@.take(2) =~= b@);
                Ok(be_read_u16(b.as_slice()))
            },
            Err(e) => Err(e),
        }
    }
}

impl Codec for u16 {
    open spec fn round_trip_ready(&self) -> bool {
        true
    }

    proof fn lemma_round_trip(v: &u16, rest: Seq<u8>) {
        let x = *v;
        reveal_with_fuel(pow, 3);
        assert(pow(256, 2) == 65536);
        lemma_be_round_trip(x as nat, 2);
        assert((be_bytes(x as nat, 2) + rest).take(2) =~= be_bytes(x as nat, 2));
    }
}

impl Writable for i16 {
    open spec fn spec_write(&self) -> Result<Seq<u8>, PacketError> {
        Ok(be_bytes((*self as u16) as nat, 2))
    }

    open spec fn write_ready(&self) -> bool {
        true
    }

    fn write(&self, o: &mut Vec<u8>) -> (r: Result<(), PacketError>) {
        let mut b = be_write_u16(*self as u16);
        o.append(&mut b);
        assert(o@ =~= old(o)@ + self.spec_write()->Ok_0);
        Ok(())
    }
}

impl Readable for i16 {
    open spec fn spec_read(s: Seq<u8>) -> Result<(i16, nat), PacketError> {
        match fixed_read(s, 2) {
            Ok((v, n)) => Ok(((v as u16) as i16, n)),
            Err(e) => Err(e),
        }
    }

    open spec fn spec_err_taken(s: Seq<u8>) -> nat {
        0
    }

    open spec fn read_ready() -> bool {
        true
    }

    proof fn lemma_read_len(s: Seq<u8>) {
    }

    fn read(i: &mut Reader) -> (r: Result<i16, PacketError>) {
        match i.read_exact(2) {
            Ok(b) => {
                assert(b@.take(2) =~= b@);
                Ok(be_read_u16(b.as_slice()) as i16)
            },
            Err(e) => Err(e),
        }
    }
}

impl Codec for i16 {
    open spec fn round_trip_ready(&self) -> bool {
        true
    }

    proof fn lemma_round_trip(v: &i16, rest: Seq<u8>) {
        let x = *v;
        reveal_with_fuel(pow, 3);
        assert(pow(256, 2) == 65536);
        lemma_be_round_trip((x as u16) as nat, 2);
        assert((be_bytes((x as u16) as nat, 2) + rest).take(2) =~= be_bytes((x as u16) as nat, 2));
        assert(((x as u16) as i16) == x) by (bit_vector);
    }
}

impl Writable for u32 {
    open spec fn spec_write(&self) -> Result<Seq<u8>, PacketError> {
        Ok(be_bytes(*self as nat, 4))
    }

    open spec fn write_ready(&self) -> bool {
        true
    }

    fn write(&self, o: &mut Vec<u8>) -> (r: Result<(), PacketError>) {
        let mut b = be_write_u32(*self);
        o.append(&mut b);
        assert(o@ =~= old(o)@ + self.spec_write()->Ok_0);
        Ok(())
    }
}

impl Readable for u32 {
    open spec fn spec_read(s: Seq<u8>) -> Result<(u32, nat), PacketError> {
        match fixed_read(s, 4) {
            Ok((v, n)) => Ok((v as u32, n)),
            Err(e) => Err(e),
        }
    }

    open spec fn spec_err_taken(s: Seq<u8>) -> nat {
        0
    }

    open spec fn read_ready() -> bool {
        true
    }

    proof fn lemma_read_len(s: Seq<u8>) {
    }

    fn read(i: &mut Reader) -> (r: Result<u32, PacketError>) {
        match i.read_exact(4) {
            Ok(b) => {
                assert(b@.take(4) =~= b@);
                Ok(be_read_u32(b.as_slice()))
            },
            Err(e) => Err(e),
        }
    }
}

impl Codec for u32 {
    open spec fn round_trip_ready(&self) -> bool {
        true
    }

    proof fn lemma_round_trip(v: &u32, rest: Seq<u8>) {
        let x = *v;
        reveal_with_fuel(pow, 5);
        assert(pow(256, 4) == 4294967296);
        lemma_be_round_trip(x as nat, 4);
        assert((be_bytes(x as nat, 4) + rest).take(4) =~= be_bytes(x as nat, 4));
    }
}

impl Writable for i32 {
    open spec fn spec_write(&self) -> Result<Seq<u8>, PacketError> {
        Ok(be_bytes((*self as u32) as nat, 4))
    }

    open spec fn write_ready(&self) -> bool {
        true
    }

    fn write(&self, o: &mut Vec<u8>) -> (r: Result<(), PacketError>) {
        let mut b = be_write_u32(*self as u32);
        o.append(&mut b);
        assert(o@ =~= old(o)@ + self.spec_write()->Ok_0);
        Ok(())
    }
}

impl Readable for i32 {
    open spec fn spec_read(s: Seq<u8>) -> Result<(i32, nat), PacketError> {
        match fixed_read(s, 4) {
            Ok((v, n)) => Ok(((v as u32) as i32, n)),
            Err(e) => Err(e),
        }
    }

    open spec fn spec_err_taken(s: Seq<u8>) -> nat {
        0
    }

    open spec fn read_ready() -> bool {
        true
    }

    proof fn lemma_read_len(s: Seq<u8>) {
    }

    fn read(i: &mut Reader) -> (r: Result<i32, PacketError>) {
        match i.read_exact(4) {
            Ok(b) => {
                assert(b@.take(4) =~= b@);
                Ok(be_read_u32(b.as_slice()) as i32)
            },
            Err(e) => Err(e),
        }
    }
}

impl Codec for i32 {
    open spec fn round_trip_ready(&self) -> bool {
        true
    }

    proof fn lemma_round_trip(v: &i32, rest: Seq<u8>) {
        let x = *v;
        reveal_with_fuel(pow, 5);
        assert(pow(256, 4) == 4294967296);
        lemma_be_round_trip((x as u32) as nat, 4);
        assert((be_bytes((x as u32) as nat, 4) + rest).take(4) =~= be_bytes((x as u32) as nat, 4));
        assert(((x as u32) as i32) == x) by (bit_vector);
    }
}

impl Writable for u64 {
    open spec fn spec_write(&self) -> Result<Seq<u8>, PacketError> {
        Ok(be_bytes(*self as nat, 8))
    }

    open spec fn write_ready(&self) -> bool {
        true
    }

    fn write(&self, o: &mut Vec<u8>) -> (r: Result<(), PacketError>) {
        let mut b = be_write_u64(*self);
        o.append(&mut b);
        assert(o@ =~= old(o)@ + self.spec_write()->Ok_0);
        Ok(())
    }
}

impl Readable for u64 {
    open spec fn spec_read(s: Seq<u8>) -> Result<(u64, nat), PacketError> {
        match fixed_read(s, 8) {
            Ok((v, n)) => Ok((v as u64, n)),
            Err(e) => Err(e),
        }
    }

    open spec fn spec_err_taken(s: Seq<u8>) -> nat {
        0
    }

    open spec fn read_ready() -> bool {
        true
    }

    proof fn lemma_read_len(s: Seq<u8>) {
    }

    fn read(i: &mut Reader) -> (r: Result<u64, PacketError>) {
        match i.read_exact(8) {
            Ok(b) => {
                assert(b@.take(8) =~= b@);
                Ok(be_read_u64(b.as_slice()))
            },
            Err(e) => Err(e),
        }
    }
}

impl Codec for u64 {
    open spec fn round_trip_ready(&self) -> bool {
        true
    }

    proof fn lemma_round_trip(v: &u64, rest: Seq<u8>) {
        let x = *v;
        reveal_with_fuel(pow, 9);
        assert(pow(256, 8) == 18446744073709551616);
        lemma_be_round_trip(x as nat, 8);
        assert((be_bytes(x as nat, 8) + rest).take(8) =~= be_bytes(x as nat, 8));
    }
}

impl Writable for i64 {
    open spec fn spec_write(&self) -> Result<Seq<u8>, PacketError> {
        Ok(be_bytes((*self as u64) as nat, 8))
    }

    open spec fn write_ready(&self) -> bool {
        true
    }

    fn write(&self, o: &mut Vec<u8>) -> (r: Result<(), PacketError>) {
        let mut b = be_write_u64(*self as u64);
        o.append(&mut b);
        assert(o@ =~= old(o)@ + self.spec_write()->Ok_0);
        Ok(())
    }
}

impl Readable for i64 {
    open spec fn spec_read(s: Seq<u8>) -> Result<(i64, nat), PacketError> {
        match fixed_read(s, 8) {
            Ok((v, n)) => Ok(((v as u64) as i64, n)),
            Err(e) => Err(e),
        }
    }

    open spec fn spec_err_taken(s: Seq<u8>) -> nat {
        0
    }

    open spec fn read_ready() -> bool {
        true
    }

    proof fn lemma_read_len(s: Seq<u8>) {
    }

    fn read(i: &mut Reader) -> (r: Result<i64, PacketError>) {
        match i.read_exact(8) {
            Ok(b) => {
                assert(b@.take(8) =~= b@);
                Ok(be_read_u64(b.as_slice()) as i64)
            },
            Err(e) => Err(e),
        }
    }
}

impl Codec for i64 {
    open spec fn round_trip_ready(&self) -> bool {
        true
    }

    proof fn lemma_round_trip(v: &i64, rest: Seq<u8>) {
        let x = *v;
        reveal_with_fuel(pow, 9);
        assert(pow(256, 8) == 18446744073709551616);
        lemma_be_round_trip((x as u64) as nat, 8);
        assert((be_bytes((x as u64) as nat, 8) + rest).take(8) =~= be_bytes((x as u64) as nat, 8));
        assert(((x as u64) as i64) == x) by (bit_vector);
    }
}

} // verus!
