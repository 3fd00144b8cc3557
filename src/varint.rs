use vstd::arithmetic::power::{lemma_pow_positive, pow};
use vstd::prelude::*;

use crate::error::PacketError;
use crate::io::{Codec, Readable, Writable};
use crate::reader::Reader;

verus! {

/// Largest number of bytes in the encoding of a `VarInt`.
pub const VARINT_MAX_BYTES: usize = 5;

/// Largest number of bytes in the encoding of a `VarLong`.
pub const VARLONG_MAX_BYTES: usize = 10;

/// The 7-bit groups of `x`, least significant first, one per byte, with the
/// high bit set on every byte but the last.
pub open spec fn var_bytes(x: nat) -> Seq<u8>
    decreases x,
{
    if x < 128 {
        seq![x as u8]
    } else {
        seq![(x % 128 + 128) as u8] + var_bytes(x / 128)
    }
}

/// The number that the low 7 bits of the bytes of `s` stand for, the first
/// byte the least significant.
pub open spec fn group_value(s: Seq<u8>) -> nat
    decreases s.len(),
{
    if s.len() == 0 {
        0
    } else {
        (s[0] % 128) as nat + 128 * group_value(s.drop_first())
    }
}

/// The length of the group at the front of `s`: the bytes up to the first one
/// without the high bit, if it comes among the first `max` bytes.
pub open spec fn group_len(s: Seq<u8>, max: nat) -> Option<nat>
    decreases max,
{
    if max == 0 || s.len() == 0 {
        None
    } else if s[0] < 128 {
        Some(1)
    } else {
        match group_len(s.drop_first(), (max - 1) as nat) {
            Some(n) => Some(n + 1),
            None => None,
        }
    }
}

/// The untruncated value and the length of the variable-length integer at the
/// front of `s`, of at most `max` bytes, or the error that a read of `s` gives.
pub open spec fn var_read(s: Seq<u8>, max: nat) -> Result<(nat, nat), PacketError> {
    match group_len(s, max) {
        Some(n) => Ok((group_value(s.take(n as int)), n)),
        None => if s.len() < max {
            Err(PacketError::IO)
        } else {
            Err(PacketError::VarOverflow(max as usize))
        },
    }
}

/// The number of bytes that a failing read of a variable-length integer of at
/// most `max` bytes has taken: every byte there is, or the `max` bytes that
/// all carried the continuation bit.
pub open spec fn var_err_taken(s: Seq<u8>, max: nat) -> nat {
    if s.len() < max {
        s.len()
    } else {
        max
    }
}

proof fn lemma_group_value_push(s: Seq<u8>, k: nat)
    requires
        k < s.len(),
    ensures
        group_value(s.take(k + 1int)) == group_value(s.take(k as int)) + (s[k as int] % 128) as nat
            * pow(128, k),
    decreases k,
{
    reveal(pow);
    if k == 0 {
        assert(s.take(1).drop_first() =~= Seq::<u8>::empty());
        assert(group_value(s.take(1).drop_first()) == 0);
        assert(group_value(s.take(0)) == 0);
        assert(pow(128, 0) == 1);
    } else {
        let t = s.drop_first();
        lemma_group_value_push(t, (k - 1) as nat);
        assert(s.take(k + 1int).drop_first() =~= t.take(k as int));
        assert(s.take(k as int).drop_first() =~= t.take(k - 1));
        assert(group_value(s.take(k + 1int)) == (s[0] % 128) as nat + 128 * group_value(t.take(k as int)));
        assert(group_value(s.take(k as int)) == (s[0] % 128) as nat + 128 * group_value(t.take(k - 1)));
        assert(t[k - 1] == s[k as int]);
        assert(pow(128, k) == 128 * pow(128, (k - 1) as nat));
        let d = (s[k as int] % 128) as nat;
        let a = (s[0] % 128) as nat;
        let g = group_value(t.take(k - 1));
        let p = pow(128, (k - 1) as nat);
        assert(group_value(t.take(k as int)) == g + d * p);
        assert(a + 128 * (g + d * p) == (a + 128 * g) + d * (128 * p)) by (nonlinear_arith);
    }
}

proof fn lemma_group_value_bound(s: Seq<u8>)
    ensures
        group_value(s) < pow(128, s.len()),
    decreases s.len(),
{
    reveal(pow);
    if s.len() > 0 {
        lemma_group_value_bound(s.drop_first());
        let g = group_value(s.drop_first());
        let p = pow(128, (s.len() - 1) as nat);
        let d = (s[0] % 128) as nat;
        assert(d + 128 * g < 128 * p) by (nonlinear_arith)
            requires
                d < 128,
                g < p,
        ;
    }
}

proof fn lemma_group_len_prefix(s: Seq<u8>, k: nat, max: nat)
    requires
        k < max,
        k <= s.len(),
        forall|j: int| 0 <= j < k ==> s[j] >= 128,
    ensures
        group_len(s, max) == match group_len(s.skip(k as int), (max - k) as nat) {
            Some(n) => Some(n + k),
            None => None::<nat>,
        },
    decreases k,
{
    if k > 0 {
        let t = s.drop_first();
        lemma_group_len_prefix(t, (k - 1) as nat, (max - 1) as nat);
        assert(t.skip(k - 1) =~= s.skip(k as int));
    } else {
        assert(s.skip(0) =~= s);
    }
}

proof fn lemma_group_len_bound(s: Seq<u8>, max: nat)
    ensures
        group_len(s, max) matches Some(n) ==> 1 <= n <= s.len() && n <= max,
    decreases max,
{
    if max > 0 && s.len() > 0 && s[0] >= 128 {
        lemma_group_len_bound(s.drop_first(), (max - 1) as nat);
    }
}

/// A read of a variable-length integer takes no more bytes than there are.
pub proof fn lemma_var_read_len(s: Seq<u8>, max: nat)
    ensures
        var_read(s, max) matches Ok((v, n)) ==> 1 <= n <= s.len() && n <= max,
{
    lemma_group_len_bound(s, max);
}

/// The groups of `x` stand for `x`, and their group ends at their last byte.
proof fn lemma_var_bytes_parse(x: nat, rest: Seq<u8>, max: nat)
    requires
        var_bytes(x).len() <= max,
    ensures
        group_len(var_bytes(x) + rest, max) == Some(var_bytes(x).len()),
        group_value(var_bytes(x)) == x,
        var_bytes(x).len() >= 1,
    decreases x,
{
    let b = var_bytes(x);
    let s = b + rest;
    if x < 128 {
        assert(b.drop_first() =~= Seq::<u8>::empty());
        assert(group_value(b.drop_first()) == 0);
        assert(s[0] == b[0]);
    } else {
        let t = var_bytes(x / 128);
        lemma_var_bytes_parse(x / 128, rest, (max - 1) as nat);
        assert(b.drop_first() =~= t);
        assert(s.drop_first() =~= t + rest);
        assert(s[0] == b[0]);
        assert(b[0] == (x % 128 + 128) as u8);
        assert((b[0] % 128) as nat == x % 128);
        assert(x == x % 128 + 128 * (x / 128));
        assert(group_value(b) == (b[0] % 128) as nat + 128 * group_value(t));
    }
}

/// The groups of `x` are at most `k` bytes long where `x < 128^k`.
pub proof fn lemma_var_bytes_len(x: nat, k: nat)
    requires
        k >= 1,
        x < pow(128, k),
    ensures
        var_bytes(x).len() <= k,
    decreases x,
{
    reveal(pow);
    if x >= 128 {
        assert(k >= 2) by {
            if k == 1 {
                assert(pow(128, 1) == 128 * pow(128, 0));
            }
        }
        assert(pow(128, k) == 128 * pow(128, (k - 1) as nat));
        assert(x / 128 < pow(128, (k - 1) as nat)) by {
            vstd::arithmetic::div_mod::lemma_div_by_multiple_is_strongly_ordered(
                x as int,
                pow(128, k) as int,
                pow(128, (k - 1) as nat) as int,
                128,
            );
        }
        lemma_var_bytes_len(x / 128, (k - 1) as nat);
    }
}

/// The groups of `x` are no shorter than `k` bytes where `x >= 128^(k-1)`:
/// together with `lemma_var_bytes_len`, the encoding uses the fewest groups
/// that hold `x`.
pub proof fn lemma_var_bytes_minimal(x: nat, k: nat)
    requires
        k >= 1,
        x >= pow(128, (k - 1) as nat),
    ensures
        var_bytes(x).len() >= k,
    decreases k,
{
    reveal(pow);
    if k >= 2 {
        assert(pow(128, (k - 1) as nat) == 128 * pow(128, (k - 2) as nat));
        vstd::arithmetic::power::lemma_pow_positive(128, (k - 2) as nat);
        assert(x >= 128);
        assert(x / 128 >= pow(128, (k - 2) as nat)) by {
            vstd::arithmetic::div_mod::lemma_div_is_ordered(
                128 * pow(128, (k - 2) as nat) as int,
                x as int,
                128,
            );
            vstd::arithmetic::div_mod::lemma_div_multiples_vanish(
                pow(128, (k - 2) as nat) as int,
                128,
            );
        }
        lemma_var_bytes_minimal(x / 128, (k - 1) as nat);
    } else {
        if x < 128 {
            assert(var_bytes(x).len() == 1);
        }
    }
}

/// Reading the groups of `x`, followed by any bytes, gives back `x` and takes
/// exactly those groups.
pub proof fn lemma_var_round_trip(x: nat, rest: Seq<u8>, max: nat)
    requires
        var_bytes(x).len() <= max,
    ensures
        var_read(var_bytes(x) + rest, max) == Ok::<(nat, nat), PacketError>(
            (x, var_bytes(x).len()),
        ),
{
    lemma_var_bytes_parse(x, rest, max);
    assert((var_bytes(x) + rest).take(var_bytes(x).len() as int) =~= var_bytes(x));
}

/// Appends the groups of `x` to `o`.
fn write_groups(x: u64, o: &mut Vec<u8>)
    ensures
        final(o)@ == old(o)@ + var_bytes(x as nat),
{
    let ghost target = old(o)@ + var_bytes(x as nat);
    let mut x = x;
    loop
        invariant_except_break
            o@ + var_bytes(x as nat) == target,
        ensures
            o@ == target,
        decreases x,
    {
        let mut temp: u8 = (x % 128) as u8;
        let next = x / 128;
        if next != 0 {
            temp = temp + 128;
        }
        proof {
            let bs = var_bytes(x as nat);
            if next == 0 {
                assert(bs =~= seq![temp]);
            } else {
                assert(bs =~= seq![temp] + var_bytes(next as nat));
            }
        }
        let ghost before = o@;
        o.push(temp);
        x = next;
        if x == 0 {
            assert(o@ =~= target);
            break;
        }
        assert(o@ + var_bytes(x as nat) =~= before + (seq![temp] + var_bytes(x as nat)));
    }
}

/// Reads a group of at most `max` bytes and returns its untruncated value.
fn read_groups(i: &mut Reader, max: usize) -> (r: Result<u128, PacketError>)
    requires
        1 <= max <= VARLONG_MAX_BYTES,
    ensures
        match var_read(old(i)@, max as nat) {
            Ok((v, n)) => v < 0x40_0000_0000_0000_0000 && r == Ok::<u128, PacketError>(v as u128)
                && n <= old(i)@.len()
                && final(i)@ == old(i)@.skip(n as int),
            Err(e) => r == Err::<u128, PacketError>(e) && final(i)@ == old(i)@.skip(
                var_err_taken(old(i)@, max as nat) as int,
            ),
        },
{
    let ghost s = i@;
    let mut result: u128 = 0;
    let mut mul: u128 = 1;
    let mut count: usize = 0;
    proof {
        reveal(pow);
        assert(s.skip(0) =~= s);
        assert(s.take(0) =~= Seq::<u8>::empty());
    }
    loop
        invariant
            s == old(i)@,
            count < max <= VARLONG_MAX_BYTES,
            count <= s.len(),
            i@ == s.skip(count as int),
            forall|j: int| 0 <= j < count ==> s[j] >= 128,
            result == group_value(s.take(count as int)),
            mul == pow(128, count as nat),
        decreases max - count,
    {
        proof {
            lemma_group_len_prefix(s, count as nat, max as nat);
            lemma_pow_positive(128, count as nat);
        }
        let b = match i.read_u8() {
            Ok(b) => b,
            Err(e) => {
                assert(s.skip(count as int).len() == 0);
                assert(group_len(s.skip(count as int), (max - count) as nat) is None);
                assert(group_len(s, max as nat) is None);
                assert(e == PacketError::IO);
                assert(var_read(s, max as nat) == Err::<(nat, nat), PacketError>(PacketError::IO));
                assert(i@ =~= s.skip(s.len() as int));

                return Err(e);
            },
        };
        assert(b == s[count as int]);
        let value: u128 = (b % 128) as u128;
        proof {
            lemma_group_value_push(s, count as nat);
            lemma_group_value_bound(s.take(count + 1int));
            reveal(pow);
            assert(pow(128, (count + 1) as nat) == 128 * pow(128, count as nat));
            reveal_with_fuel(pow, 11);
            assert(pow(128, 10) == 0x40_0000_0000_0000_0000);
            vstd::arithmetic::power::lemma_pow_increases(128, (count + 1) as nat, 10);
            assert(value * mul < 128 * mul) by (nonlinear_arith)
                requires
                    value < 128,
                    mul > 0,
            ;
        }
        result = result + value * mul;
        count = count + 1;
        if b < 128 {
            proof {
                let t = s.skip((count - 1) as int);
                assert(group_len(t, (max - count + 1) as nat) == Some(1nat));
            }
            return Ok(result);
        }
        if count == max {
            proof {
                let t = s.skip((count - 1) as int);
                assert(t.len() > 0 && t[0] >= 128);
                assert(group_len(t.drop_first(), 0) is None);
                assert(group_len(t, 1) is None);
                assert(group_len(s, max as nat) is None);
                assert(s.len() >= max);
            }
            return Err(PacketError::VarOverflow(max));
        }
        mul = mul * 128;
    }
}

/// A 32-bit unsigned integer written in as many 7-bit groups as it needs.
#[derive(Debug, Clone, Copy, PartialEq, Eq, Structural)]
pub struct VarInt(pub u32);

/// A 64-bit unsigned integer written in as many 7-bit groups as it needs.
#[derive(Debug, Clone, Copy, PartialEq, Eq, Structural)]
pub struct VarLong(pub u64);

impl DeepView for VarInt {
    type V = VarInt;

    open spec fn deep_view(&self) -> VarInt {
        *self
    }
}

impl DeepView for VarLong {
    type V = VarLong;

    open spec fn deep_view(&self) -> VarLong {
        *self
    }
}

impl From<u32> for VarInt {
    fn from(v: u32) -> (r: VarInt)
        ensures
            r == VarInt(v),
    {
        VarInt(v)
    }
}

impl vstd::std_specs::convert::FromSpecImpl<u32> for VarInt {
    open spec fn obeys_from_spec() -> bool {
        true
    }

    open spec fn from_spec(v: u32) -> VarInt {
        VarInt(v)
    }
}

impl From<VarInt> for u32 {
    fn from(v: VarInt) -> (r: u32)
        ensures
            r == v.0,
    {
        v.0
    }
}

impl vstd::std_specs::convert::FromSpecImpl<VarInt> for u32 {
    open spec fn obeys_from_spec() -> bool {
        true
    }

    open spec fn from_spec(v: VarInt) -> u32 {
        v.0
    }
}

impl From<u64> for VarLong {
    fn from(v: u64) -> (r: VarLong)
        ensures
            r == VarLong(v),
    {
        VarLong(v)
    }
}

impl vstd::std_specs::convert::FromSpecImpl<u64> for VarLong {
    open spec fn obeys_from_spec() -> bool {
        true
    }

    open spec fn from_spec(v: u64) -> VarLong {
        VarLong(v)
    }
}

impl From<VarLong> for u64 {
    fn from(v: VarLong) -> (r: u64)
        ensures
            r == v.0,
    {
        v.0
    }
}

impl vstd::std_specs::convert::FromSpecImpl<VarLong> for u64 {
    open spec fn obeys_from_spec() -> bool {
        true
    }

    open spec fn from_spec(v: VarLong) -> u64 {
        v.0
    }
}

impl Writable for VarInt {
    open spec fn spec_write(&self) -> Result<Seq<u8>, PacketError> {
        Ok(var_bytes(self.0 as nat))
    }

    open spec fn write_ready(&self) -> bool {
        true
    }

    fn write(&self, o: &mut Vec<u8>) -> (r: Result<(), PacketError>) {
        let x: u64 = self.0 as u64;
        assert(x as nat == self.0 as nat);
        write_groups(x, o);
        assert(o@ == old(o)@ + var_bytes(self.0 as nat));
        assert(self.spec_write() == Ok::<Seq<u8>, PacketError>(var_bytes(self.0 as nat)));
        Ok(())
    }
}

impl Readable for VarInt {
    /// The groups are read as far as five bytes; bits above the 32nd are dropped.
    open spec fn spec_read(s: Seq<u8>) -> Result<(VarInt, nat), PacketError> {
        match var_read(s, VARINT_MAX_BYTES as nat) {
            Ok((v, n)) => Ok((VarInt((v % 0x1_0000_0000) as u32), n)),
            Err(e) => Err(e),
        }
    }

    open spec fn spec_err_taken(s: Seq<u8>) -> nat {
        var_err_taken(s, VARINT_MAX_BYTES as nat)
    }

    open spec fn read_ready() -> bool {
        true
    }

    proof fn lemma_read_len(s: Seq<u8>) {
        lemma_var_read_len(s, VARINT_MAX_BYTES as nat);
    }

    fn read(i: &mut Reader) -> (r: Result<VarInt, PacketError>) {
        match read_groups(i, VARINT_MAX_BYTES) {
            Ok(v) => Ok(VarInt((v % 0x1_0000_0000) as u32)),
            Err(e) => Err(e),
        }
    }
}

impl Codec for VarInt {
    open spec fn round_trip_ready(&self) -> bool {
        true
    }

    proof fn lemma_round_trip(v: &VarInt, rest: Seq<u8>) {
        reveal_with_fuel(pow, 6);
        lemma_var_bytes_len(v.0 as nat, VARINT_MAX_BYTES as nat);
        lemma_var_round_trip(v.0 as nat, rest, VARINT_MAX_BYTES as nat);
    }
}

impl Writable for VarLong {
    open spec fn spec_write(&self) -> Result<Seq<u8>, PacketError> {
        Ok(var_bytes(self.0 as nat))
    }

    open spec fn write_ready(&self) -> bool {
        true
    }

    fn write(&self, o: &mut Vec<u8>) -> (r: Result<(), PacketError>) {
        write_groups(self.0, o);
        Ok(())
    }
}

impl Readable for VarLong {
    /// The groups are read as far as ten bytes; bits above the 64th are dropped.
    open spec fn spec_read(s: Seq<u8>) -> Result<(VarLong, nat), PacketError> {
        match var_read(s, VARLONG_MAX_BYTES as nat) {
            Ok((v, n)) => Ok((VarLong((v % 0x1_0000_0000_0000_0000) as u64), n)),
            Err(e) => Err(e),
        }
    }

    open spec fn spec_err_taken(s: Seq<u8>) -> nat {
        var_err_taken(s, VARLONG_MAX_BYTES as nat)
    }

    open spec fn read_ready() -> bool {
        true
    }

    proof fn lemma_read_len(s: Seq<u8>) {
        lemma_var_read_len(s, VARLONG_MAX_BYTES as nat);
    }

    fn read(i: &mut Reader) -> (r: Result<VarLong, PacketError>) {
        match read_groups(i, VARLONG_MAX_BYTES) {
            Ok(v) => Ok(VarLong((v % 0x1_0000_0000_0000_0000) as u64)),
            Err(e) => Err(e),
        }
    }
}

impl Codec for VarLong {
    open spec fn round_trip_ready(&self) -> bool {
        true
    }

    proof fn lemma_round_trip(v: &VarLong, rest: Seq<u8>) {
        reveal_with_fuel(pow, 11);
        lemma_var_bytes_len(v.0 as nat, VARLONG_MAX_BYTES as nat);
        lemma_var_round_trip(v.0 as nat, rest, VARLONG_MAX_BYTES as nat);
    }
}

/// Bytes of which the first `max` all carry the continuation bit fail to read
/// as a variable-length integer of at most `max` bytes, with an overflow.
pub proof fn lemma_var_overflow(s: Seq<u8>, max: nat)
    requires
        max >= 1,
        s.len() >= max,
        forall|j: int| 0 <= j < max ==> s[j] >= 128,
    ensures
        var_read(s, max) == Err::<(nat, nat), PacketError>(PacketError::VarOverflow(max as usize)),
{
    lemma_group_len_prefix(s, (max - 1) as nat, max);
    let t = s.skip(max - 1);
    assert(t[0] == s[max - 1]);
    assert(group_len(t.drop_first(), 0) is None);
    assert(group_len(t, 1) is None);
}

/// Eleven (or more) leading bytes with the continuation bit fail to read as a
/// `VarLong`, with an overflow at ten bytes.
pub proof fn lemma_varlong_overflow(s: Seq<u8>)
    requires
        s.len() >= VARLONG_MAX_BYTES,
        forall|j: int| 0 <= j < VARLONG_MAX_BYTES ==> s[j] >= 128,
    ensures
        VarLong::spec_read(s) == Err::<(VarLong, nat), PacketError>(
            PacketError::VarOverflow(VARLONG_MAX_BYTES),
        ),
{
    lemma_var_overflow(s, VARLONG_MAX_BYTES as nat);
}

/// Six (or more) leading bytes with the continuation bit fail to read as a
/// `VarInt`, with an overflow at five bytes.
pub proof fn lemma_varint_overflow(s: Seq<u8>)
    requires
        s.len() >= VARINT_MAX_BYTES,
        forall|j: int| 0 <= j < VARINT_MAX_BYTES ==> s[j] >= 128,
    ensures
        VarInt::spec_read(s) == Err::<(VarInt, nat), PacketError>(
            PacketError::VarOverflow(VARINT_MAX_BYTES),
        ),
{
    lemma_var_overflow(s, VARINT_MAX_BYTES as nat);
}

} // verus!
