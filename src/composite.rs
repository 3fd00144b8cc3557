use vstd::prelude::*;
use vstd::utf8::{decode_utf8, encode_utf8, valid_utf8};

use crate::error::PacketError;
use crate::io::{Codec, Readable, Writable};
use crate::reader::Reader;
use crate::varint::{var_bytes, VarInt};

verus! {

/// Largest number of bytes in an encoded string.
pub const MAX_STRING_LENGTH: usize = 32767;

/// Appends the bytes of `b` to `o`.
pub fn push_all(o: &mut Vec<u8>, b: &[u8])
    ensures
        final(o)@ == old(o)@ + b@,
{
    let ghost start = o@;
    let mut k: usize = 0;
    while k < b.len()
        invariant
            k <= b@.len(),
            o@ == start + b@.take(k as int),
            start == old(o)@,
        decreases b@.len() - k,
    {
        o.push(b[k]);
        k = k + 1;
        assert(o@ =~= start + b@.take(k as int));
    }
    assert(b@.take(k as int) =~= b@);
}

/// Relies on std's `String::from_utf8`: the string that `b` encodes, if `b` is
/// valid UTF-8.
#[verifier::external_body]
fn string_from_utf8(b: Vec<u8>) -> (r: Option<String>)
    ensures
        match r {
            Some(s) => valid_utf8(b@) && s@ == decode_utf8(b@),
            None => !valid_utf8(b@),
        },
{
    String::from_utf8(b).ok()
}

impl Writable for String {
    /// The byte length as a `VarInt`, then the UTF-8 bytes.
    open spec fn spec_write(&self) -> Result<Seq<u8>, PacketError> {
        let b = encode_utf8(self@);
        if b.len() > MAX_STRING_LENGTH {
            Err(PacketError::InvalidStringLength(b.len() as usize, MAX_STRING_LENGTH))
        } else {
            Ok(var_bytes(b.len()) + b)
        }
    }

    open spec fn write_ready(&self) -> bool {
        true
    }

    fn write(&self, o: &mut Vec<u8>) -> (r: Result<(), PacketError>) {
        let bytes = self.as_str().as_bytes();
        let len = bytes.len();
        if len > MAX_STRING_LENGTH {
            return Err(PacketError::InvalidStringLength(len, MAX_STRING_LENGTH));
        }
        let _ = VarInt(len as u32).write(o);
        push_all(o, bytes);
        Ok(())
    }
}

impl Readable for String {
    /// A length above the largest allowed one fails before any string byte is taken.
    open spec fn spec_read(s: Seq<u8>) -> Result<(Seq<char>, nat), PacketError> {
        match VarInt::spec_read(s) {
            Err(e) => Err(e),
            Ok((c, n)) => {
                let len = c.0 as nat;
                if len > MAX_STRING_LENGTH {
                    Err(PacketError::InvalidStringLength(len as usize, MAX_STRING_LENGTH))
                } else if s.len() < n + len {
                    Err(PacketError::IO)
                } else {
                    let b = s.subrange(n as int, (n + len) as int);
                    if valid_utf8(b) {
                        Ok((decode_utf8(b), n + len))
                    } else {
                        Err(PacketError::BadEncoding)
                    }
                }
            },
        }
    }

    /// A length over the limit, or one that runs past the bytes, leaves the
    /// source just after the length prefix; bad UTF-8 leaves it after the bytes.
    open spec fn spec_err_taken(s: Seq<u8>) -> nat {
        match VarInt::spec_read(s) {
            Err(_) => VarInt::spec_err_taken(s),
            Ok((c, n)) => if c.0 > MAX_STRING_LENGTH || s.len() < n + c.0 {
                n
            } else {
                (n + c.0) as nat
            },
        }
    }

    open spec fn read_ready() -> bool {
        true
    }

    proof fn lemma_read_len(s: Seq<u8>) {
        VarInt::lemma_read_len(s);
    }

    fn read(i: &mut Reader) -> (r: Result<String, PacketError>) {
        let ghost s = i@;
        let length = match VarInt::read(i) {
            Ok(v) => v.0 as usize,
            Err(e) => return Err(e),
        };
        let ghost n = (s.len() - i@.len()) as nat;
        if length > MAX_STRING_LENGTH {
            assert(i@ =~= s.skip(n as int));
            return Err(PacketError::InvalidStringLength(length, MAX_STRING_LENGTH));
        }
        let bytes = match i.read_exact(length) {
            Ok(b) => b,
            Err(e) => {
                assert(i@ =~= s.skip(n as int));
                return Err(e);
            },
        };
        proof {
            assert(bytes@ =~= s.subrange(n as int, (n + length) as int));
            assert(i@ =~= s.skip(n + length));
        }
        match string_from_utf8(bytes) {
            Some(st) => Ok(st),
            None => Err(PacketError::BadEncoding),
        }
    }
}

impl Codec for String {
    open spec fn round_trip_ready(&self) -> bool {
        true
    }

    proof fn lemma_round_trip(v: &String, rest: Seq<u8>) {
        let b = encode_utf8(v@);
        let len = b.len();
        vstd::utf8::encode_utf8_valid_utf8(v@);
        vstd::utf8::encode_utf8_decode_utf8(v@);
        VarInt::lemma_round_trip(&VarInt(len as u32), b + rest);
        let all = var_bytes(len) + b + rest;
        assert(all =~= var_bytes(len) + (b + rest));
        let n = var_bytes(len).len();
        assert(all.subrange(n as int, (n + len) as int) =~= b);
    }
}

/// The encodings of `items` one after the other, or the first error among them.
pub open spec fn items_write<T: Writable>(items: Seq<T>) -> Result<Seq<u8>, PacketError>
    decreases items.len(),
{
    if items.len() == 0 {
        Ok(Seq::empty())
    } else {
        match items[0].spec_write() {
            Err(e) => Err(e),
            Ok(b) => match items_write(items.drop_first()) {
                Ok(r) => Ok(b + r),
                Err(e) => Err(e),
            },
        }
    }
}

/// The models of `count` values read one after the other from `s` and the
/// bytes that they take, or the first error, wrapped with the index of the
/// element that failed (the first of them being element `first`).
pub open spec fn items_read<T: Readable>(s: Seq<u8>, count: nat, first: nat) -> Result<
    (Seq<T::V>, nat),
    PacketError,
>
    decreases count,
{
    if count == 0 {
        Ok((Seq::empty(), 0))
    } else {
        match T::spec_read(s) {
            Err(e) => Err(PacketError::ElementFailed(first as usize, Box::new(e))),
            Ok((v, n)) => match items_read::<T>(s.skip(n as int), (count - 1) as nat, first + 1) {
                Ok((vs, m)) => Ok((seq![v] + vs, n + m)),
                Err(e) => Err(e),
            },
        }
    }
}

/// The number of bytes that reading `count` values from `s` has taken when an
/// element fails: the elements before it, then what the failing read took.
pub open spec fn items_err_taken<T: Readable>(s: Seq<u8>, count: nat) -> nat
    decreases count,
{
    if count == 0 {
        0
    } else {
        match T::spec_read(s) {
            Err(_) => T::spec_err_taken(s),
            Ok((v, n)) => n + items_err_taken::<T>(s.skip(n as int), (count - 1) as nat),
        }
    }
}

pub proof fn lemma_items_write_push<T: Writable>(s: Seq<T>, k: nat)
    requires
        k < s.len(),
    ensures
        items_write(s.take(k + 1int)) == match items_write(s.take(k as int)) {
            Err(e) => Err(e),
            Ok(a) => match s[k as int].spec_write() {
                Ok(b) => Ok(a + b),
                Err(e) => Err::<Seq<u8>, PacketError>(e),
            },
        },
    decreases k,
{
    if k == 0 {
        let one = s.take(1);
        assert(one.drop_first() =~= Seq::<T>::empty());
        assert(s.take(0) =~= Seq::<T>::empty());
        match s[0].spec_write() {
            Ok(b) => {
                assert(b + Seq::<u8>::empty() =~= Seq::<u8>::empty() + b);
            },
            Err(e) => {},
        }
    } else {
        let t = s.drop_first();
        lemma_items_write_push(t, (k - 1) as nat);
        assert(s.take(k + 1int).drop_first() =~= t.take(k as int));
        assert(s.take(k as int).drop_first() =~= t.take(k - 1));
        assert(t[k - 1] == s[k as int]);
        match s[0].spec_write() {
            Ok(b0) => {
                match items_write(t.take(k - 1)) {
                    Ok(a) => {
                        match s[k as int].spec_write() {
                            Ok(b) => {
                                assert(b0 + (a + b) =~= (b0 + a) + b);
                            },
                            Err(e) => {},
                        }
                    },
                    Err(e) => {},
                }
            },
            Err(e) => {},
        }
    }
}

pub proof fn lemma_items_write_err<T: Writable>(s: Seq<T>, k: nat)
    requires
        k <= s.len(),
        items_write(s.take(k as int)) is Err,
    ensures
        items_write(s) == items_write(s.take(k as int)),
    decreases s.len() - k,
{
    if k < s.len() {
        lemma_items_write_push(s, k);
        lemma_items_write_err(s, k + 1);
    } else {
        assert(s.take(k as int) =~= s);
    }
}

pub proof fn lemma_items_read_len<T: Readable>(s: Seq<u8>, count: nat, first: nat)
    ensures
        items_read::<T>(s, count, first) matches Ok((vs, m)) ==> m <= s.len() && vs.len()
            == count,
        items_read::<T>(s, count, first) is Err ==> items_err_taken::<T>(s, count) <= s.len(),
    decreases count,
{
    if count > 0 {
        T::lemma_read_len(s);
        if let Ok((v, n)) = T::spec_read(s) {
            lemma_items_read_len::<T>(s.skip(n as int), (count - 1) as nat, first + 1);
        }
    }
}

pub proof fn lemma_items_round_trip<T: Codec>(items: Seq<T>, rest: Seq<u8>, first: nat)
    requires
        items_write(items) is Ok,
        forall|i: int| 0 <= i < items.len() ==> #[trigger] items[i].round_trip_ready(),
    ensures
        items_read::<T>(items_write(items)->Ok_0 + rest, items.len(), first) == Ok::<
            (Seq<T::V>, nat),
            PacketError,
        >((Seq::new(items.len(), |i: int| items[i].deep_view()), items_write(items)->Ok_0.len())),
    decreases items.len(),
{
    if items.len() > 0 {
        let t = items.drop_first();
        let b0 = items[0].spec_write()->Ok_0;
        let r = items_write(t)->Ok_0;
        assert(items_write(items)->Ok_0 == b0 + r);
        lemma_items_round_trip(t, rest, first + 1);
        T::lemma_round_trip(&items[0], r + rest);
        assert(b0 + r + rest =~= b0 + (r + rest));
        assert((b0 + (r + rest)).skip(b0.len() as int) =~= r + rest);
        assert(Seq::new(items.len(), |i: int| items[i].deep_view()) =~= seq![items[0].deep_view()]
            + Seq::new(t.len(), |i: int| t[i].deep_view()));
    } else {
        assert(Seq::new(items.len(), |i: int| items[i].deep_view()) =~= Seq::<T::V>::empty());
    }
}

impl<T: Writable> Writable for Vec<T> {
    /// The number of items as a `VarInt`, then each item in order.
    open spec fn spec_write(&self) -> Result<Seq<u8>, PacketError> {
        if self@.len() > u32::MAX {
            Err(PacketError::LengthOverflow(self@.len() as usize))
        } else {
            match items_write(self@) {
                Ok(b) => Ok(var_bytes(self@.len()) + b),
                Err(e) => Err(e),
            }
        }
    }

    open spec fn write_ready(&self) -> bool {
        forall|i: int| 0 <= i < self@.len() ==> #[trigger] self@[i].write_ready()
    }

    fn write(&self, o: &mut Vec<u8>) -> (r: Result<(), PacketError>) {
        let len = self.len();
        if len > u32::MAX as usize {
            return Err(PacketError::LengthOverflow(len));
        }
        let start = o.len();
        let _ = VarInt(len as u32).write(o);
        let ghost head = o@;
        let mut k: usize = 0;
        proof {
            assert(self@.take(0) =~= Seq::<T>::empty());
            assert(head =~= head + Seq::<u8>::empty());
        }
        while k < len
            invariant
                len == self@.len(),
                len <= u32::MAX,
                k <= len,
                start == old(o)@.len(),
                head == old(o)@ + var_bytes(len as nat),
                items_write(self@.take(k as int)) is Ok,
                o@ == head + items_write(self@.take(k as int))->Ok_0,
                forall|i: int| 0 <= i < self@.len() ==> #[trigger] self@[i].write_ready(),
            decreases len - k,
        {
            proof {
                lemma_items_write_push(self@, k as nat);
            }
            match self[k].write(o) {
                Ok(()) => {},
                Err(e) => {
                    proof {
                        lemma_items_write_err(self@, (k + 1) as nat);
                    }
                    o.truncate(start);
                    assert(o@ =~= old(o)@);
                    return Err(e);
                },
            }
            k = k + 1;
            assert(o@ =~= head + items_write(self@.take(k as int))->Ok_0);
        }
        assert(self@.take(len as int) =~= self@);
        Ok(())
    }
}

impl<T: Readable> Readable for Vec<T> {
    /// The number of items as a `VarInt`, then each item in order; an item that
    /// fails is named by its index.
    open spec fn spec_read(s: Seq<u8>) -> Result<(Seq<T::V>, nat), PacketError> {
        match VarInt::spec_read(s) {
            Err(e) => Err(e),
            Ok((c, n)) => match items_read::<T>(s.skip(n as int), c.0 as nat, 0) {
                Ok((vs, m)) => Ok((vs, n + m)),
                Err(e) => Err(e),
            },
        }
    }

    open spec fn spec_err_taken(s: Seq<u8>) -> nat {
        match VarInt::spec_read(s) {
            Err(_) => VarInt::spec_err_taken(s),
            Ok((c, n)) => n + items_err_taken::<T>(s.skip(n as int), c.0 as nat),
        }
    }

    open spec fn read_ready() -> bool {
        T::read_ready()
    }

    proof fn lemma_read_len(s: Seq<u8>) {
        VarInt::lemma_read_len(s);
        if let Ok((c, n)) = VarInt::spec_read(s) {
            lemma_items_read_len::<T>(s.skip(n as int), c.0 as nat, 0);
        }
    }

    fn read(i: &mut Reader) -> (r: Result<Vec<T>, PacketError>) {
        let ghost s = i@;
        let length = match VarInt::read(i) {
            Ok(v) => v.0 as usize,
            Err(e) => return Err(e),
        };
        let ghost n = (s.len() - i@.len()) as nat;
        let ghost s0 = i@;
        let mut out: Vec<T> = Vec::new();
        let mut k: usize = 0;
        proof {
            assert(s0 =~= s.skip(n as int));
            assert(s0.skip(0) =~= s0);
            match items_read::<T>(s0, length as nat, 0) {
                Ok((vs, m)) => {
                    assert(Seq::<T::V>::empty() + vs =~= vs);
                },
                Err(e) => {},
            }
            assert(out.deep_view() =~= Seq::<T::V>::empty());
        }
        while k < length
            invariant
                T::read_ready(),
                s == old(i)@,
                VarInt::spec_read(s) == Ok::<(VarInt, nat), PacketError>((VarInt(length as u32), n)),
                length <= u32::MAX,
                k <= length,
                s0 == s.skip(n as int),
                n <= s.len(),
                s0.len() >= i@.len(),
                i@ == s0.skip(s0.len() - i@.len()),
                out@.len() == k,
                items_read::<T>(s0, length as nat, 0) == match items_read::<T>(
                    i@,
                    (length - k) as nat,
                    k as nat,
                ) {
                    Ok((vs, m)) => Ok((out.deep_view() + vs, ((s0.len() - i@.len()) + m) as nat)),
                    Err(e) => Err::<(Seq<T::V>, nat), PacketError>(e),
                },
                items_err_taken::<T>(s0, length as nat) == (s0.len() - i@.len())
                    + items_err_taken::<T>(i@, (length - k) as nat),
            decreases length - k,
        {
            let ghost cur = i@;
            let ghost done = out.deep_view();
            let x = match T::read(i) {
                Ok(x) => x,
                Err(e) => {
                    proof {
                        T::lemma_read_len(cur);
                        let t = T::spec_err_taken(cur);
                        assert(s0.skip(s0.len() - cur.len()).skip(t as int) =~= s.skip(
                            (n + (s0.len() - cur.len()) + t) as int,
                        ));
                    }
                    return Err(PacketError::ElementFailed(k, Box::new(e)));
                },
            };
            proof {
                let (v, n1) = T::spec_read(cur)->Ok_0;
                assert(cur.skip(n1 as int) =~= s0.skip(s0.len() - i@.len()));
                match items_read::<T>(i@, (length - k - 1) as nat, (k + 1) as nat) {
                    Ok((vs, m)) => {
                        assert(done + (seq![v] + vs) =~= done.push(v) + vs);
                    },
                    Err(e) => {},
                }
            }
            out.push(x);
            proof {
                let (v, n1) = T::spec_read(cur)->Ok_0;
                assert(out.deep_view() =~= done.push(v));
            }
            k = k + 1;
        }
        proof {
            assert(out.deep_view() + Seq::<T::V>::empty() =~= out.deep_view());
        }
        Ok(out)
    }
}

impl<T: Codec> Codec for Vec<T> {
    open spec fn round_trip_ready(&self) -> bool {
        forall|i: int| 0 <= i < self@.len() ==> #[trigger] self@[i].round_trip_ready()
    }

    proof fn lemma_round_trip(v: &Vec<T>, rest: Seq<u8>) {
        let len = v@.len();
        let b = items_write(v@)->Ok_0;
        VarInt::lemma_round_trip(&VarInt(len as u32), b + rest);
        lemma_items_round_trip(v@, rest, 0);
        let all = var_bytes(len) + b + rest;
        assert(all =~= var_bytes(len) + (b + rest));
        assert(all.skip(var_bytes(len).len() as int) =~= b + rest);
    }
}

impl<T: Writable> Writable for Option<T> {
    /// A presence byte (1 or 0), then the value if there is one.
    open spec fn spec_write(&self) -> Result<Seq<u8>, PacketError> {
        match self {
            None => Ok(seq![0u8]),
            Some(v) => match v.spec_write() {
                Ok(b) => Ok(seq![1u8] + b),
                Err(e) => Err(e),
            },
        }
    }

    open spec fn write_ready(&self) -> bool {
        match self {
            None => true,
            Some(v) => v.write_ready(),
        }
    }

    fn write(&self, o: &mut Vec<u8>) -> (r: Result<(), PacketError>) {
        match self {
            Some(value) => {
                let start = o.len();
                let _ = true.write(o);
                match value.write(o) {
                    Ok(()) => {},
                    Err(e) => {
                        o.truncate(start);
                        assert(o@ =~= old(o)@);
                        return Err(e);
                    },
                }
            },
            None => {
                let _ = false.write(o);
            },
        }
        Ok(())
    }
}

impl<T: Readable> Readable for Option<T> {
    /// A presence byte (1 or 0), then the value if there is one.
    open spec fn spec_read(s: Seq<u8>) -> Result<(Option<T::V>, nat), PacketError> {
        match bool::spec_read(s) {
            Err(e) => Err(e),
            Ok((false, _)) => Ok((None, 1)),
            Ok((true, _)) => match T::spec_read(s.skip(1)) {
                Ok((v, n)) => Ok((Some(v), n + 1)),
                Err(e) => Err(e),
            },
        }
    }

    open spec fn spec_err_taken(s: Seq<u8>) -> nat {
        match bool::spec_read(s) {
            Ok((true, _)) => 1 + T::spec_err_taken(s.skip(1)),
            _ => bool::spec_err_taken(s),
        }
    }

    open spec fn read_ready() -> bool {
        T::read_ready()
    }

    proof fn lemma_read_len(s: Seq<u8>) {
        if s.len() > 0 {
            T::lemma_read_len(s.skip(1));
        }
    }

    fn read(i: &mut Reader) -> (r: Result<Option<T>, PacketError>) {
        let ghost s = i@;
        let exists = match bool::read(i) {
            Ok(b) => b,
            Err(e) => return Err(e),
        };
        if exists {
            match T::read(i) {
                Ok(v) => {
                    assert(i@ =~= s.skip(s.len() - i@.len()));
                    Ok(Some(v))
                },
                Err(e) => {
                    proof {
                        T::lemma_read_len(s.skip(1));
                        assert(s.skip(1).skip(T::spec_err_taken(s.skip(1)) as int) =~= s.skip(
                            (1 + T::spec_err_taken(s.skip(1))) as int,
                        ));
                    }
                    Err(e)
                },
            }
        } else {
            Ok(None)
        }
    }
}

impl<T: Codec> Codec for Option<T> {
    open spec fn round_trip_ready(&self) -> bool {
        match self {
            None => true,
            Some(v) => v.round_trip_ready(),
        }
    }

    proof fn lemma_round_trip(v: &Option<T>, rest: Seq<u8>) {
        match v {
            None => {},
            Some(x) => {
                let b = x.spec_write()->Ok_0;
                T::lemma_round_trip(x, rest);
                assert((seq![1u8] + b + rest).skip(1) =~= b + rest);
            },
        }
    }
}

impl<A: Writable, B: Writable> Writable for (A, B) {
    /// The first value, then the second.
    open spec fn spec_write(&self) -> Result<Seq<u8>, PacketError> {
        match self.0.spec_write() {
            Err(e) => Err(e),
            Ok(a) => match self.1.spec_write() {
                Ok(b) => Ok(a + b),
                Err(e) => Err(e),
            },
        }
    }

    open spec fn write_ready(&self) -> bool {
        self.0.write_ready() && self.1.write_ready()
    }

    fn write(&self, o: &mut Vec<u8>) -> (r: Result<(), PacketError>) {
        let start = o.len();
        match self.0.write(o) {
            Ok(()) => {},
            Err(e) => return Err(e),
        }
        match self.1.write(o) {
            Ok(()) => {},
            Err(e) => {
                o.truncate(start);
                assert(o@ =~= old(o)@);
                return Err(e);
            },
        }
        assert(o@ =~= old(o)@ + self.spec_write()->Ok_0);
        Ok(())
    }
}

impl<A: Readable, B: Readable> Readable for (A, B) {
    /// The first value, then the second.
    open spec fn spec_read(s: Seq<u8>) -> Result<((A::V, B::V), nat), PacketError> {
        match A::spec_read(s) {
            Err(e) => Err(e),
            Ok((a, n)) => match B::spec_read(s.skip(n as int)) {
                Ok((b, m)) => Ok(((a, b), n + m)),
                Err(e) => Err(e),
            },
        }
    }

    open spec fn spec_err_taken(s: Seq<u8>) -> nat {
        match A::spec_read(s) {
            Err(_) => A::spec_err_taken(s),
            Ok((a, n)) => n + B::spec_err_taken(s.skip(n as int)),
        }
    }

    open spec fn read_ready() -> bool {
        A::read_ready() && B::read_ready()
    }

    proof fn lemma_read_len(s: Seq<u8>) {
        A::lemma_read_len(s);
        if let Ok((a, n)) = A::spec_read(s) {
            B::lemma_read_len(s.skip(n as int));
        }
    }

    fn read(i: &mut Reader) -> (r: Result<(A, B), PacketError>) {
        let ghost s = i@;
        let a = match A::read(i) {
            Ok(a) => a,
            Err(e) => return Err(e),
        };
        let b = match B::read(i) {
            Ok(b) => b,
            Err(e) => {
                proof {
                    let n = A::spec_read(s)->Ok_0.1;
                    A::lemma_read_len(s);
                    B::lemma_read_len(s.skip(n as int));
                    assert(s.skip(n as int).skip(B::spec_err_taken(s.skip(n as int)) as int)
                        =~= s.skip((n + B::spec_err_taken(s.skip(n as int))) as int));
                }
                return Err(e);
            },
        };
        assert(i@ =~= s.skip(s.len() - i@.len()));
        Ok((a, b))
    }
}

impl<A: Codec, B: Codec> Codec for (A, B) {
    open spec fn round_trip_ready(&self) -> bool {
        self.0.round_trip_ready() && self.1.round_trip_ready()
    }

    proof fn lemma_round_trip(v: &(A, B), rest: Seq<u8>) {
        let a = v.0.spec_write()->Ok_0;
        let b = v.1.spec_write()->Ok_0;
        A::lemma_round_trip(&v.0, b + rest);
        B::lemma_round_trip(&v.1, rest);
        assert(a + b + rest =~= a + (b + rest));
        assert((a + (b + rest)).skip(a.len() as int) =~= b + rest);
    }
}

} // verus!
