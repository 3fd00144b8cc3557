use std::collections::HashMap;

use wsbps::{
    decode, encode, BiPackets, ExamplePacket, PacketError, Packets, Readable, Reader, Test,
    TestPacket, TestStruct, VarInt, VarLong, VariantOf, Writable, MAX_STRING_LENGTH,
};

fn bytes_of<T: Writable>(v: &T) -> Vec<u8> {
    encode(v).expect("encode")
}

#[test]
fn it_works() {
    let p = BiPackets::TestA {
        b: VarLong(4294967295),
        a: vec![1, 2, 5],
    };
    println!("{:?}", p);

    let mut o = Vec::new();
    let _ = p.write(&mut o);
    match p.write(&mut o) {
        Err(_) => println!("Failed to encode"),
        Ok(_) => {
            println!("{:?}", o);
            let mut s = Reader::new(o);
            match BiPackets::read(&mut s) {
                Err(e) => println!("{:?}", e),
                Ok(p) => {
                    println!("{:?}", p);
                    match p {
                        BiPackets::TestA { b, a } => {
                            println!("{:?} {:?}", b, a);
                            assert_eq!(b, VarLong(4294967295));
                            assert_eq!(a, vec![1, 2, 5]);
                        }
                        _ => panic!("wrong packet"),
                    }
                }
            };
            let second = BiPackets::read(&mut s).expect("second packet");
            assert_eq!(second, p);
            assert_eq!(s.remaining(), 0);
        }
    };
}

#[test]
fn varint_minimal_encoding() {
    assert_eq!(bytes_of(&VarInt(0)), vec![0x00]);
    assert_eq!(bytes_of(&VarInt(127)), vec![0x7F]);
    assert_eq!(bytes_of(&VarInt(128)), vec![0x80, 0x01]);
    assert_eq!(bytes_of(&VarInt(255)), vec![0xFF, 0x01]);
    assert_eq!(bytes_of(&VarInt(300)), vec![0xAC, 0x02]);
    assert_eq!(bytes_of(&VarInt(16384)), vec![0x80, 0x80, 0x01]);
    assert_eq!(bytes_of(&VarLong(16384)), vec![0x80, 0x80, 0x01]);
    assert_eq!(bytes_of(&VarInt(u32::MAX)), vec![0xFF, 0xFF, 0xFF, 0xFF, 0x0F]);
    assert_eq!(
        bytes_of(&VarLong(u64::MAX)),
        vec![0xFF, 0xFF, 0xFF, 0xFF, 0xFF, 0xFF, 0xFF, 0xFF, 0xFF, 0x01]
    );
}

#[test]
fn varint_round_trips() {
    for v in [0u32, 1, 127, 128, 255, 300, 16384, 2097151, 2097152, u32::MAX] {
        assert_eq!(decode::<VarInt>(bytes_of(&VarInt(v))).unwrap(), VarInt(v));
    }
    for v in [0u64, 1, 128, 4294967295, 4294967296, u64::MAX - 1, u64::MAX] {
        assert_eq!(decode::<VarLong>(bytes_of(&VarLong(v))).unwrap(), VarLong(v));
    }
}

#[test]
fn varint_decode_values() {
    assert_eq!(decode::<VarInt>(vec![0xAC, 0x02]).unwrap(), VarInt(300));
    assert_eq!(decode::<VarInt>(vec![0x80, 0x80, 0x01]).unwrap(), VarInt(16384));
    // Bits above the 32nd are dropped.
    assert_eq!(decode::<VarInt>(vec![0xFF, 0xFF, 0xFF, 0xFF, 0x7F]).unwrap(), VarInt(u32::MAX));
    let mut r = Reader::new(vec![0x05, 0x80, 0x01, 0x09]);
    assert_eq!(VarInt::read(&mut r).unwrap(), VarInt(5));
    assert_eq!(VarInt::read(&mut r).unwrap(), VarInt(128));
    assert_eq!(r.remaining(), 1);
}

#[test]
fn varlong_overflow() {
    let bytes = vec![0xFF; 11];
    assert_eq!(decode::<VarLong>(bytes).unwrap_err(), PacketError::VarOverflow(10));
}

#[test]
fn varint_overflow() {
    let bytes = vec![0x80, 0x80, 0x80, 0x80, 0x80, 0x01];
    assert_eq!(decode::<VarInt>(bytes).unwrap_err(), PacketError::VarOverflow(5));
}

#[test]
fn varint_truncated_is_io() {
    assert_eq!(decode::<VarInt>(vec![0x80, 0x80]).unwrap_err(), PacketError::IO);
    assert_eq!(decode::<VarInt>(vec![]).unwrap_err(), PacketError::IO);
}

#[test]
fn boolean_strictness() {
    assert_eq!(decode::<bool>(vec![0x02]).unwrap_err(), PacketError::InvalidBoolean(2));
    assert_eq!(decode::<bool>(vec![0x00]).unwrap(), false);
    assert_eq!(decode::<bool>(vec![0x01]).unwrap(), true);
    assert_eq!(bytes_of(&true), vec![0x01]);
    assert_eq!(bytes_of(&false), vec![0x00]);
}

#[test]
fn fixed_width_big_endian() {
    assert_eq!(bytes_of(&0x0102u16), vec![0x01, 0x02]);
    assert_eq!(bytes_of(&0x01020304u32), vec![0x01, 0x02, 0x03, 0x04]);
    assert_eq!(
        bytes_of(&0x0102030405060708u64),
        vec![0x01, 0x02, 0x03, 0x04, 0x05, 0x06, 0x07, 0x08]
    );
    assert_eq!(bytes_of(&-2i16), vec![0xFF, 0xFE]);
    assert_eq!(bytes_of(&-1i32), vec![0xFF, 0xFF, 0xFF, 0xFF]);
    assert_eq!(bytes_of(&-5i8), vec![0xFB]);
    assert_eq!(decode::<u16>(vec![0x01, 0x02]).unwrap(), 0x0102);
    assert_eq!(decode::<u32>(vec![0x01, 0x02, 0x03, 0x04]).unwrap(), 0x01020304);
    assert_eq!(decode::<i16>(vec![0xFF, 0xFE]).unwrap(), -2);
    assert_eq!(decode::<i64>(vec![0x80, 0, 0, 0, 0, 0, 0, 0]).unwrap(), i64::MIN);
    assert_eq!(decode::<u32>(vec![0x01, 0x02]).unwrap_err(), PacketError::IO);
}

#[test]
fn fixed_width_round_trips() {
    for v in [0u16, 1, 0x1234, u16::MAX] {
        assert_eq!(decode::<u16>(bytes_of(&v)).unwrap(), v);
    }
    for v in [i32::MIN, -1, 0, 1, i32::MAX] {
        assert_eq!(decode::<i32>(bytes_of(&v)).unwrap(), v);
    }
    for v in [i64::MIN, -300, 0, i64::MAX] {
        assert_eq!(decode::<i64>(bytes_of(&v)).unwrap(), v);
    }
    for v in [0u64, 0xDEADBEEF, u64::MAX] {
        assert_eq!(decode::<u64>(bytes_of(&v)).unwrap(), v);
    }
    for v in [i8::MIN, -1, 0, i8::MAX] {
        assert_eq!(decode::<i8>(bytes_of(&v)).unwrap(), v);
    }
    assert_eq!(decode::<u8>(bytes_of(&200u8)).unwrap(), 200);
}

#[test]
fn string_encoding() {
    let s = String::from("héllo");
    let b = bytes_of(&s);
    assert_eq!(b[0], 6);
    assert_eq!(&b[1..], "héllo".as_bytes());
    assert_eq!(decode::<String>(b).unwrap(), s);
    assert_eq!(bytes_of(&String::new()), vec![0x00]);
}

#[test]
fn string_length_boundary() {
    let max = "a".repeat(32767);
    assert_eq!(MAX_STRING_LENGTH, 32767);
    let b = bytes_of(&max);
    assert_eq!(b.len(), 3 + 32767);
    assert_eq!(decode::<String>(b).unwrap(), max);

    let over = "a".repeat(32768);
    assert_eq!(
        encode(&over).unwrap_err(),
        PacketError::InvalidStringLength(32768, 32767)
    );

    let mut crafted = bytes_of(&VarInt(32768));
    crafted.extend(std::iter::repeat(b'a').take(32768));
    assert_eq!(
        decode::<String>(crafted).unwrap_err(),
        PacketError::InvalidStringLength(32768, 32767)
    );
}

#[test]
fn string_errors() {
    assert_eq!(decode::<String>(vec![0x02, 0xC3, 0x28]).unwrap_err(), PacketError::BadEncoding);
    assert_eq!(decode::<String>(vec![0x05, b'a', b'b']).unwrap_err(), PacketError::IO);
}

#[test]
fn list_encoding() {
    let v: Vec<u16> = vec![1, 2, 0x0304];
    assert_eq!(bytes_of(&v), vec![0x03, 0x00, 0x01, 0x00, 0x02, 0x03, 0x04]);
    assert_eq!(decode::<Vec<u16>>(bytes_of(&v)).unwrap(), v);
    let nested: Vec<Vec<String>> = vec![vec![], vec![String::from("x"), String::from("yz")]];
    assert_eq!(decode::<Vec<Vec<String>>>(bytes_of(&nested)).unwrap(), nested);
    assert_eq!(bytes_of(&Vec::<u8>::new()), vec![0x00]);
}

#[test]
fn list_fails_whole() {
    // The third element is not a boolean: no partial list comes back.
    assert_eq!(
        decode::<Vec<bool>>(vec![0x03, 0x01, 0x00, 0x07]).unwrap_err(),
        PacketError::ElementFailed(2, Box::new(PacketError::InvalidBoolean(7)))
    );
    assert_eq!(
        decode::<Vec<u8>>(vec![0x03, 0x01]).unwrap_err(),
        PacketError::ElementFailed(1, Box::new(PacketError::IO))
    );
}

#[test]
fn list_write_error_leaves_sink() {
    let v = vec![String::from("ok"), "a".repeat(40000)];
    let mut o = vec![0xEE];
    assert_eq!(
        v.write(&mut o).unwrap_err(),
        PacketError::InvalidStringLength(40000, 32767)
    );
    assert_eq!(o, vec![0xEE]);
}

#[test]
fn optional_encoding() {
    let some: Option<u8> = Some(9);
    let none: Option<u8> = None;
    assert_eq!(bytes_of(&some), vec![0x01, 0x09]);
    assert_eq!(bytes_of(&none), vec![0x00]);
    assert_eq!(decode::<Option<u8>>(vec![0x01, 0x09]).unwrap(), some);
    assert_eq!(decode::<Option<u8>>(vec![0x00]).unwrap(), none);
    assert_eq!(decode::<Option<u8>>(vec![0x03]).unwrap_err(), PacketError::InvalidBoolean(3));
    let s = Some(String::from("hi"));
    assert_eq!(decode::<Option<String>>(bytes_of(&s)).unwrap(), s);
}

#[test]
fn pair_encoding() {
    let p = (VarInt(300), 7u8);
    assert_eq!(bytes_of(&p), vec![0xAC, 0x02, 0x07]);
    assert_eq!(decode::<(VarInt, u8)>(bytes_of(&p)).unwrap(), p);
}

#[test]
fn map_equivalence() {
    let mut m: HashMap<u8, String> = HashMap::new();
    m.insert(25, String::from("Hello world"));
    let b = bytes_of(&m);
    let mut expected = vec![0x01, 25, 11];
    expected.extend_from_slice(b"Hello world");
    assert_eq!(b, expected);
    let back = decode::<HashMap<u8, String>>(b).unwrap();
    assert_eq!(back.len(), 1);
    assert_eq!(back.get(&25), Some(&String::from("Hello world")));
    assert_eq!(back, m);
}

#[test]
fn map_round_trip_many() {
    let mut m: HashMap<u32, Vec<u8>> = HashMap::new();
    for k in 0..50u32 {
        m.insert(k * 7, vec![k as u8; (k % 4) as usize]);
    }
    let back = decode::<HashMap<u32, Vec<u8>>>(bytes_of(&m)).unwrap();
    assert_eq!(back, m);
}

#[test]
fn map_later_entry_wins() {
    let bytes = vec![0x02, 0x01, 0x0A, 0x01, 0x0B];
    let m = decode::<HashMap<u8, u8>>(bytes).unwrap();
    assert_eq!(m.len(), 1);
    assert_eq!(m.get(&1), Some(&0x0B));
}

#[test]
fn bi_packets_scenario() {
    let p = BiPackets::TestA {
        b: VarLong(4294967295),
        a: vec![1, 2, 5],
    };
    let b = bytes_of(&p);
    assert_eq!(b, vec![0x01, 0xFF, 0xFF, 0xFF, 0xFF, 0x0F, 0x03, 0x01, 0x02, 0x05]);
    assert_eq!(decode::<BiPackets>(b).unwrap(), p);
    assert_eq!(p.id(), VarInt(1));

    let t = BiPackets::TestB {};
    assert_eq!(bytes_of(&t), vec![0x02]);
    assert_eq!(decode::<BiPackets>(vec![0x02]).unwrap(), t);
    assert_eq!(t.id(), VarInt(2));
}

#[test]
fn unknown_packet() {
    assert_eq!(decode::<BiPackets>(vec![0x03]).unwrap_err(), PacketError::UnknownPacket(3));
    assert_eq!(
        decode::<BiPackets>(vec![0xAC, 0x02, 0x00]).unwrap_err(),
        PacketError::UnknownPacket(300)
    );
    assert_eq!(decode::<Packets>(vec![0x07, 0x00]).unwrap_err(), PacketError::UnknownPacket(7));
}

#[test]
fn enum_field_codec() {
    assert_eq!(bytes_of(&Test::X), vec![0x01]);
    assert_eq!(bytes_of(&Test::B), vec![0xE7, 0x07]);
    assert_eq!(decode::<Test>(vec![0xE7, 0x07]).unwrap(), Test::B);
    assert_eq!(decode::<Test>(vec![0x01]).unwrap(), Test::X);
    assert_eq!(decode::<Test>(vec![0x02]).unwrap_err(), PacketError::UnknownEnumValue);
}

#[test]
fn record_write() {
    let s = TestStruct {
        name: String::from("ab"),
    };
    assert_eq!(bytes_of(&s), vec![0x02, b'a', b'b']);
}

#[test]
fn packets_group_dispatch() {
    let tp = TestPacket { test: VarInt(300) };
    let b = bytes_of(&tp);
    assert_eq!(b, vec![0x05, 0xAC, 0x02]);
    let read = decode::<Packets>(b).unwrap();
    assert_eq!(read, Packets::TestPacket(tp));
    assert_eq!(read.id(), 5);

    let ep = ExamplePacket { test: 9 };
    let b = bytes_of(&ep);
    assert_eq!(b, vec![0x06, 0x09]);
    let read = decode::<Packets>(b).unwrap();
    assert_eq!(read, Packets::from(ep));
    assert_eq!(read.id(), 6);
}

#[test]
fn variant_of_narrowing() {
    assert_eq!(<TestPacket as VariantOf<Packets>>::discriminant_id(), 5);
    assert_eq!(<ExamplePacket as VariantOf<Packets>>::discriminant_id(), 6);
    let g = Packets::from(TestPacket { test: VarInt(1) });
    assert_eq!(TestPacket::destructure(g), Some(TestPacket { test: VarInt(1) }));
    assert_eq!(ExamplePacket::destructure(g), None);
}

#[test]
fn varint_conversions() {
    assert_eq!(VarInt::from(7u32), VarInt(7));
    assert_eq!(u32::from(VarInt(8)), 8);
    assert_eq!(VarLong::from(9u64), VarLong(9));
    assert_eq!(u64::from(VarLong(10)), 10);
}

#[test]
fn reader_reads_in_order() {
    let mut r = Reader::new(vec![1, 2, 3]);
    assert_eq!(r.read_u8().unwrap(), 1);
    assert_eq!(r.read_exact(2).unwrap(), vec![2, 3]);
    assert_eq!(r.read_u8().unwrap_err(), PacketError::IO);
    assert_eq!(r.remaining(), 0);
}

#[test]
fn list_error_names_element() {
    assert_eq!(
        decode::<Vec<bool>>(vec![0x02, 0x01, 0x02]).unwrap_err(),
        PacketError::ElementFailed(1, Box::new(PacketError::InvalidBoolean(2)))
    );
    let nested = decode::<Vec<Vec<u8>>>(vec![0x02, 0x00, 0x02, 0x07]).unwrap_err();
    assert_eq!(
        nested,
        PacketError::ElementFailed(
            1,
            Box::new(PacketError::ElementFailed(1, Box::new(PacketError::IO)))
        )
    );
    assert!(nested.is_incomplete());
}

#[test]
fn map_error_names_entry() {
    assert_eq!(
        decode::<HashMap<u8, bool>>(vec![0x02, 0x01, 0x00, 0x02, 0x05]).unwrap_err(),
        PacketError::ElementFailed(1, Box::new(PacketError::InvalidBoolean(5)))
    );
}

#[test]
fn packet_field_error_names_field() {
    assert_eq!(
        decode::<BiPackets>(vec![0x01, 0x05, 0x02, 0x01]).unwrap_err(),
        PacketError::FieldDecodeFailure(
            "TestA",
            "a",
            Box::new(PacketError::ElementFailed(1, Box::new(PacketError::IO)))
        )
    );
    assert_eq!(
        decode::<BiPackets>(vec![0x01, 0x80]).unwrap_err(),
        PacketError::FieldDecodeFailure("TestA", "b", Box::new(PacketError::IO))
    );
    let e = decode::<Packets>(vec![0x06]).unwrap_err();
    assert_eq!(
        e,
        PacketError::FieldDecodeFailure("ExamplePacket", "test", Box::new(PacketError::IO))
    );
    assert!(e.is_incomplete());
    assert!(!PacketError::UnknownPacket(3).is_incomplete());
}

#[test]
fn reader_position_after_errors() {
    let mut crafted = bytes_of(&VarInt(32768));
    crafted.extend(std::iter::repeat(b'a').take(32768));
    let mut r = Reader::new(crafted);
    assert_eq!(
        String::read(&mut r).unwrap_err(),
        PacketError::InvalidStringLength(32768, 32767)
    );
    assert_eq!(r.remaining(), 32768);

    let mut r = Reader::new(vec![0x03, 0xAA, 0xBB]);
    assert_eq!(BiPackets::read(&mut r).unwrap_err(), PacketError::UnknownPacket(3));
    assert_eq!(r.remaining(), 2);

    let mut r = Reader::new(vec![0xE6, 0x07, 0x01]);
    assert_eq!(Test::read(&mut r).unwrap_err(), PacketError::UnknownEnumValue);
    assert_eq!(r.remaining(), 1);

    let mut r = Reader::new(vec![0x02, 0x01, 0x09, 0x00]);
    assert_eq!(
        Vec::<bool>::read(&mut r).unwrap_err(),
        PacketError::ElementFailed(1, Box::new(PacketError::InvalidBoolean(9)))
    );
    assert_eq!(r.remaining(), 1);
}
