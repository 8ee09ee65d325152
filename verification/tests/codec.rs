//! Round trips and wire-level byte checks for the codec.

use otopr::decoding::{decode_message, Decodable, DecodingError, Deserializer};
use otopr::encoding::{EncodableMessage, ProtobufSerializer};
use otopr::records::{Foo, Int32Message, Numbers, StrMessage, Timestamp};
use otopr::repeated::{Repeated, Testing};
use otopr::Signed;

fn encode_to_vec<M: EncodableMessage>(m: &M) -> Vec<u8> {
    let mut ser = ProtobufSerializer::new(Vec::new());
    m.encode(&mut ser);
    ser.into_inner()
}

#[test]
fn test1() {
    let buf = encode_to_vec(&Int32Message { value: 150 });
    assert_eq!(&[0x08, 0x96, 0x01], buf.as_slice());

    let mut d = Deserializer::new(buf);
    let t: Int32Message = decode_message(&mut d).unwrap();
    assert_eq!(t.value, 150);
}

#[test]
fn test2() {
    let buf = encode_to_vec(&StrMessage { text: String::from("testing") });
    assert_eq!(
        &[0x12, 0x07, 0x74, 0x65, 0x73, 0x74, 0x69, 0x6e, 0x67],
        buf.as_slice()
    );
}

#[test]
fn test_varint() {
    let mut d = Deserializer::new(vec![
        0b1_1111111,
        0b1_1111111,
        0b1_1111111,
        0b1_1111111,
        0b1_1111111,
        0b1_1111111,
        0b1_1111111,
        0b1_1111111,
        0b1_1111111,
        0b0_0000001,
    ]);
    let num = d.read_varint().unwrap();
    assert_eq!(num, u64::MAX);
}

#[test]
fn test_enumeration() {
    assert_eq!(Foo::Bar, Foo::default());

    let cases: [(u64, Foo); 4] = [(0, Foo::Bar), (1, Foo::Baz), (2, Foo::Qux), (100, Foo::Bar)];
    for (num, expected) in cases {
        let mut ser = ProtobufSerializer::new(Vec::new());
        ser.write_varint(num);
        let mut d = Deserializer::new(ser.into_inner());
        let case = <Foo as Decodable>::decode(&mut d).unwrap();
        assert_eq!(expected, case);
    }
}

#[test]
fn varint_max_bytes() {
    let mut ser = ProtobufSerializer::new(Vec::new());
    ser.write_varint(u64::MAX);
    let buf = ser.into_inner();
    assert_eq!(
        &[0xFF, 0xFF, 0xFF, 0xFF, 0xFF, 0xFF, 0xFF, 0xFF, 0xFF, 0x01],
        buf.as_slice()
    );
    assert_eq!(otopr::encoding::varint_size(u64::MAX), 10);
    assert_eq!(otopr::encoding::varint_size(0), 1);
    assert_eq!(otopr::encoding::varint_size(150), 2);
}

#[test]
fn repeated_two_elements() {
    let record = Numbers { values: Repeated::new(vec![1, 300]) };
    let buf = encode_to_vec(&record);
    assert_eq!(&[0x18, 0x01, 0x18, 0xAC, 0x02], buf.as_slice());

    let mut d = Deserializer::new(buf);
    let back: Numbers = decode_message(&mut d).unwrap();
    assert_eq!(back.values.into_inner(), vec![1, 300]);
}

#[test]
fn map_single_entry() {
    let map: otopr::map::MapField<String, i32> =
        otopr::map::MapField::new(vec![(String::from("ab"), 5)]);
    let mut ser = ProtobufSerializer::new(Vec::new());
    map.encode_field(&mut ser, 7);
    let buf = ser.into_inner();
    // Sub-message body: key tag 0x0A, length 2, "ab"; value tag 0x10, 5 —
    // six bytes, announced by the length prefix.
    assert_eq!(
        &[0x3A, 0x06, 0x0A, 0x02, 0x61, 0x62, 0x10, 0x05],
        buf.as_slice()
    );
}

#[test]
fn map_entry_round_trip() {
    let map: otopr::map::MapField<String, i32> =
        otopr::map::MapField::new(vec![(String::from("ab"), 5)]);
    let mut ser = ProtobufSerializer::new(Vec::new());
    map.encode_field(&mut ser, 7);
    let buf = ser.into_inner();
    let mut d = Deserializer::new(buf);
    let tag = d.read_field_tag(8).unwrap();
    assert_eq!(tag, 0x3A);
    let back = <otopr::map::MapField<String, i32> as Decodable>::decode(&mut d).unwrap();
    assert_eq!(
        back.into_entries(),
        vec![(String::from("ab"), 5)]
    );
}

#[test]
fn map_entry_defaults_missing_halves() {
    // A framed entry holding only a value: the key defaults to empty.
    let mut d = Deserializer::new(vec![0x02, 0x10, 0x09]);
    let back = <otopr::map::MapField<String, i32> as Decodable>::decode(&mut d).unwrap();
    assert_eq!(back.into_entries(), vec![(String::new(), 9)]);
    // An empty frame: both halves default.
    let mut empty = Deserializer::new(vec![0x00]);
    let back = <otopr::map::MapField<String, i32> as Decodable>::decode(&mut empty).unwrap();
    assert_eq!(back.into_entries(), vec![(String::new(), 0)]);
}

#[test]
fn enumeration_oversized_discriminant_defaults() {
    // Varint of 300: too wide for the one-byte discriminant storage.  Its
    // first byte's low bits name no wire type, but a discriminant read
    // never surfaces that: the bytes are drained and the default returned.
    let mut d = Deserializer::new(vec![0xAC, 0x02]);
    assert_eq!(<Foo as Decodable>::decode(&mut d), Ok(Foo::Bar));
    assert_eq!(d.remaining(), 0);
    // The same with low bits that do name a wire type.
    let mut d2 = Deserializer::new(vec![0x81, 0x02]);
    assert_eq!(<Foo as Decodable>::decode(&mut d2), Ok(Foo::Bar));
    assert_eq!(d2.remaining(), 0);
}

#[test]
fn sensor_survives_oversized_enum_discriminant() {
    // A record whose enumeration field carries a discriminant from a newer
    // producer still decodes whole.
    let mut buf = encode_to_vec(&Int32Message { value: 1 });
    buf.clear();
    // active = true, then state (tag 40) with the oversized discriminant.
    buf.push(0x08);
    buf.push(0x01);
    buf.push(0x28);
    buf.push(0xAC);
    buf.push(0x02);
    let mut d = Deserializer::new(buf);
    let back: otopr::records::Sensor = decode_message(&mut d).unwrap();
    assert!(back.active);
    assert_eq!(back.state, Foo::Bar);
}

#[test]
fn map_same_key_overwrites() {
    let mut base: otopr::map::MapField<String, i32> =
        otopr::map::MapField::new(vec![(String::from("k"), 1)]);
    let later: otopr::map::MapField<String, i32> =
        otopr::map::MapField::new(vec![(String::from("k"), 2), (String::from("other"), 3)]);
    Decodable::merge(&mut base, later);
    assert_eq!(
        base.into_entries(),
        vec![(String::from("k"), 2), (String::from("other"), 3)]
    );

    // The decode path inserts the same way: two framed entries with one key
    // leave a single entry holding the later value.
    let entry = |v: u8| vec![0x05u8, 0x0A, 0x01, 0x6B, 0x10, v];
    let mut stream = entry(7);
    stream.extend_from_slice(entry(9).as_slice());
    let mut d = Deserializer::new(stream);
    let mut decoded: otopr::map::MapField<String, i32> = otopr::map::MapField::new(Vec::new());
    Decodable::merge_from(&mut decoded, &mut d).unwrap();
    Decodable::merge_from(&mut decoded, &mut d).unwrap();
    assert_eq!(decoded.into_entries(), vec![(String::from("k"), 9)]);
}

#[test]
fn dict_round_trip_and_merge() {
    let d1 = otopr::records::Dict {
        entries: otopr::map::MapField::new(vec![
            (String::from("ab"), 5),
            (String::from("cd"), 6),
        ]),
    };
    let buf = encode_to_vec(&d1);
    let mut d = Deserializer::new(buf);
    let back: otopr::records::Dict = decode_message(&mut d).unwrap();
    assert_eq!(
        back.entries.into_entries(),
        vec![(String::from("ab"), 5), (String::from("cd"), 6)]
    );

    // Two concatenated encodings merge by insert/overwrite: the shared key
    // takes the later value, the new key is appended.
    let d2 = otopr::records::Dict {
        entries: otopr::map::MapField::new(vec![
            (String::from("ab"), 9),
            (String::from("ef"), 7),
        ]),
    };
    let mut stream = encode_to_vec(&d1);
    stream.extend_from_slice(encode_to_vec(&d2).as_slice());
    let mut d = Deserializer::new(stream);
    let merged: otopr::records::Dict = decode_message(&mut d).unwrap();
    assert_eq!(
        merged.entries.into_entries(),
        vec![
            (String::from("ab"), 9),
            (String::from("cd"), 6),
            (String::from("ef"), 7)
        ]
    );
}

#[test]
fn timestamp_round_trip() {
    let t = Timestamp { seconds: -1234567890, nanos: 999999999 };
    let buf = encode_to_vec(&t);
    let mut d = Deserializer::new(buf);
    let back: Timestamp = decode_message(&mut d).unwrap();
    assert_eq!(t, back);
}

#[test]
fn timestamp_merge_overwrites() {
    let t1 = Timestamp { seconds: 11, nanos: 22 };
    let t2 = Timestamp { seconds: 33, nanos: 44 };
    let mut buf = encode_to_vec(&t1);
    buf.extend_from_slice(encode_to_vec(&t2).as_slice());
    let mut d = Deserializer::new(buf);
    let merged: Timestamp = decode_message(&mut d).unwrap();
    assert_eq!(merged, t2);
}

#[test]
fn repeated_merge_appends() {
    let n1 = Numbers { values: Repeated::new(vec![1, 2]) };
    let n2 = Numbers { values: Repeated::new(vec![3]) };
    let mut buf = encode_to_vec(&n1);
    buf.extend_from_slice(encode_to_vec(&n2).as_slice());
    let mut d = Deserializer::new(buf);
    let merged: Numbers = decode_message(&mut d).unwrap();
    assert_eq!(merged.values.into_inner(), vec![1, 2, 3]);
}

#[test]
fn unknown_field_is_skipped() {
    let t = Timestamp { seconds: 7, nanos: 8 };
    let mut buf = encode_to_vec(&t);
    // Field number 3, varint wire, one-byte payload.
    buf.push(0x18);
    buf.push(0x05);
    // Field number 4, length-delimited wire, two-byte payload.
    buf.push(0x22);
    buf.push(0x02);
    buf.push(0xAA);
    buf.push(0xBB);
    let mut d = Deserializer::new(buf);
    let back: Timestamp = decode_message(&mut d).unwrap();
    assert_eq!(t, back);
}

#[test]
fn oversized_tag_is_skipped() {
    // A tag for field number 300 does not fit the record's one-byte tag
    // storage; the wire type is still recovered and the field skipped.
    let mut ser = ProtobufSerializer::new(Vec::new());
    ser.write_varint(300 << 3);
    ser.write_varint(5);
    let mut tail = Deserializer::new(ser.into_inner());
    let skipped: Int32Message = decode_message(&mut tail).unwrap();
    assert_eq!(skipped.value, 0);
}

#[test]
fn zigzag_round_trips() {
    let cases: [i64; 5] = [0, -1, 1, i64::MIN, i64::MAX];
    for n in cases {
        let signed = Signed::<i64>::new(n);
        assert_eq!(signed.value(), n);
    }
    assert_eq!(Signed::<i64>::new(-1).into_stored(), 1);
    assert_eq!(Signed::<i64>::new(1).into_stored(), 2);
    assert_eq!(Signed::<i32>::new(-2).into_stored(), 3);
}

#[test]
fn fixed_words_round_trip() {
    let mut ser = ProtobufSerializer::new(Vec::new());
    ser.write_u32(0x11223344);
    ser.write_u64(0x1122334455667788);
    let buf = ser.into_inner();
    assert_eq!(
        &[0x44, 0x33, 0x22, 0x11, 0x88, 0x77, 0x66, 0x55, 0x44, 0x33, 0x22, 0x11],
        buf.as_slice()
    );
    let mut d = Deserializer::new(buf);
    let w32 = <otopr::Fixed32 as Decodable>::decode(&mut d).unwrap();
    let w64 = <otopr::Fixed64 as Decodable>::decode(&mut d).unwrap();
    assert_eq!(w32, otopr::Fixed32(0x11223344));
    assert_eq!(w64, otopr::Fixed64(0x1122334455667788));
}

#[test]
fn string_round_trip() {
    let m = StrMessage { text: String::from("héllo, wörld") };
    let buf = encode_to_vec(&m);
    let mut d = Deserializer::new(buf);
    let back: StrMessage = decode_message(&mut d).unwrap();
    assert_eq!(back.text, m.text);
}

#[test]
fn nested_message_round_trip() {
    let inner = Timestamp { seconds: 42, nanos: 7 };
    let msg = otopr::Message(inner);
    let mut ser = ProtobufSerializer::new(Vec::new());
    otopr::encoding::encode_field(&msg, &mut ser, 5);
    let buf = ser.into_inner();
    // Tag for field 5, length-delimited: 5 << 3 | 2.
    assert_eq!(buf[0], 0x2A);
    let mut d = Deserializer::new(buf);
    let tag = d.read_field_tag(8).unwrap();
    assert_eq!(tag, 0x2A);
    let back = <otopr::Message<Timestamp> as Decodable>::decode(&mut d).unwrap();
    assert_eq!(back.into_inner(), inner);
}

#[test]
fn testing_encodes_repeated_bytes() {
    let record = Testing { foo: Repeated::new(vec![vec![0xDE, 0xAD]]) };
    let buf = encode_to_vec(&record);
    assert_eq!(&[0x0A, 0x02, 0xDE, 0xAD], buf.as_slice());
}

#[test]
fn sensor_round_trip_all_shapes() {
    let t = otopr::records::Sensor {
        active: true,
        reading: otopr::Fixed32(0xDEADBEEF),
        total: otopr::Fixed64(0x0102030405060708),
        delta: otopr::Signed::<i64>::new(-40),
        state: Foo::Qux,
    };
    let buf = encode_to_vec(&t);
    let mut d = Deserializer::new(buf);
    let back: otopr::records::Sensor = decode_message(&mut d).unwrap();
    assert!(back.active);
    assert_eq!(back.reading, otopr::Fixed32(0xDEADBEEF));
    assert_eq!(back.total, otopr::Fixed64(0x0102030405060708));
    assert_eq!(back.delta.value(), -40);
    assert_eq!(back.state, Foo::Qux);
}

#[test]
fn varint_write_read_round_trip() {
    let values: [u64; 8] = [0, 1, 127, 128, 300, 16384, 1 << 32, u64::MAX];
    for v in values {
        let mut ser = ProtobufSerializer::new(Vec::new());
        ser.write_varint(v);
        let buf = ser.into_inner();
        assert_eq!(buf.len(), otopr::encoding::varint_size(v));
        let mut d = Deserializer::new(buf);
        assert_eq!(d.read_varint(), Ok(v));
        assert_eq!(d.remaining(), 0);
    }
}

#[test]
fn encoded_size_matches_encoding() {
    let t = Timestamp { seconds: -5, nanos: 1 << 20 };
    assert_eq!(t.encoded_size(), encode_to_vec(&t).len());

    let m = StrMessage { text: String::from("sized") };
    assert_eq!(m.encoded_size(), encode_to_vec(&m).len());

    let n = Numbers { values: Repeated::new(vec![0, 127, 128, u32::MAX]) };
    assert_eq!(n.encoded_size(), encode_to_vec(&n).len());

    let map: otopr::map::MapField<String, i32> =
        otopr::map::MapField::new(vec![(String::from("k"), -9), (String::from("key2"), 77)]);
    let mut ser = ProtobufSerializer::new(Vec::new());
    map.encode_field(&mut ser, 7);
    let size = map.encoded_size(7);
    assert_eq!(size, ser.into_inner().len());
}

#[test]
fn serializer_encode_field() {
    let mut ser = ProtobufSerializer::new(Vec::new());
    ser.encode_field(1, &150i32);
    assert_eq!(&[0x08, 0x96, 0x01], ser.into_inner().as_slice());
}

#[test]
fn bytes_and_small_ints_decode() {
    let mut d = Deserializer::new(vec![0x02, 0xAB, 0xCD, 0xAC, 0x02, 0x96, 0x01]);
    assert_eq!(<Vec<u8> as Decodable>::decode(&mut d), Ok(vec![0xAB, 0xCD]));
    assert_eq!(<u16 as Decodable>::decode(&mut d), Ok(300u16));
    assert_eq!(<usize as Decodable>::decode(&mut d), Ok(150usize));
    assert_eq!(d.remaining(), 0);
}

#[test]
fn bool_values() {
    let mut d = Deserializer::new(vec![0x01, 0x00, 0x02]);
    assert_eq!(<bool as Decodable>::decode(&mut d), Ok(true));
    assert_eq!(<bool as Decodable>::decode(&mut d), Ok(false));
    assert_eq!(
        <bool as Decodable>::decode(&mut d),
        Err(DecodingError::VarIntOverflow)
    );
}
