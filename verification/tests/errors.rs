//! Error discipline: overflow, truncation, frames, and unknown wire types.

use otopr::decoding::{decode_message, Decodable, DecodingError, Deserializer};
use otopr::encoding::{EncodableMessage, ProtobufSerializer};
use otopr::records::{Int32Message, StrMessage, Timestamp};
use otopr::wire_types::WireTypes;

#[test]
fn varint_ten_byte_overflow() {
    // The tenth byte carries significant bits beyond bit 63.
    let mut d = Deserializer::new(vec![
        0xFF, 0xFF, 0xFF, 0xFF, 0xFF, 0xFF, 0xFF, 0xFF, 0xFF, 0x02,
    ]);
    assert_eq!(d.read_varint(), Err(DecodingError::VarIntOverflow));
}

#[test]
fn varint_eleven_bytes_overflow() {
    let mut d = Deserializer::new(vec![
        0x80, 0x80, 0x80, 0x80, 0x80, 0x80, 0x80, 0x80, 0x80, 0x80, 0x01,
    ]);
    assert_eq!(d.read_varint(), Err(DecodingError::VarIntOverflow));
}

#[test]
fn varint_cut_short() {
    let mut d = Deserializer::new(vec![0x96]);
    assert_eq!(d.read_varint(), Err(DecodingError::Eof));
}

#[test]
fn unknown_wire_types_rejected() {
    // Tags for field 1 with the deprecated grouped-field wire types 3 and 4.
    for wire in [3u8, 4u8] {
        let tag = (1 << 3) | wire;
        let mut d = Deserializer::new(vec![tag, 0x00]);
        let r: Result<Int32Message, DecodingError> = decode_message(&mut d);
        assert_eq!(r, Err(DecodingError::UnknownWireType(wire)));
    }
}

#[test]
fn skip_rejects_nothing_it_knows() {
    for wire in [0u8, 1, 2, 5] {
        assert!(WireTypes::new(wire).is_ok());
    }
    for wire in [3u8, 4, 6, 7] {
        assert_eq!(
            WireTypes::new(wire),
            Err(DecodingError::UnknownWireType(wire))
        );
    }
}

#[test]
fn string_length_past_frame_is_eof() {
    // A string field declaring seven bytes with only one present.
    let mut d = Deserializer::new(vec![0x12, 0x07, 0x61]);
    let r: Result<StrMessage, DecodingError> = decode_message(&mut d);
    assert_eq!(r, Err(DecodingError::Eof));
}

#[test]
fn limit_frame_starves_inner_read() {
    // An outer frame of two bytes cannot supply a five-byte read.
    let mut d = Deserializer::new(vec![0x61, 0x62, 0x63, 0x64, 0x65, 0x66]);
    let tok = d.set_limit(2);
    assert_eq!(d.read_bytes(5), Err(DecodingError::Eof));
    assert_eq!(d.read_bytes(2), Ok(vec![0x61, 0x62]));
    d.reset_limit(tok);
    // What the frame consumed was debited against the outer view.
    assert_eq!(d.remaining(), 4);
}

#[test]
fn invalid_utf8_is_utf8_error() {
    let mut d = Deserializer::new(vec![0x12, 0x02, 0xFF, 0xFE]);
    let r: Result<StrMessage, DecodingError> = decode_message(&mut d);
    assert_eq!(r, Err(DecodingError::Utf8Error));
}

#[test]
fn chunk_boundary_forces_owned_copy() {
    // Four bytes split three-and-one: the borrowing reader refuses at the
    // chunk boundary, the assembling reader hands the bytes back whole.
    let mut borrowed = Deserializer::new_chained(vec![0xAA, 0xBB, 0xCC], vec![0xDD]);
    assert_eq!(
        borrowed.read_bytes_borrowed(4),
        Err(DecodingError::Eof)
    );
    let mut owned = Deserializer::new_chained(vec![0xAA, 0xBB, 0xCC], vec![0xDD]);
    assert_eq!(owned.read_bytes(4), Ok(vec![0xAA, 0xBB, 0xCC, 0xDD]));
    // Within one chunk the borrowing reader succeeds.
    let mut contiguous = Deserializer::new_chained(vec![0xAA, 0xBB, 0xCC], vec![0xDD]);
    assert_eq!(contiguous.read_bytes_borrowed(2), Ok(vec![0xAA, 0xBB]));
}

#[test]
fn truncated_record_is_eof() {
    let t = Timestamp { seconds: 500, nanos: 0 };
    let mut ser = ProtobufSerializer::new(Vec::new());
    t.encode(&mut ser);
    let mut buf = ser.into_inner();
    buf.pop();
    let mut d = Deserializer::new(buf);
    let r: Result<Timestamp, DecodingError> = decode_message(&mut d);
    assert_eq!(r, Err(DecodingError::Eof));
}
