//! The metadata pipeline: tag storage widths, tag byte lengths, precomputed
//! tag arrays, and field-number defaulting.

use otopr::metadata::{
    assign_field_numbers, discriminant_storage, field_tag_len, max_tag_storage,
    precompute_field_varint, tag_storage, variant_varint_bytes,
};
use otopr::wire_types::WireTypes;

#[test]
fn tag_storage_widths() {
    assert_eq!(tag_storage(1), Some(8));
    assert_eq!(tag_storage(31), Some(8));
    assert_eq!(tag_storage(32), Some(16));
    assert_eq!(tag_storage(0x1FFF), Some(16));
    assert_eq!(tag_storage(0x2000), Some(32));
    assert_eq!(tag_storage(0x1FFF_FFFF), Some(32));
    assert_eq!(tag_storage(0x2000_0000), Some(64));
    assert_eq!(tag_storage(0x2000_0000_0000_0000), None);
}

#[test]
fn widest_field_decides() {
    assert_eq!(max_tag_storage(&vec![1, 2, 3]), Some(8));
    assert_eq!(max_tag_storage(&vec![1, 40, 3]), Some(16));
    assert_eq!(max_tag_storage(&vec![1, 0x2000_0000_0000_0000]), None);
    assert_eq!(max_tag_storage(&vec![]), Some(8));
}

#[test]
fn tag_byte_lengths() {
    assert_eq!(field_tag_len(0), None);
    assert_eq!(field_tag_len(1), Some(1));
    assert_eq!(field_tag_len(15), Some(1));
    assert_eq!(field_tag_len(16), Some(2));
    assert_eq!(field_tag_len(1 << 11), Some(3));
    assert_eq!(field_tag_len((1 << 61) - 1), Some(10));
    assert_eq!(field_tag_len(1 << 61), None);
}

#[test]
fn precomputed_tags() {
    assert_eq!(
        precompute_field_varint(1, WireTypes::VarIntWire),
        vec![0x08]
    );
    assert_eq!(
        precompute_field_varint(2, WireTypes::LengthDelimitedWire),
        vec![0x12]
    );
    assert_eq!(
        precompute_field_varint(300, WireTypes::VarIntWire),
        vec![0xE0, 0x12]
    );
}

#[test]
fn discriminant_storage_widths() {
    assert_eq!(discriminant_storage(0), 8);
    assert_eq!(discriminant_storage(255), 8);
    assert_eq!(discriminant_storage(256), 16);
    assert_eq!(discriminant_storage(65536), 32);
    assert_eq!(discriminant_storage(1 << 32), 64);
}

#[test]
fn variant_bytes() {
    assert_eq!(variant_varint_bytes(0), vec![0x00]);
    assert_eq!(variant_varint_bytes(2), vec![0x02]);
    assert_eq!(variant_varint_bytes(300), vec![0xAC, 0x02]);
}

#[test]
fn field_numbers_default_sequentially() {
    let given = vec![None, Some(5), None, None, Some(2), None];
    assert_eq!(assign_field_numbers(&given), vec![1, 5, 6, 7, 2, 3]);
    assert_eq!(assign_field_numbers(&vec![]), Vec::<u64>::new());
}
