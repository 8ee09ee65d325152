//! The record-metadata pipeline: from a field's number, the width of the
//! record's tag storage, the byte length of the field's tag on the wire, and
//! the precomputed tag bytes that let a record encoder emit each field with
//! one raw copy.  Enumeration declarations get their discriminant storage
//! and constant byte arrays from the same computations.

use crate::encoding::{field_number_ok, ProtobufSerializer};
use crate::varint::{
    lemma_varint_len_lower, lemma_varint_len_upper, varint_enc, varint_len,
};
use crate::wire_types::{tag_val, wire_bits, WireTypes};
use vstd::arithmetic::power2::{lemma2_to64, lemma2_to64_rest, pow2};
use vstd::prelude::*;

verus! {

/// The narrowest unsigned storage, in bits, whose tags cover a field number:
/// the number needs three bits of room for the wire type.  Numbers of
/// sixty-one bits or more have no tag.
pub open spec fn tag_storage_spec(field_number: nat) -> Option<u32> {
    if field_number < 0x20 {
        Some(8u32)
    } else if field_number < 0x2000 {
        Some(16u32)
    } else if field_number < 0x2000_0000 {
        Some(32u32)
    } else if field_number < 0x2000_0000_0000_0000 {
        Some(64u32)
    } else {
        None
    }
}

/// Classifies a field number into its record's tag storage width.
pub fn tag_storage(field_number: u64) -> (r: Option<u32>)
    ensures
        r == tag_storage_spec(field_number as nat),
        r matches Some(bits) ==> tag_val(field_number as nat, WireTypes::VarIntWire) < pow2(
            bits as nat,
        ),
{
    proof {
        lemma2_to64();
        lemma2_to64_rest();
    }
    if field_number < 0x20 {
        Some(8)
    } else if field_number < 0x2000 {
        Some(16)
    } else if field_number < 0x2000_0000 {
        Some(32)
    } else if field_number < 0x2000_0000_0000_0000 {
        Some(64)
    } else {
        None
    }
}

/// The tag storage a whole record needs: the smallest of the four widths
/// that covers every field.  The returned width bounds every field's own
/// width and, unless the record has no fields, is attained by one of them,
/// so it is exactly the maximum; a record with no fields decodes one-byte
/// tags.
pub fn max_tag_storage(field_numbers: &Vec<u64>) -> (r: Option<u32>)
    ensures
        r matches Some(bits) ==> (bits == 8 || bits == 16 || bits == 32 || bits == 64) && forall|
            i: int,
        |
            0 <= i < field_numbers@.len() ==> ((#[trigger] tag_storage_spec(
                field_numbers@[i] as nat,
            )) matches Some(b) && b <= bits),
        r matches Some(bits) ==> (field_numbers@.len() == 0 ==> bits == 8) && (
        field_numbers@.len() > 0 ==> exists|i: int|
            0 <= i < field_numbers@.len() && (#[trigger] tag_storage_spec(
                field_numbers@[i] as nat,
            )) == Some(bits)),
        r is None ==> exists|i: int|
            0 <= i < field_numbers@.len() && (#[trigger] tag_storage_spec(
                field_numbers@[i] as nat,
            )) is None,
{
    let mut widest: u32 = 8;
    let mut i: usize = 0;
    while i < field_numbers.len()
        invariant
            0 <= i <= field_numbers@.len(),
            widest == 8 || widest == 16 || widest == 32 || widest == 64,
            i == 0 ==> widest == 8,
            i > 0 ==> exists|j: int|
                0 <= j < i && (#[trigger] tag_storage_spec(field_numbers@[j] as nat)) == Some(
                    widest,
                ),
            forall|j: int|
                0 <= j < i ==> ((#[trigger] tag_storage_spec(field_numbers@[j] as nat))
                    matches Some(b) && b <= widest),
        decreases field_numbers@.len() - i,
    {
        match tag_storage(field_numbers[i]) {
            Some(bits) => {
                if bits > widest || i == 0 {
                    widest = bits;
                }
                proof {
                    if tag_storage_spec(field_numbers@[i as int] as nat) == Some(widest) {
                        assert(exists|j: int|
                            0 <= j < i + 1 && (#[trigger] tag_storage_spec(
                                field_numbers@[j] as nat,
                            )) == Some(widest));
                    }
                }
            },
            None => {
                return None;
            },
        }
        i = i + 1;
    }
    Some(widest)
}

/// How many bytes the tag of a field takes on the wire, for any of the four
/// wire types: the wire bits ride in the low three bits and never change the
/// length.  One to ten bytes; numbers of sixty-one bits or more have no tag.
pub fn field_tag_len(field_number: u64) -> (r: Option<usize>)
    ensures
        field_number_ok(field_number as nat) ==> (r matches Some(k) && 1 <= k <= 10 && forall|
            w: WireTypes,
        | k == varint_len(#[trigger] tag_val(field_number as nat, w))),
        !field_number_ok(field_number as nat) ==> r is None,
{
    proof {
        lemma2_to64();
        lemma2_to64_rest();
    }
    if field_number == 0 || field_number >= 0x2000_0000_0000_0000 {
        proof {
            assert(pow2(61) == 0x2000000000000000);
        }
        return None;
    }
    let ghost n = field_number as nat;
    proof {
        assert(pow2(61) == 0x2000000000000000);
        assert forall|w: WireTypes| tag_val(n, w) < pow2(61) * 8 by {
            assert(wire_bits(w) < 8);
            assert(n * 8 + 8 <= pow2(61) * 8) by (nonlinear_arith)
                requires
                    n < pow2(61),
            ;
        };
    }
    let size = crate::encoding::varint_size(field_number * 8);
    proof {
        assert forall|w: WireTypes| varint_len(tag_val(n, w)) == varint_len((n * 8) as nat) by {
            lemma_tag_len_wire_free(n, w);
        };
    }
    Some(size)
}

/// The wire bits in a tag never change how many bytes the tag takes: the
/// field number times eight already fixes the seven-bit group count.
proof fn lemma_tag_len_wire_free(n: nat, w: WireTypes)
    requires
        n < pow2(61),
    ensures
        varint_len(tag_val(n, w)) == varint_len((n * 8) as nat),
{
    lemma2_to64();
    lemma2_to64_rest();
    let b = wire_bits(w) as nat;
    let t = (n * 8 + b) as nat;
    let base = (n * 8) as nat;
    lemma_varint_len_lower(base);
    lemma_varint_len_lower(t);
    if n == 0 {
    } else {
        // Both values share every power-of-two bucket boundary: the
        // boundaries above 8 are multiples of 8, and the two values differ
        // only in the low three bits.
        lemma_len_same_bucket(base, t);
    }
}

/// Values eight apart and aligned to eight never straddle a seven-bit group
/// boundary, so they share a varint length.
proof fn lemma_len_same_bucket(base: nat, t: nat)
    requires
        base % 8 == 0,
        base <= t < base + 8,
    ensures
        varint_len(t) == varint_len(base),
{
    lemma_varint_len_lower(base);
    lemma_varint_len_lower(t);
    let k = varint_len(base);
    assert(t < pow2((7 * k) as nat)) by {
        if t >= pow2((7 * k) as nat) {
            let p = pow2((7 * k) as nat);
            assert(p % 8 == 0) by {
                vstd::arithmetic::power2::lemma_pow2_adds(3, (7 * k - 3) as nat);
                lemma2_to64();
                assert(p == 8 * pow2((7 * k - 3) as nat));
                assert((8 * pow2((7 * k - 3) as nat)) % 8 == 0) by (nonlinear_arith);
            };
            assert(base + 8 <= p) by (nonlinear_arith)
                requires
                    base % 8 == 0,
                    p % 8 == 0,
                    base < p,
            ;
            assert(false);
        }
    };
    lemma_varint_len_upper(t, k);
    let lt = varint_len(t);
    if lt < k {
        lemma_varint_len_upper(base, lt);
        assert(false);
    }
}

/// The tag bytes of a field, materialized: the varint encoding of
/// `(field_number << 3) | wire`.  A record encoder hands these to
/// `encode_field_precomputed` so a steady-state encode costs one byte copy
/// per tag.
pub fn precompute_field_varint(field_number: u64, wire: WireTypes) -> (r: Vec<u8>)
    requires
        field_number_ok(field_number as nat),
    ensures
        r@ == varint_enc(tag_val(field_number as nat, wire)),
{
    proof {
        crate::encoding::lemma_tag_fits(field_number as nat, wire);
    }
    let tag = field_number * 8 + wire.bits() as u64;
    let mut s = ProtobufSerializer::new(Vec::new());
    s.write_varint(tag);
    s.into_inner()
}

/// The narrowest unsigned storage, in bits, that holds an enumeration
/// discriminant.
pub fn discriminant_storage(discriminant: u64) -> (r: u32)
    ensures
        r == 8 || r == 16 || r == 32 || r == 64,
        discriminant < 0x100 <==> r == 8,
        0x100 <= discriminant < 0x1_0000 <==> r == 16,
        0x1_0000 <= discriminant < 0x1_0000_0000 <==> r == 32,
    {
    if discriminant < 0x100 {
        8
    } else if discriminant < 0x1_0000 {
        16
    } else if discriminant < 0x1_0000_0000 {
        32
    } else {
        64
    }
}

/// The constant byte array an enumeration variant's discriminant encodes to.
pub fn variant_varint_bytes(discriminant: u64) -> (r: Vec<u8>)
    ensures
        r@ == varint_enc(discriminant as nat),
{
    let mut s = ProtobufSerializer::new(Vec::new());
    s.write_varint(discriminant);
    s.into_inner()
}

/// What sequential defaulting assigns: an explicit field number is kept, a
/// missing one is the previous number plus one, starting from one.
pub open spec fn assign_numbers_spec(given: Seq<Option<u64>>, prev: u64) -> Seq<u64>
    decreases given.len(),
{
    if given.len() == 0 {
        Seq::empty()
    } else {
        let head = match given[0] {
            Some(n) => n,
            None => if prev == u64::MAX {
                u64::MAX
            } else {
                (prev + 1) as u64
            },
        };
        seq![head] + assign_numbers_spec(given.skip(1), head)
    }
}

/// Fills in the field numbers of a record declaration: every field without
/// an explicit number follows its predecessor, starting from one.
pub fn assign_field_numbers(given: &Vec<Option<u64>>) -> (r: Vec<u64>)
    ensures
        r@ == assign_numbers_spec(given@, 0),
{
    let mut out: Vec<u64> = Vec::new();
    let mut prev: u64 = 0;
    let mut i: usize = 0;
    proof {
        lemma_assign_take(given@, 0);
    }
    while i < given.len()
        invariant
            0 <= i <= given@.len(),
            out@.len() == i,
            out@ + assign_numbers_spec(given@.skip(i as int), prev) == assign_numbers_spec(
                given@,
                0,
            ),
            i > 0 ==> prev == out@[i - 1],
            i == 0 ==> prev == 0,
        decreases given@.len() - i,
    {
        let next = match given[i] {
            Some(n) => n,
            None => if prev == u64::MAX {
                u64::MAX
            } else {
                prev + 1
            },
        };
        out.push(next);
        proof {
            let rest = given@.skip(i as int);
            assert(rest[0] == given@[i as int]);
            assert(rest.skip(1) =~= given@.skip(i + 1));
            assert(assign_numbers_spec(rest, prev) == seq![next] + assign_numbers_spec(
                given@.skip(i + 1),
                next,
            ));
            assert(out@ + assign_numbers_spec(given@.skip(i + 1), next) =~= (out@.take(i as int)
                + seq![next]) + assign_numbers_spec(given@.skip(i + 1), next));
            assert(out@.take(i as int) + (seq![next] + assign_numbers_spec(
                given@.skip(i + 1),
                next,
            )) =~= (out@.take(i as int) + seq![next]) + assign_numbers_spec(
                given@.skip(i + 1),
                next,
            ));
        }
        prev = next;
        i = i + 1;
    }
    proof {
        assert(given@.skip(given@.len() as int) =~= Seq::<Option<u64>>::empty());
        assert(out@ + Seq::<u64>::empty() =~= out@);
    }
    out
}

/// Starting point of the defaulting recursion.
proof fn lemma_assign_take(given: Seq<Option<u64>>, prev: u64)
    ensures
        Seq::<u64>::empty() + assign_numbers_spec(given.skip(0), prev) == assign_numbers_spec(
            given,
            prev,
        ),
{
    assert(given.skip(0) =~= given);
    assert(Seq::<u64>::empty() + assign_numbers_spec(given, prev) =~= assign_numbers_spec(
        given,
        prev,
    ));
}

} // verus!
