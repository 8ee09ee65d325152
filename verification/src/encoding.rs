//! Encoding: the append-only serializer and the payload-level encode
//! contracts.

use crate::varint::{lemma_varint_len_lower, lemma_varint_len_upper, varint_enc, varint_len};
use crate::wire_types::{tag_val, WireTypes};
use vstd::arithmetic::power2::{lemma2_to64, lemma_pow2_strictly_increases, pow2};
use vstd::prelude::*;
use vstd::string::StringSliceAdditionalSpecFns;

verus! {

/// A value shape that can stand in a field: it owns a wire type and a
/// payload encoding, stated over its view.
pub trait Encodable: View {
    /// The wire type every value of this shape encodes with.
    spec fn wire() -> WireTypes;

    /// The payload bytes of a value, tag excluded.  For length-delimited
    /// shapes this includes the length prefix.
    spec fn enc(m: Self::V) -> Seq<u8>;

    /// When a value is small enough that its sizes fit the machine.
    spec fn enc_ok(m: Self::V) -> bool;

    /// Every impl keeps its payload comfortably below the address-space
    /// bound, so that a field size (tag and payload) fits a `usize`.
    proof fn lemma_enc_ok(m: Self::V)
        requires
            Self::enc_ok(m),
        ensures
            Self::enc(m).len() + 16 <= usize::MAX,
    ;

    /// The wire type, as a value.
    fn wire_exec() -> (w: WireTypes)
        ensures
            w == Self::wire(),
    ;

    /// The payload size in bytes, tag excluded.
    fn payload_size(&self) -> (r: usize)
        requires
            Self::enc_ok(self@),
        ensures
            r == Self::enc(self@).len(),
    ;

    /// Appends the payload, no tag.
    fn encode(&self, s: &mut ProtobufSerializer)
        requires
            Self::enc_ok(self@),
        ensures
            final(s)@ == old(s)@ + Self::enc(self@),
    ;
}

/// Field numbers live in `[1, 2^61 - 1]`: the tag must fit 64 bits with the
/// three wire-type bits beside it.
pub open spec fn field_number_ok(field_number: nat) -> bool {
    1 <= field_number < pow2(61)
}

/// The full encoding of one field: its tag as a varint, then the payload.
pub open spec fn field_enc<T: Encodable>(field_number: nat, m: T::V) -> Seq<u8> {
    varint_enc(tag_val(field_number, T::wire())) + T::enc(m)
}

/// The size in bytes a field takes, its tag included.
pub fn encoded_size<T: Encodable>(field: &T, field_number: u64) -> (r: usize)
    requires
        T::enc_ok(field@),
        field_number_ok(field_number as nat),
    ensures
        r == field_enc::<T>(field_number as nat, field@).len(),
{
    proof {
        T::lemma_enc_ok(field@);
        lemma_tag_fits(field_number as nat, T::wire());
        crate::varint::lemma_varint_enc_len(tag_val(field_number as nat, T::wire()));
    }
    let tag = field_number * 8 + T::wire_exec().bits() as u64;
    varint_size(tag) + field.payload_size()
}

/// Emits one field: the tag as a varint, then the payload.
pub fn encode_field<T: Encodable>(field: &T, s: &mut ProtobufSerializer, field_number: u64)
    requires
        T::enc_ok(field@),
        field_number_ok(field_number as nat),
    ensures
        final(s)@ == old(s)@ + field_enc::<T>(field_number as nat, field@),
{
    proof {
        lemma_tag_fits(field_number as nat, T::wire());
    }
    let tag = field_number * 8 + T::wire_exec().bits() as u64;
    s.write_varint(tag);
    field.encode(s);
}

/// Emits one field with its tag bytes already computed.  The caller owes the
/// contract that the bytes are the varint encoding of a tag built for this
/// very wire type; a precomputed tag made for a different wire type violates
/// it.
pub fn encode_field_precomputed<T: Encodable>(field: &T, s: &mut ProtobufSerializer, tag: &[u8])
    requires
        T::enc_ok(field@),
        exists|f: nat|
            field_number_ok(f) && tag@ == varint_enc(#[trigger] tag_val(f, T::wire())),
    ensures
        final(s)@ == old(s)@ + tag@ + T::enc(field@),
{
    s.write_bytes(tag);
    field.encode(s);
}

/// A tag with a field number below `2^61` fits 64 bits.
pub proof fn lemma_tag_fits(field_number: nat, w: WireTypes)
    requires
        field_number_ok(field_number),
    ensures
        tag_val(field_number, w) == field_number * 8 + crate::wire_types::wire_bits(w),
        tag_val(field_number, w) <= u64::MAX,
        field_number * 8 + 7 <= u64::MAX,
{
    lemma2_to64();
    vstd::arithmetic::power2::lemma2_to64_rest();
    assert(pow2(61) == 0x2000000000000000);
    assert(field_number * 8 + 7 < 0x10000000000000000) by (nonlinear_arith)
        requires
            field_number < 0x2000000000000000,
    ;
}

/// A record that encodes as the concatenation of its field encodings.
pub trait EncodableMessage: View {
    /// The body of the record on the wire, with no outer frame.
    spec fn msg_enc(m: Self::V) -> Seq<u8>;

    /// When a record is small enough that its sizes fit the machine.
    spec fn msg_ok(m: Self::V) -> bool;

    /// Every impl keeps the body comfortably below the address-space bound.
    proof fn lemma_msg_ok(m: Self::V)
        requires
            Self::msg_ok(m),
        ensures
            Self::msg_enc(m).len() + 32 <= usize::MAX,
    ;

    /// The size of the encoded body in bytes.
    fn encoded_size(&self) -> (r: usize)
        requires
            Self::msg_ok(self@),
        ensures
            r == Self::msg_enc(self@).len(),
    ;

    /// Appends the encoded body.
    fn encode(&self, s: &mut ProtobufSerializer)
        requires
            Self::msg_ok(self@),
        ensures
            final(s)@ == old(s)@ + Self::msg_enc(self@),
    ;
}

/// The four bytes of `n` in little-endian order.
pub open spec fn u32_le(n: u32) -> Seq<u8> {
    seq![
        (n & 0xff) as u8,
        ((n >> 8) & 0xff) as u8,
        ((n >> 16) & 0xff) as u8,
        ((n >> 24) & 0xff) as u8,
    ]
}

/// The eight bytes of `n` in little-endian order.
pub open spec fn u64_le(n: u64) -> Seq<u8> {
    seq![
        (n & 0xff) as u8,
        ((n >> 8) & 0xff) as u8,
        ((n >> 16) & 0xff) as u8,
        ((n >> 24) & 0xff) as u8,
        ((n >> 32) & 0xff) as u8,
        ((n >> 40) & 0xff) as u8,
        ((n >> 48) & 0xff) as u8,
        ((n >> 56) & 0xff) as u8,
    ]
}

/// Number of bytes `n` takes as a varint, by the closed-form range cascade.
pub fn varint_size(n: u64) -> (r: usize)
    ensures
        r == varint_len(n as nat),
        1 <= r <= 10,
{
    proof {
        lemma2_to64();
        vstd::arithmetic::power2::lemma2_to64_rest();
        lemma_varint_len_lower(n as nat);
        if n < 0x8000_0000_0000_0000 {
        } else {
            lemma_pow2_strictly_increases(64, 70);
            lemma_varint_len_upper(n as nat, 10);
        }
    }
    if n < 0x80 {
        1
    } else if n < 0x4000 {
        proof { lemma_varint_len_upper(n as nat, 2); }
        2
    } else if n < 0x20_0000 {
        proof { lemma_varint_len_upper(n as nat, 3); }
        3
    } else if n < 0x1000_0000 {
        proof { lemma_varint_len_upper(n as nat, 4); }
        4
    } else if n < 0x8_0000_0000 {
        proof { lemma_varint_len_upper(n as nat, 5); }
        5
    } else if n < 0x400_0000_0000 {
        proof { lemma_varint_len_upper(n as nat, 6); }
        6
    } else if n < 0x2_0000_0000_0000 {
        proof { lemma_varint_len_upper(n as nat, 7); }
        7
    } else if n < 0x100_0000_0000_0000 {
        proof { lemma_varint_len_upper(n as nat, 8); }
        8
    } else if n < 0x8000_0000_0000_0000 {
        proof { lemma_varint_len_upper(n as nat, 9); }
        9
    } else {
        10
    }
}

/// An append-only writer over a byte sink.  Its view is the bytes written so
/// far.
pub struct ProtobufSerializer {
    buf: Vec<u8>,
}

impl View for ProtobufSerializer {
    type V = Seq<u8>;

    closed spec fn view(&self) -> Seq<u8> {
        self.buf@
    }
}

impl ProtobufSerializer {
    /// Wraps a sink; bytes already in `buf` stay in place.
    pub fn new(buf: Vec<u8>) -> (r: Self)
        ensures
            r@ == buf@,
    {
        Self { buf }
    }

    /// Hands the sink back to the caller.
    pub fn into_inner(self) -> (r: Vec<u8>)
        ensures
            r@ == self@,
    {
        self.buf
    }

    /// Appends the LEB128 encoding of `v`.
    pub fn write_varint(&mut self, v: u64)
        ensures
            final(self)@ == old(self)@ + varint_enc(v as nat),
    {
        let ghost start = self.buf@;
        let mut n = v;
        while n >= 0x80
            invariant
                start + varint_enc(v as nat) =~= self.buf@ + varint_enc(n as nat),
            decreases n,
        {
            self.buf.push(((n % 0x80) + 0x80) as u8);
            let ghost prev = n;
            n = n / 0x80;
            proof {
                assert(varint_enc(prev as nat) =~= seq![
                    ((prev % 0x80) + 0x80) as u8,
                ] + varint_enc(n as nat));
            }
        }
        self.buf.push(n as u8);
        proof {
            assert(varint_enc(n as nat) =~= seq![n as u8]);
            assert(self.buf@ =~= start + varint_enc(v as nat));
        }
    }

    /// Appends one raw byte.
    pub fn write_u8(&mut self, n: u8)
        ensures
            final(self)@ == old(self)@ + seq![n],
    {
        self.buf.push(n);
        proof {
            assert(self.buf@ =~= old(self).buf@ + seq![n]);
        }
    }

    /// Appends `n` as four little-endian bytes.
    pub fn write_u32(&mut self, n: u32)
        ensures
            final(self)@ == old(self)@ + u32_le(n),
    {
        self.buf.push((n & 0xff) as u8);
        self.buf.push(((n >> 8) & 0xff) as u8);
        self.buf.push(((n >> 16) & 0xff) as u8);
        self.buf.push(((n >> 24) & 0xff) as u8);
        proof {
            assert(self.buf@ =~= old(self).buf@ + u32_le(n));
        }
    }

    /// Appends `n` as eight little-endian bytes.
    pub fn write_u64(&mut self, n: u64)
        ensures
            final(self)@ == old(self)@ + u64_le(n),
    {
        self.buf.push((n & 0xff) as u8);
        self.buf.push(((n >> 8) & 0xff) as u8);
        self.buf.push(((n >> 16) & 0xff) as u8);
        self.buf.push(((n >> 24) & 0xff) as u8);
        self.buf.push(((n >> 32) & 0xff) as u8);
        self.buf.push(((n >> 40) & 0xff) as u8);
        self.buf.push(((n >> 48) & 0xff) as u8);
        self.buf.push(((n >> 56) & 0xff) as u8);
        proof {
            assert(self.buf@ =~= old(self).buf@ + u64_le(n));
        }
    }

    /// Appends raw bytes with no length prefix.
    pub fn write_bytes(&mut self, bytes: &[u8])
        ensures
            final(self)@ == old(self)@ + bytes@,
    {
        self.buf.extend_from_slice(bytes);
    }

    /// Emits one field through the serializer: tag, then payload.
    pub fn encode_field<F: Encodable>(&mut self, field_number: u64, field: &F)
        requires
            F::enc_ok(field@),
            field_number_ok(field_number as nat),
        ensures
            final(self)@ == old(self)@ + field_enc::<F>(field_number as nat, field@),
    {
        encode_field::<F>(field, self, field_number);
    }

    /// Appends a varint byte length followed by the raw UTF-8 bytes.
    pub fn write_str(&mut self, s: &str)
        ensures
            final(self)@ == old(self)@ + varint_enc(s.spec_bytes().len() as nat) + s.spec_bytes(),
    {
        let bytes = s.as_bytes();
        self.write_varint(bytes.len() as u64);
        self.write_bytes(bytes);
    }
}

} // verus!
