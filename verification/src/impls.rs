//! The built-in value shapes: varint integers, zig-zag signed values, fixed
//! words, bytes and strings, and nested messages.

use crate::decoding::{
    consumed, lossy, Decodable, DecodingError, Deserializer,
};
use crate::encoding::{Encodable, ProtobufSerializer};
use crate::varint::{
    lemma_vdec_bounds, lemma_varint_enc_len, lemma_varint_len_upper, varint_enc, varint_len, vdec,
    VarintRead,
};
use crate::wire_types::WireTypes;
use vstd::arithmetic::power2::{lemma2_to64, lemma2_to64_rest, lemma_pow2_strictly_increases, pow2};
use vstd::prelude::*;

verus! {

/// A varint payload stays below eleven bytes.
proof fn lemma_varint_payload_small(n: nat)
    requires
        n < pow2(64),
    ensures
        varint_enc(n).len() <= 10,
        varint_enc(n).len() + 16 <= usize::MAX,
{
    lemma2_to64();
    lemma2_to64_rest();
    lemma_pow2_strictly_increases(64, 70);
    lemma_varint_len_upper(n, 10);
    lemma_varint_enc_len(n);
}

impl Encodable for u64 {
    open spec fn wire() -> WireTypes {
        WireTypes::VarIntWire
    }

    open spec fn enc(m: u64) -> Seq<u8> {
        varint_enc(m as nat)
    }

    open spec fn enc_ok(m: u64) -> bool {
        true
    }

    proof fn lemma_enc_ok(m: u64) {
        lemma2_to64();
        lemma2_to64_rest();
        lemma_varint_payload_small(m as nat);
    }

    fn wire_exec() -> WireTypes {
        WireTypes::VarIntWire
    }

    fn payload_size(&self) -> usize {
        proof {
            lemma_varint_enc_len(*self as nat);
        }
        crate::encoding::varint_size(*self)
    }

    fn encode(&self, s: &mut ProtobufSerializer) {
        s.write_varint(*self)
    }
}

impl Decodable for u64 {
    open spec fn dec(s: Seq<u8>) -> Result<(u64, int), DecodingError> {
        match vdec(s, 64) {
            VarintRead::Value { n, len } => Ok((n as u64, len as int)),
            VarintRead::Error { err, .. } => Err(err),
        }
    }

    open spec fn merge_spec(m: u64, other: u64) -> u64 {
        other
    }

    proof fn lemma_dec_len(s: Seq<u8>) {
        lemma_vdec_bounds(s, 64);
    }


    fn decode(d: &mut Deserializer) -> Result<Self, DecodingError> {
        proof {
            lemma_vdec_bounds(old(d).window(), 64);
        }
        d.read_varint()
    }

    fn merge(&mut self, other: Self) {
        *self = other;
    }

    fn merge_from(&mut self, d: &mut Deserializer) -> Result<(), DecodingError> {
        match <u64 as Decodable>::decode(d) {
            Ok(v) => {
                *self = v;
                Ok(())
            },
            Err(e) => Err(e),
        }
    }
}

impl Encodable for u32 {
    open spec fn wire() -> WireTypes {
        WireTypes::VarIntWire
    }

    open spec fn enc(m: u32) -> Seq<u8> {
        varint_enc(m as nat)
    }

    open spec fn enc_ok(m: u32) -> bool {
        true
    }

    proof fn lemma_enc_ok(m: u32) {
        lemma2_to64();
        lemma2_to64_rest();
        lemma_pow2_strictly_increases(32, 64);
        lemma_varint_payload_small(m as nat);
    }

    fn wire_exec() -> WireTypes {
        WireTypes::VarIntWire
    }

    fn payload_size(&self) -> usize {
        proof {
            lemma_varint_enc_len(*self as nat);
        }
        crate::encoding::varint_size(*self as u64)
    }

    fn encode(&self, s: &mut ProtobufSerializer) {
        s.write_varint(*self as u64)
    }
}

impl Decodable for u32 {
    open spec fn dec(s: Seq<u8>) -> Result<(u32, int), DecodingError> {
        match vdec(s, 32) {
            VarintRead::Value { n, len } => Ok((n as u32, len as int)),
            VarintRead::Error { err, .. } => Err(err),
        }
    }

    open spec fn merge_spec(m: u32, other: u32) -> u32 {
        other
    }

    proof fn lemma_dec_len(s: Seq<u8>) {
        lemma_vdec_bounds(s, 32);
    }


    fn decode(d: &mut Deserializer) -> Result<Self, DecodingError> {
        proof {
            lemma_vdec_bounds(old(d).window(), 32);
            lemma2_to64();
            lemma2_to64_rest();
        }
        match d.varint_core(32).0 {
            Ok(v) => Ok(v as u32),
            Err(e) => Err(e),
        }
    }

    fn merge(&mut self, other: Self) {
        *self = other;
    }

    fn merge_from(&mut self, d: &mut Deserializer) -> Result<(), DecodingError> {
        match <u32 as Decodable>::decode(d) {
            Ok(v) => {
                *self = v;
                Ok(())
            },
            Err(e) => Err(e),
        }
    }
}

impl Encodable for i64 {
    open spec fn wire() -> WireTypes {
        WireTypes::VarIntWire
    }

    open spec fn enc(m: i64) -> Seq<u8> {
        varint_enc((m as u64) as nat)
    }

    open spec fn enc_ok(m: i64) -> bool {
        true
    }

    proof fn lemma_enc_ok(m: i64) {
        lemma2_to64();
        lemma2_to64_rest();
        lemma_varint_payload_small((m as u64) as nat);
    }

    fn wire_exec() -> WireTypes {
        WireTypes::VarIntWire
    }

    fn payload_size(&self) -> usize {
        proof {
            lemma_varint_enc_len((*self as u64) as nat);
        }
        crate::encoding::varint_size(*self as u64)
    }

    fn encode(&self, s: &mut ProtobufSerializer) {
        s.write_varint(*self as u64)
    }
}

impl Decodable for i64 {
    open spec fn dec(s: Seq<u8>) -> Result<(i64, int), DecodingError> {
        match vdec(s, 64) {
            VarintRead::Value { n, len } => Ok(((n as u64) as i64, len as int)),
            VarintRead::Error { err, .. } => Err(err),
        }
    }

    open spec fn merge_spec(m: i64, other: i64) -> i64 {
        other
    }

    proof fn lemma_dec_len(s: Seq<u8>) {
        lemma_vdec_bounds(s, 64);
    }


    fn decode(d: &mut Deserializer) -> Result<Self, DecodingError> {
        proof {
            lemma_vdec_bounds(old(d).window(), 64);
        }
        match d.read_varint() {
            Ok(v) => Ok(
                #[verifier::truncate]
                (v as i64),
            ),
            Err(e) => Err(e),
        }
    }

    fn merge(&mut self, other: Self) {
        *self = other;
    }

    fn merge_from(&mut self, d: &mut Deserializer) -> Result<(), DecodingError> {
        match <i64 as Decodable>::decode(d) {
            Ok(v) => {
                *self = v;
                Ok(())
            },
            Err(e) => Err(e),
        }
    }
}

impl Encodable for i32 {
    open spec fn wire() -> WireTypes {
        WireTypes::VarIntWire
    }

    open spec fn enc(m: i32) -> Seq<u8> {
        varint_enc((m as u32) as nat)
    }

    open spec fn enc_ok(m: i32) -> bool {
        true
    }

    proof fn lemma_enc_ok(m: i32) {
        lemma2_to64();
        lemma2_to64_rest();
        lemma_pow2_strictly_increases(32, 64);
        lemma_varint_payload_small((m as u32) as nat);
    }

    fn wire_exec() -> WireTypes {
        WireTypes::VarIntWire
    }

    fn payload_size(&self) -> usize {
        proof {
            lemma_varint_enc_len((*self as u32) as nat);
        }
        crate::encoding::varint_size((*self as u32) as u64)
    }

    fn encode(&self, s: &mut ProtobufSerializer) {
        s.write_varint((*self as u32) as u64)
    }
}

impl Decodable for i32 {
    open spec fn dec(s: Seq<u8>) -> Result<(i32, int), DecodingError> {
        match vdec(s, 32) {
            VarintRead::Value { n, len } => Ok((((n as u32) as i32), len as int)),
            VarintRead::Error { err, .. } => Err(err),
        }
    }

    open spec fn merge_spec(m: i32, other: i32) -> i32 {
        other
    }

    proof fn lemma_dec_len(s: Seq<u8>) {
        lemma_vdec_bounds(s, 32);
    }


    fn decode(d: &mut Deserializer) -> Result<Self, DecodingError> {
        proof {
            lemma_vdec_bounds(old(d).window(), 32);
            lemma2_to64();
            lemma2_to64_rest();
        }
        match d.varint_core(32).0 {
            Ok(v) => Ok(
                #[verifier::truncate]
                ((v as u32) as i32),
            ),
            Err(e) => Err(e),
        }
    }

    fn merge(&mut self, other: Self) {
        *self = other;
    }

    fn merge_from(&mut self, d: &mut Deserializer) -> Result<(), DecodingError> {
        match <i32 as Decodable>::decode(d) {
            Ok(v) => {
                *self = v;
                Ok(())
            },
            Err(e) => Err(e),
        }
    }
}

impl Encodable for bool {
    open spec fn wire() -> WireTypes {
        WireTypes::VarIntWire
    }

    open spec fn enc(m: bool) -> Seq<u8> {
        if m {
            seq![1u8]
        } else {
            seq![0u8]
        }
    }

    open spec fn enc_ok(m: bool) -> bool {
        true
    }

    proof fn lemma_enc_ok(m: bool) {
    }

    fn wire_exec() -> WireTypes {
        WireTypes::VarIntWire
    }

    fn payload_size(&self) -> usize {
        1
    }

    fn encode(&self, s: &mut ProtobufSerializer) {
        s.write_u8(if *self {
            1
        } else {
            0
        });
    }
}

impl Decodable for bool {
    open spec fn dec(s: Seq<u8>) -> Result<(bool, int), DecodingError> {
        if s.len() == 0 {
            Err(DecodingError::Eof)
        } else if s[0] == 0 {
            Ok((false, 1))
        } else if s[0] == 1 {
            Ok((true, 1))
        } else {
            Err(DecodingError::VarIntOverflow)
        }
    }

    open spec fn merge_spec(m: bool, other: bool) -> bool {
        other
    }

    proof fn lemma_dec_len(s: Seq<u8>) {
    }

    /// Also pins the failure states the shared contract leaves loose: an
    /// empty window fails untouched, and any other byte is rejected with
    /// exactly that one byte consumed.
    fn decode(d: &mut Deserializer) -> (r: Result<Self, DecodingError>)
        ensures
            r is Err && old(d).window().len() == 0 ==> *final(d) == *old(d),
            r is Err && old(d).window().len() > 0 ==> consumed(*old(d), *final(d), 1),
    {
        if !d.has_remaining() {
            proof {
                crate::decoding::lemma_consumed_zero(*old(d), *d);
            }
            return Err(DecodingError::Eof);
        }
        let byte = d.get_u8();
        if byte == 0 {
            Ok(false)
        } else if byte == 1 {
            Ok(true)
        } else {
            proof {
                assert(consumed(*old(d), *d, 1));
            }
            Err(DecodingError::VarIntOverflow)
        }
    }

    fn merge(&mut self, other: Self) {
        *self = other;
    }

    fn merge_from(&mut self, d: &mut Deserializer) -> Result<(), DecodingError> {
        match <bool as Decodable>::decode(d) {
            Ok(v) => {
                *self = v;
                Ok(())
            },
            Err(e) => Err(e),
        }
    }
}


impl Encodable for u16 {
    open spec fn wire() -> WireTypes {
        WireTypes::VarIntWire
    }

    open spec fn enc(m: u16) -> Seq<u8> {
        varint_enc(m as nat)
    }

    open spec fn enc_ok(m: u16) -> bool {
        true
    }

    proof fn lemma_enc_ok(m: u16) {
        lemma2_to64();
        lemma2_to64_rest();
        lemma_pow2_strictly_increases(16, 64);
        lemma_varint_payload_small(m as nat);
    }

    fn wire_exec() -> WireTypes {
        WireTypes::VarIntWire
    }

    fn payload_size(&self) -> usize {
        proof {
            lemma_varint_enc_len(*self as nat);
        }
        crate::encoding::varint_size(*self as u64)
    }

    fn encode(&self, s: &mut ProtobufSerializer) {
        s.write_varint(*self as u64)
    }
}

impl Decodable for u16 {
    open spec fn dec(s: Seq<u8>) -> Result<(u16, int), DecodingError> {
        match vdec(s, 16) {
            VarintRead::Value { n, len } => Ok((n as u16, len as int)),
            VarintRead::Error { err, .. } => Err(err),
        }
    }

    open spec fn merge_spec(m: u16, other: u16) -> u16 {
        other
    }

    proof fn lemma_dec_len(s: Seq<u8>) {
        lemma_vdec_bounds(s, 16);
    }

    fn decode(d: &mut Deserializer) -> Result<Self, DecodingError> {
        proof {
            lemma_vdec_bounds(old(d).window(), 16);
            lemma2_to64();
            lemma2_to64_rest();
        }
        match d.varint_core(16).0 {
            Ok(v) => Ok(v as u16),
            Err(e) => Err(e),
        }
    }

    fn merge(&mut self, other: Self) {
        *self = other;
    }

    fn merge_from(&mut self, d: &mut Deserializer) -> Result<(), DecodingError> {
        match <u16 as Decodable>::decode(d) {
            Ok(v) => {
                *self = v;
                Ok(())
            },
            Err(e) => Err(e),
        }
    }
}

impl Encodable for usize {
    open spec fn wire() -> WireTypes {
        WireTypes::VarIntWire
    }

    open spec fn enc(m: usize) -> Seq<u8> {
        varint_enc(m as nat)
    }

    open spec fn enc_ok(m: usize) -> bool {
        true
    }

    proof fn lemma_enc_ok(m: usize) {
        lemma2_to64();
        lemma2_to64_rest();
        lemma_varint_payload_small(m as nat);
    }

    fn wire_exec() -> WireTypes {
        WireTypes::VarIntWire
    }

    fn payload_size(&self) -> usize {
        proof {
            lemma_varint_enc_len(*self as nat);
        }
        crate::encoding::varint_size(*self as u64)
    }

    fn encode(&self, s: &mut ProtobufSerializer) {
        s.write_varint(*self as u64)
    }
}

impl Decodable for usize {
    open spec fn dec(s: Seq<u8>) -> Result<(usize, int), DecodingError> {
        match vdec(s, 64) {
            VarintRead::Value { n, len } => if n <= usize::MAX {
                Ok((n as usize, len as int))
            } else {
                Err(DecodingError::VarIntOverflow)
            },
            VarintRead::Error { err, .. } => Err(err),
        }
    }

    open spec fn merge_spec(m: usize, other: usize) -> usize {
        other
    }

    proof fn lemma_dec_len(s: Seq<u8>) {
        lemma_vdec_bounds(s, 64);
    }

    fn decode(d: &mut Deserializer) -> Result<Self, DecodingError> {
        proof {
            lemma_vdec_bounds(old(d).window(), 64);
        }
        match d.read_len() {
            Ok(v) => Ok(v),
            Err(e) => {
                proof {
                    crate::decoding::lemma_window_within(*old(d));
                }
                Err(e)
            },
        }
    }

    fn merge(&mut self, other: Self) {
        *self = other;
    }

    fn merge_from(&mut self, d: &mut Deserializer) -> Result<(), DecodingError> {
        match <usize as Decodable>::decode(d) {
            Ok(v) => {
                *self = v;
                Ok(())
            },
            Err(e) => Err(e),
        }
    }
}

/// What a length-delimited payload of raw bytes looks like: the byte count
/// as a varint, then the bytes.
pub open spec fn len_delimited(payload: Seq<u8>) -> Seq<u8> {
    varint_enc(payload.len() as nat) + payload
}

/// Reads one length-delimited payload off the head of `s`: the raw bytes
/// and the total consumed.
pub open spec fn dec_len_delimited(s: Seq<u8>) -> Result<(Seq<u8>, int), DecodingError> {
    match vdec(s, 64) {
        VarintRead::Value { n, len } => if n > usize::MAX {
            Err(DecodingError::VarIntOverflow)
        } else if n + len <= s.len() {
            Ok((s.subrange(len as int, len as int + n), len as int + n))
        } else {
            Err(DecodingError::Eof)
        },
        VarintRead::Error { err, .. } => Err(err),
    }
}

/// Reading back a length-delimited payload yields exactly the payload, for
/// any payload that fits a `usize` and any trailing bytes.
pub proof fn lemma_dec_len_delimited(payload: Seq<u8>, rest: Seq<u8>)
    requires
        payload.len() <= usize::MAX,
    ensures
        dec_len_delimited(len_delimited(payload) + rest) == Ok::<(Seq<u8>, int), DecodingError>(
            (payload, varint_len(payload.len() as nat) + payload.len() as int),
        ),
{
    lemma2_to64();
    lemma2_to64_rest();
    let n = payload.len() as nat;
    let s = len_delimited(payload) + rest;
    assert(s =~= varint_enc(n) + (payload + rest));
    crate::varint::lemma_vdec_enc(n, 64, payload + rest);
    lemma_varint_enc_len(n);
    let l = varint_len(n) as int;
    assert(s.subrange(l, l + payload.len()) =~= payload);
}

/// Reads one length-delimited payload: the length prefix, then the bytes.
fn read_len_delimited(d: &mut Deserializer) -> (r: Result<Vec<u8>, DecodingError>)
    requires
        old(d).wf(),
    ensures
        final(d).wf(),
        match dec_len_delimited(old(d).window()) {
            Ok((p, k)) => (r matches Ok(v) && v@ == p) && consumed(*old(d), *final(d), k),
            Err(e) => r == Err::<Vec<u8>, DecodingError>(e) && lossy(*old(d), *final(d)),
        },
{
    let ghost w0 = old(d).window();
    proof {
        lemma_vdec_bounds(w0, 64);
        crate::decoding::lemma_window_within(*old(d));
    }
    let len = match d.read_len() {
        Ok(len) => len,
        Err(e) => {
            return Err(e);
        },
    };
    let ghost mid = *d;
    let ghost l = (match vdec(w0, 64) {
        VarintRead::Value { len, .. } => len,
        VarintRead::Error { .. } => 0,
    }) as int;
    proof {
        assert(mid.window() =~= w0.skip(l));
    }
    match d.read_bytes(len) {
        Ok(v) => {
            proof {
                crate::decoding::lemma_window_len(mid);
                assert(len <= mid.window().len());
                assert(v@ =~= w0.subrange(l, l + len));
                crate::decoding::lemma_consumed_trans(*old(d), mid, *d, l, len as int);
            }
            Ok(v)
        },
        Err(e) => {
            proof {
                // The limit gate and the source length gate both mean the
                // window is short of `len` bytes.
                crate::decoding::lemma_window_len(mid);
                assert(len > mid.window().len());
                assert(e == DecodingError::Eof);
                assert(crate::decoding::lossy(mid, *d)) by {
                    crate::decoding::lemma_consumed_zero(mid, *d);
                }
                crate::decoding::lemma_lossy_chain(*old(d), mid, *d, l);
            }
            Err(e)
        },
    }
}

impl Encodable for Vec<u8> {
    open spec fn wire() -> WireTypes {
        WireTypes::LengthDelimitedWire
    }

    open spec fn enc(m: Seq<u8>) -> Seq<u8> {
        len_delimited(m)
    }

    open spec fn enc_ok(m: Seq<u8>) -> bool {
        m.len() + 64 <= usize::MAX
    }

    proof fn lemma_enc_ok(m: Seq<u8>) {
        lemma2_to64();
        lemma2_to64_rest();
        lemma_pow2_strictly_increases(62, 64);
        lemma_varint_payload_small2(m.len() as nat);
    }

    fn wire_exec() -> WireTypes {
        WireTypes::LengthDelimitedWire
    }

    fn payload_size(&self) -> usize {
        proof {
            <Vec<u8> as Encodable>::lemma_enc_ok(self@);
            lemma_varint_enc_len(self@.len() as nat);
        }
        crate::encoding::varint_size(self.len() as u64) + self.len()
    }

    fn encode(&self, s: &mut ProtobufSerializer) {
        s.write_varint(self.len() as u64);
        s.write_bytes(self.as_slice());
    }
}

/// The length prefix of any address-space-sized payload is small.
proof fn lemma_varint_payload_small2(n: nat)
    requires
        n <= usize::MAX,
    ensures
        varint_enc(n).len() <= 10,
{
    lemma2_to64();
    lemma2_to64_rest();
    lemma_pow2_strictly_increases(64, 70);
    lemma_varint_len_upper(n, 10);
    lemma_varint_enc_len(n);
}

impl Decodable for Vec<u8> {
    open spec fn dec(s: Seq<u8>) -> Result<(Seq<u8>, int), DecodingError> {
        dec_len_delimited(s)
    }

    open spec fn merge_spec(m: Seq<u8>, other: Seq<u8>) -> Seq<u8> {
        other
    }

    proof fn lemma_dec_len(s: Seq<u8>) {
        lemma_vdec_bounds(s, 64);
    }


    fn decode(d: &mut Deserializer) -> Result<Self, DecodingError> {
        read_len_delimited(d)
    }

    fn merge(&mut self, other: Self) {
        *self = other;
    }

    fn merge_from(&mut self, d: &mut Deserializer) -> Result<(), DecodingError> {
        match <Vec<u8> as Decodable>::decode(d) {
            Ok(v) => {
                *self = v;
                Ok(())
            },
            Err(e) => Err(e),
        }
    }
}

/// Relies on `String::from_utf8`: it succeeds exactly on valid UTF-8, and
/// the string it returns is backed by the very bytes handed in, so encoding
/// the result's characters yields those bytes again.
#[verifier::external_body]
fn string_from_utf8(v: Vec<u8>) -> (r: Option<String>)
    ensures
        match r {
            Some(s) => vstd::utf8::valid_utf8(v@) && vstd::utf8::encode_utf8(s@) == v@,
            None => !vstd::utf8::valid_utf8(v@),
        },
{
    String::from_utf8(v).ok()
}

impl Encodable for String {
    open spec fn wire() -> WireTypes {
        WireTypes::LengthDelimitedWire
    }

    open spec fn enc(m: Seq<char>) -> Seq<u8> {
        len_delimited(vstd::utf8::encode_utf8(m))
    }

    open spec fn enc_ok(m: Seq<char>) -> bool {
        vstd::utf8::encode_utf8(m).len() + 64 <= usize::MAX
    }

    proof fn lemma_enc_ok(m: Seq<char>) {
        lemma2_to64();
        lemma2_to64_rest();
        lemma_varint_payload_small2(vstd::utf8::encode_utf8(m).len() as nat);
    }

    fn wire_exec() -> WireTypes {
        WireTypes::LengthDelimitedWire
    }

    fn payload_size(&self) -> usize {
        proof {
            <String as Encodable>::lemma_enc_ok(self@);
            lemma_varint_enc_len(vstd::utf8::encode_utf8(self@).len() as nat);
        }
        let slice = self.as_str();
        crate::encoding::varint_size(slice.len() as u64) + slice.len()
    }

    fn encode(&self, s: &mut ProtobufSerializer) {
        s.write_str(self.as_str());
    }
}

impl Decodable for String {
    open spec fn dec(s: Seq<u8>) -> Result<(Seq<char>, int), DecodingError> {
        match dec_len_delimited(s) {
            Ok((p, k)) => if vstd::utf8::valid_utf8(p) {
                Ok((vstd::utf8::decode_utf8(p), k))
            } else {
                Err(DecodingError::Utf8Error)
            },
            Err(e) => Err(e),
        }
    }

    open spec fn merge_spec(m: Seq<char>, other: Seq<char>) -> Seq<char> {
        other
    }

    proof fn lemma_dec_len(s: Seq<u8>) {
        lemma_vdec_bounds(s, 64);
    }


    fn decode(d: &mut Deserializer) -> Result<Self, DecodingError> {
        let ghost w0 = old(d).window();
        let bytes = match read_len_delimited(d) {
            Ok(v) => v,
            Err(e) => {
                return Err(e);
            },
        };
        match string_from_utf8(bytes) {
            Some(text) => {
                proof {
                    vstd::utf8::encode_utf8_decode_utf8(text@);
                }
                Ok(text)
            },
            None => {
                proof {
                    match dec_len_delimited(w0) {
                        Ok((p, k)) => {
                            assert(0 <= k <= w0.len() && consumed(*old(d), *d, k)) by {
                                lemma_vdec_bounds(w0, 64);
                            };
                        },
                        Err(_) => {},
                    }
                }
                Err(DecodingError::Utf8Error)
            },
        }
    }

    fn merge(&mut self, other: Self) {
        *self = other;
    }

    fn merge_from(&mut self, d: &mut Deserializer) -> Result<(), DecodingError> {
        match <String as Decodable>::decode(d) {
            Ok(v) => {
                *self = v;
                Ok(())
            },
            Err(e) => Err(e),
        }
    }
}

/// The value stored in four little-endian bytes at the head of `s`.
pub open spec fn u32_from_le(s: Seq<u8>) -> u32
    recommends
        s.len() >= 4,
{
    (s[0] as u32) | (s[1] as u32) << 8 | (s[2] as u32) << 16 | (s[3] as u32) << 24
}

/// The value stored in eight little-endian bytes at the head of `s`.
pub open spec fn u64_from_le(s: Seq<u8>) -> u64
    recommends
        s.len() >= 8,
{
    (s[0] as u64) | (s[1] as u64) << 8 | (s[2] as u64) << 16 | (s[3] as u64) << 24 | (
    s[4] as u64) << 32 | (s[5] as u64) << 40 | (s[6] as u64) << 48 | (s[7] as u64) << 56
}

/// Little-endian round trip for 32-bit words.
pub proof fn lemma_u32_le_roundtrip(n: u32, rest: Seq<u8>)
    ensures
        u32_from_le(crate::encoding::u32_le(n) + rest) == n,
{
    let s = crate::encoding::u32_le(n) + rest;
    assert(s[0] == (n & 0xff) as u8 && s[1] == ((n >> 8) & 0xff) as u8 && s[2] == ((n >> 16)
        & 0xff) as u8 && s[3] == ((n >> 24) & 0xff) as u8);
    assert((((n & 0xff) as u8) as u32) | ((((n >> 8) & 0xff) as u8) as u32) << 8 | ((((n >> 16)
        & 0xff) as u8) as u32) << 16 | ((((n >> 24) & 0xff) as u8) as u32) << 24 == n)
        by (bit_vector);
}

/// Little-endian round trip for 64-bit words.
pub proof fn lemma_u64_le_roundtrip(n: u64, rest: Seq<u8>)
    ensures
        u64_from_le(crate::encoding::u64_le(n) + rest) == n,
{
    let s = crate::encoding::u64_le(n) + rest;
    assert(s[0] == (n & 0xff) as u8 && s[1] == ((n >> 8) & 0xff) as u8 && s[2] == ((n >> 16)
        & 0xff) as u8 && s[3] == ((n >> 24) & 0xff) as u8 && s[4] == ((n >> 32) & 0xff) as u8 && s[5]
        == ((n >> 40) & 0xff) as u8 && s[6] == ((n >> 48) & 0xff) as u8 && s[7] == ((n >> 56)
        & 0xff) as u8);
    assert((((n & 0xff) as u8) as u64) | ((((n >> 8) & 0xff) as u8) as u64) << 8 | ((((n >> 16)
        & 0xff) as u8) as u64) << 16 | ((((n >> 24) & 0xff) as u8) as u64) << 24 | ((((n >> 32)
        & 0xff) as u8) as u64) << 32 | ((((n >> 40) & 0xff) as u8) as u64) << 40 | ((((n >> 48)
        & 0xff) as u8) as u64) << 48 | ((((n >> 56) & 0xff) as u8) as u64) << 56 == n)
        by (bit_vector);
}

impl Encodable for crate::Fixed32 {
    open spec fn wire() -> WireTypes {
        WireTypes::Fixed32Wire
    }

    open spec fn enc(m: u32) -> Seq<u8> {
        crate::encoding::u32_le(m)
    }

    open spec fn enc_ok(m: u32) -> bool {
        true
    }

    proof fn lemma_enc_ok(m: u32) {
    }

    fn wire_exec() -> WireTypes {
        WireTypes::Fixed32Wire
    }

    fn payload_size(&self) -> usize {
        4
    }

    fn encode(&self, s: &mut ProtobufSerializer) {
        s.write_u32(self.0);
    }
}

impl Decodable for crate::Fixed32 {
    open spec fn dec(s: Seq<u8>) -> Result<(u32, int), DecodingError> {
        if s.len() >= 4 {
            Ok((u32_from_le(s), 4))
        } else {
            Err(DecodingError::Eof)
        }
    }

    open spec fn merge_spec(m: u32, other: u32) -> u32 {
        other
    }

    proof fn lemma_dec_len(s: Seq<u8>) {
    }

    fn decode(d: &mut Deserializer) -> Result<Self, DecodingError> {
        let ghost w0 = old(d).window();
        match d.read_bytes(4) {
            Ok(v) => {
                let word = (v[0] as u32) | (v[1] as u32) << 8 | (v[2] as u32) << 16 | (
                v[3] as u32) << 24;
                proof {
                    assert(v@ == w0.take(4));
                    assert(v@[0] == w0[0] && v@[1] == w0[1] && v@[2] == w0[2] && v@[3] == w0[3]);
                }
                Ok(crate::Fixed32(word))
            },
            Err(e) => {
                proof {
                    crate::decoding::lemma_consumed_zero(*old(d), *d);
                }
                Err(e)
            },
        }
    }

    fn merge(&mut self, other: Self) {
        *self = other;
    }

    fn merge_from(&mut self, d: &mut Deserializer) -> Result<(), DecodingError> {
        match <crate::Fixed32 as Decodable>::decode(d) {
            Ok(v) => {
                *self = v;
                Ok(())
            },
            Err(e) => Err(e),
        }
    }
}

impl Encodable for crate::Fixed64 {
    open spec fn wire() -> WireTypes {
        WireTypes::Fixed64Wire
    }

    open spec fn enc(m: u64) -> Seq<u8> {
        crate::encoding::u64_le(m)
    }

    open spec fn enc_ok(m: u64) -> bool {
        true
    }

    proof fn lemma_enc_ok(m: u64) {
    }

    fn wire_exec() -> WireTypes {
        WireTypes::Fixed64Wire
    }

    fn payload_size(&self) -> usize {
        8
    }

    fn encode(&self, s: &mut ProtobufSerializer) {
        s.write_u64(self.0);
    }
}

impl Decodable for crate::Fixed64 {
    open spec fn dec(s: Seq<u8>) -> Result<(u64, int), DecodingError> {
        if s.len() >= 8 {
            Ok((u64_from_le(s), 8))
        } else {
            Err(DecodingError::Eof)
        }
    }

    open spec fn merge_spec(m: u64, other: u64) -> u64 {
        other
    }

    proof fn lemma_dec_len(s: Seq<u8>) {
    }

    fn decode(d: &mut Deserializer) -> Result<Self, DecodingError> {
        let ghost w0 = old(d).window();
        match d.read_bytes(8) {
            Ok(v) => {
                let word = (v[0] as u64) | (v[1] as u64) << 8 | (v[2] as u64) << 16 | (
                v[3] as u64) << 24 | (v[4] as u64) << 32 | (v[5] as u64) << 40 | (v[6] as u64) << 48
                    | (v[7] as u64) << 56;
                proof {
                    assert(v@ == w0.take(8));
                    assert(v@[0] == w0[0] && v@[1] == w0[1] && v@[2] == w0[2] && v@[3] == w0[3]
                        && v@[4] == w0[4] && v@[5] == w0[5] && v@[6] == w0[6] && v@[7] == w0[7]);
                }
                Ok(crate::Fixed64(word))
            },
            Err(e) => {
                proof {
                    crate::decoding::lemma_consumed_zero(*old(d), *d);
                }
                Err(e)
            },
        }
    }

    fn merge(&mut self, other: Self) {
        *self = other;
    }

    fn merge_from(&mut self, d: &mut Deserializer) -> Result<(), DecodingError> {
        match <crate::Fixed64 as Decodable>::decode(d) {
            Ok(v) => {
                *self = v;
                Ok(())
            },
            Err(e) => Err(e),
        }
    }
}

impl Encodable for crate::Signed<i32> {
    open spec fn wire() -> WireTypes {
        WireTypes::VarIntWire
    }

    open spec fn enc(m: u32) -> Seq<u8> {
        varint_enc(m as nat)
    }

    open spec fn enc_ok(m: u32) -> bool {
        true
    }

    proof fn lemma_enc_ok(m: u32) {
        lemma2_to64();
        lemma2_to64_rest();
        lemma_pow2_strictly_increases(32, 64);
        lemma_varint_payload_small(m as nat);
    }

    fn wire_exec() -> WireTypes {
        WireTypes::VarIntWire
    }

    fn payload_size(&self) -> usize {
        proof {
            lemma_varint_enc_len(self.stored as nat);
        }
        crate::encoding::varint_size(self.stored as u64)
    }

    fn encode(&self, s: &mut ProtobufSerializer) {
        s.write_varint(self.stored as u64)
    }
}

impl Decodable for crate::Signed<i32> {
    open spec fn dec(s: Seq<u8>) -> Result<(u32, int), DecodingError> {
        match vdec(s, 32) {
            VarintRead::Value { n, len } => Ok((n as u32, len as int)),
            VarintRead::Error { err, .. } => Err(err),
        }
    }

    open spec fn merge_spec(m: u32, other: u32) -> u32 {
        other
    }

    proof fn lemma_dec_len(s: Seq<u8>) {
        lemma_vdec_bounds(s, 32);
    }

    fn decode(d: &mut Deserializer) -> Result<Self, DecodingError> {
        proof {
            lemma_vdec_bounds(old(d).window(), 32);
            lemma2_to64();
            lemma2_to64_rest();
        }
        match d.varint_core(32).0 {
            Ok(v) => Ok(crate::Signed { stored: v as u32 }),
            Err(e) => Err(e),
        }
    }

    fn merge(&mut self, other: Self) {
        *self = other;
    }

    fn merge_from(&mut self, d: &mut Deserializer) -> Result<(), DecodingError> {
        match <crate::Signed<i32> as Decodable>::decode(d) {
            Ok(v) => {
                *self = v;
                Ok(())
            },
            Err(e) => Err(e),
        }
    }
}

impl Encodable for crate::Signed<i64> {
    open spec fn wire() -> WireTypes {
        WireTypes::VarIntWire
    }

    open spec fn enc(m: u64) -> Seq<u8> {
        varint_enc(m as nat)
    }

    open spec fn enc_ok(m: u64) -> bool {
        true
    }

    proof fn lemma_enc_ok(m: u64) {
        lemma2_to64();
        lemma2_to64_rest();
        lemma_varint_payload_small(m as nat);
    }

    fn wire_exec() -> WireTypes {
        WireTypes::VarIntWire
    }

    fn payload_size(&self) -> usize {
        proof {
            lemma_varint_enc_len(self.stored as nat);
        }
        crate::encoding::varint_size(self.stored)
    }

    fn encode(&self, s: &mut ProtobufSerializer) {
        s.write_varint(self.stored)
    }
}

impl Decodable for crate::Signed<i64> {
    open spec fn dec(s: Seq<u8>) -> Result<(u64, int), DecodingError> {
        match vdec(s, 64) {
            VarintRead::Value { n, len } => Ok((n as u64, len as int)),
            VarintRead::Error { err, .. } => Err(err),
        }
    }

    open spec fn merge_spec(m: u64, other: u64) -> u64 {
        other
    }

    proof fn lemma_dec_len(s: Seq<u8>) {
        lemma_vdec_bounds(s, 64);
    }

    fn decode(d: &mut Deserializer) -> Result<Self, DecodingError> {
        proof {
            lemma_vdec_bounds(old(d).window(), 64);
        }
        match d.read_varint() {
            Ok(v) => Ok(crate::Signed { stored: v }),
            Err(e) => Err(e),
        }
    }

    fn merge(&mut self, other: Self) {
        *self = other;
    }

    fn merge_from(&mut self, d: &mut Deserializer) -> Result<(), DecodingError> {
        match <crate::Signed<i64> as Decodable>::decode(d) {
            Ok(v) => {
                *self = v;
                Ok(())
            },
            Err(e) => Err(e),
        }
    }
}

impl<T: crate::encoding::EncodableMessage> Encodable for crate::Message<T> {
    open spec fn wire() -> WireTypes {
        WireTypes::LengthDelimitedWire
    }

    open spec fn enc(m: T::V) -> Seq<u8> {
        len_delimited(T::msg_enc(m))
    }

    open spec fn enc_ok(m: T::V) -> bool {
        T::msg_ok(m)
    }

    proof fn lemma_enc_ok(m: T::V) {
        T::lemma_msg_ok(m);
        lemma_varint_payload_small2(T::msg_enc(m).len() as nat);
    }

    fn wire_exec() -> WireTypes {
        WireTypes::LengthDelimitedWire
    }

    fn payload_size(&self) -> usize {
        proof {
            T::lemma_msg_ok(self.0@);
            lemma_varint_payload_small2(T::msg_enc(self.0@).len() as nat);
            lemma_varint_enc_len(T::msg_enc(self.0@).len() as nat);
        }
        let body = self.0.encoded_size();
        crate::encoding::varint_size(body as u64) + body
    }

    fn encode(&self, s: &mut ProtobufSerializer) {
        let body = self.0.encoded_size();
        s.write_varint(body as u64);
        self.0.encode(s);
    }
}

/// What decoding one length-framed sub-message does: read the declared
/// length, decode the record inside a frame of that many bytes, capped by
/// what the surrounding frame still offers.
pub open spec fn dec_message<T: crate::decoding::DecodableMessage>(s: Seq<u8>) -> Result<
    (T::V, int),
    DecodingError,
> {
    match vdec(s, 64) {
        VarintRead::Value { n, len } => if n > usize::MAX {
            Err(DecodingError::VarIntOverflow)
        } else {
            let frame = if n + len <= s.len() {
                s.subrange(len as int, len as int + n)
            } else {
                s.skip(len as int)
            };
            match crate::decoding::msg_dec::<T>(T::fresh(), frame) {
                Ok(m) => Ok((m, len + frame.len() as int)),
                Err(e) => Err(e),
            }
        },
        VarintRead::Error { err, .. } => Err(err),
    }
}

impl<T: crate::decoding::DecodableMessage> Decodable for crate::Message<T> {
    open spec fn dec(s: Seq<u8>) -> Result<(T::V, int), DecodingError> {
        dec_message::<T>(s)
    }

    open spec fn merge_spec(m: T::V, other: T::V) -> T::V {
        other
    }

    proof fn lemma_dec_len(s: Seq<u8>) {
        lemma_vdec_bounds(s, 64);
    }

    fn decode(d: &mut Deserializer) -> Result<Self, DecodingError> {
        let ghost w0 = old(d).window();
        proof {
            lemma_vdec_bounds(w0, 64);
            crate::decoding::lemma_window_within(*old(d));
            crate::decoding::lemma_lim_bounds(*old(d));
        }
        let n = match d.read_len() {
            Ok(n) => n,
            Err(e) => {
                return Err(e);
            },
        };
        let ghost l = (match vdec(w0, 64) {
            VarintRead::Value { len, .. } => len,
            VarintRead::Error { .. } => 0,
        }) as int;
        let ghost mid = *d;
        let ghost frame = (if n + l <= w0.len() {
            w0.subrange(l, l + n as int)
        } else {
            w0.skip(l)
        });
        let tok = d.set_limit(n);
        let ghost framed = *d;
        proof {
            crate::decoding::lemma_window_len(mid);
            assert(mid.window() =~= w0.skip(l));
            if n + l <= w0.len() {
                assert(framed.window() =~= frame);
            } else {
                assert(framed.window() =~= frame);
            }
        }
        let ghost tprev = tok.prev();
        let ghost tset = tok.set();
        let res = crate::decoding::decode_message::<T>(d);
        let ghost after = *d;
        proof {
            match crate::decoding::msg_dec::<T>(T::fresh(), frame) {
                Ok(_) => {
                    assert(consumed(framed, after, frame.len() as int));
                },
                Err(_) => {},
            }
            // Whether the inner decode succeeded or not, its frame only
            // shrank, so the token can be redeemed.
            assert(after.lim() <= tset && (tset == usize::MAX as int ==> after.lim()
                == usize::MAX as int)) by {
                if crate::decoding::msg_dec::<T>(T::fresh(), frame) is Ok {
                } else {
                    let k = choose|k: int|
                        0 <= k <= framed.window().len() && #[trigger] consumed(framed, after, k);
                }
            };
        }
        d.reset_limit(tok);
        proof {
            assert(d.lim() == if tprev == usize::MAX as int {
                usize::MAX as int
            } else {
                tprev - (tset - after.lim())
            });
        }
        match res {
            Ok(msg) => {
                proof {
                    let k = l + frame.len() as int;
                    assert(d.bytes() == old(d).bytes().skip(k)) by {
                        assert(after.bytes() == mid.bytes().skip(frame.len() as int));
                        assert(mid.bytes() == old(d).bytes().skip(l));
                        assert(old(d).bytes().skip(l).skip(frame.len() as int) =~= old(
                            d,
                        ).bytes().skip(k));
                    };
                    assert(after.lim() == crate::decoding::debit(tset, frame.len() as int));
                    assert(tprev == mid.lim());
                    assert(mid.lim() == crate::decoding::debit(old(d).lim(), l));
                    assert(l >= 1);
                    assert(d.lim() == crate::decoding::debit(old(d).lim(), k)) by {
                        if old(d).lim() == usize::MAX as int {
                            assert(tprev == usize::MAX as int);
                            assert(d.lim() == usize::MAX as int);
                        } else {
                            assert(tprev == old(d).lim() - l);
                            assert(tprev != usize::MAX as int);
                            assert(tset != usize::MAX as int);
                            assert(after.lim() == tset - frame.len());
                            assert(d.lim() == old(d).lim() - l - frame.len());
                        }
                    };
                    assert(0 <= k <= old(d).window().len()) by {
                        crate::decoding::lemma_window_len(mid);
                    };
                    crate::decoding::lemma_consumed_from_parts(*old(d), *d, k);
                }
                Ok(crate::Message(msg))
            },
            Err(e) => {
                proof {
                    let k = choose|k: int|
                        0 <= k <= framed.window().len() && #[trigger] consumed(framed, after, k);
                    let t = l + k;
                    assert(d.bytes() == old(d).bytes().skip(t)) by {
                        assert(after.bytes() == mid.bytes().skip(k));
                        assert(mid.bytes() == old(d).bytes().skip(l));
                        assert(old(d).bytes().skip(l).skip(k) =~= old(d).bytes().skip(t));
                    };
                    assert(after.lim() == crate::decoding::debit(tset, k));
                    assert(d.lim() == crate::decoding::debit(old(d).lim(), t)) by {
                        if old(d).lim() == usize::MAX as int {
                            assert(tprev == usize::MAX as int);
                            assert(d.lim() == usize::MAX as int);
                        } else {
                            assert(tprev == old(d).lim() - l);
                            assert(tprev != usize::MAX as int);
                            assert(tset != usize::MAX as int);
                            assert(after.lim() == tset - k);
                            assert(d.lim() == old(d).lim() - l - k);
                        }
                    };
                    assert(0 <= t <= old(d).window().len()) by {
                        crate::decoding::lemma_window_len(mid);
                    };
                    crate::decoding::lemma_consumed_from_parts(*old(d), *d, t);
                    assert(consumed(*old(d), *d, t));
                }
                Err(e)
            },
        }
    }

    fn merge(&mut self, other: Self) {
        *self = other;
    }

    fn merge_from(&mut self, d: &mut Deserializer) -> Result<(), DecodingError> {
        match <crate::Message<T> as Decodable>::decode(d) {
            Ok(v) => {
                *self = v;
                Ok(())
            },
            Err(e) => Err(e),
        }
    }
}

} // verus!
