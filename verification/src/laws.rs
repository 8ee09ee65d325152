//! The library's laws: round trips of the varint codec, the zig-zag
//! transform and whole records, merge over concatenated streams, silent
//! skipping of unknown fields, and the overflow discipline.

use crate::decoding::{msg_dec, DecodableMessage, DecodingError};
use crate::encoding::{field_enc, EncodableMessage, Encodable};
use crate::impls::{len_delimited};
use crate::records::{
    foo_discr, foo_of_discr, Dict, Foo, Int32Message, Numbers, Sensor, StrMessage, Timestamp,
};
use crate::repeated::{rep_enc, Repeated};
use crate::traits::{lemma_zigzag_roundtrip, unzigzag64, zigzag64};
use crate::varint::{
    ftag_dec, lemma_varint_enc_small, lemma_vdec_enc, varint_enc, varint_len, vdec, TagRead,
    VarintRead,
};
use crate::wire_types::{skip_field_dec, skip_spec, tag_val, wire_from_bits, WireTypes};
use vstd::arithmetic::power2::{lemma2_to64, lemma2_to64_rest, pow2};
use vstd::prelude::*;

verus! {

/// Reading back a written varint yields the value and exactly the bytes the
/// size computation predicts, for every value that fits the target width and
/// whatever follows on the wire.
pub proof fn varint_round_trip(n: u64, bits: int, rest: Seq<u8>)
    requires
        0 <= bits <= 64,
        (n as nat) < pow2(bits as nat),
    ensures
        vdec(varint_enc(n as nat) + rest, bits) == (VarintRead::Value {
            n: n as nat,
            len: varint_len(n as nat),
        }),
        varint_enc(n as nat).len() == varint_len(n as nat),
{
    lemma_vdec_enc(n as nat, bits, rest);
    lemma_varint_enc_small(n as nat);
}

/// The zig-zag transform round-trips on every representable signed value.
pub proof fn zigzag_round_trip(n: int)
    requires
        i64::MIN <= n <= i64::MAX,
    ensures
        unzigzag64(zigzag64(n)) == n,
        zigzag64(n) <= u64::MAX,
{
    lemma_zigzag_roundtrip(n);
}

/// Decoding a timestamp's encoding, followed by anything else, overwrites
/// both fields and continues after it: the per-record continuation step.
pub proof fn timestamp_step(m: Timestamp, t: Timestamp, rest: Seq<u8>)
    ensures
        msg_dec::<Timestamp>(m, Timestamp::msg_enc(t) + rest) == msg_dec::<Timestamp>(t, rest),
{
    lemma2_to64();
    lemma2_to64_rest();
    let secs = (t.seconds as u64) as nat;
    let nans = (t.nanos as u32) as nat;
    let f2 = field_enc::<i32>(2, t.nanos);
    let s0 = Timestamp::msg_enc(t) + rest;
    // First field: tag 8, then the seconds varint.
    let r1 = varint_enc(secs) + (f2 + rest);
    assert(s0 =~= varint_enc(8) + r1);
    lemma_vdec_enc(8, 8, r1);
    assert(ftag_dec(s0, 8) == (TagRead::Tag { n: 8, len: 1 }));
    lemma_vdec_enc(secs, 64, f2 + rest);
    lemma_varint_enc_small(secs);
    let l1 = varint_len(secs) as int;
    assert(s0.skip(1) =~= r1);
    assert((t.seconds as u64) as i64 == t.seconds) by {
        let x = t.seconds;
        assert((x as u64) as i64 == x) by (bit_vector);
    };
    let m1 = Timestamp { seconds: t.seconds, nanos: m.nanos };
    assert(Timestamp::dec_field(m, 8, r1) == Ok::<(Timestamp, int), DecodingError>((m1, l1)));
    let s1 = s0.skip(1 + l1);
    assert(msg_dec::<Timestamp>(m, s0) == msg_dec::<Timestamp>(m1, s1));
    // Second field: tag 16, then the nanos varint.
    let r2 = varint_enc(nans) + rest;
    assert(s1 =~= varint_enc(16) + r2);
    lemma_vdec_enc(16, 8, r2);
    assert(ftag_dec(s1, 8) == (TagRead::Tag { n: 16, len: 1 }));
    lemma_vdec_enc(nans, 32, rest);
    lemma_varint_enc_small(nans);
    let l2 = varint_len(nans) as int;
    assert(s1.skip(1) =~= r2);
    assert((t.nanos as u32) as i32 == t.nanos) by {
        let x = t.nanos;
        assert((x as u32) as i32 == x) by (bit_vector);
    };
    assert(Timestamp::dec_field(m1, 16, r2) == Ok::<(Timestamp, int), DecodingError>((t, l2)));
    assert(s1.skip(1 + l2) =~= rest);
    assert(msg_dec::<Timestamp>(m1, s1) == msg_dec::<Timestamp>(t, rest));
}

/// Decoding what a timestamp encodes to yields that timestamp.
pub proof fn timestamp_round_trip(t: Timestamp)
    ensures
        msg_dec::<Timestamp>(Timestamp::fresh(), Timestamp::msg_enc(t)) == Ok::<
            Timestamp,
            DecodingError,
        >(t),
{
    assert(Timestamp::msg_enc(t) + Seq::<u8>::empty() =~= Timestamp::msg_enc(t));
    timestamp_step(Timestamp::fresh(), t, Seq::empty());
}

/// Merging the concatenated encodings of two timestamps into a fresh record
/// is the field-wise merge of the two: every scalar field is overwritten by
/// its later occurrence.
pub proof fn timestamp_merge(t1: Timestamp, t2: Timestamp)
    ensures
        msg_dec::<Timestamp>(
            Timestamp::fresh(),
            Timestamp::msg_enc(t1) + Timestamp::msg_enc(t2),
        ) == Ok::<Timestamp, DecodingError>(t2),
{
    timestamp_step(Timestamp::fresh(), t1, Timestamp::msg_enc(t2));
    assert(Timestamp::msg_enc(t2) + Seq::<u8>::empty() =~= Timestamp::msg_enc(t2));
    timestamp_step(t1, t2, Seq::empty());
}

/// Whether one field, given as its tag and payload bytes, is unknown to the
/// timestamp record and skippable: the tag names neither of its fields,
/// carries one of the four known wire types, and frames its payload exactly.
pub open spec fn timestamp_unknown_field(tag: u64, payload: Seq<u8>) -> bool {
    &&& tag < 256
    &&& tag != 8
    &&& tag != 16
    &&& wire_from_bits((tag & 7) as u8) is Some
    &&& skip_spec(wire_from_bits((tag & 7) as u8).unwrap(), payload) == Ok::<int, DecodingError>(
        payload.len() as int,
    )
}

/// A decoder holding a record steps over one unknown field unchanged and
/// continues with whatever follows.
pub proof fn timestamp_skip_step(t: Timestamp, tag: u64, payload: Seq<u8>, rest: Seq<u8>)
    requires
        timestamp_unknown_field(tag, payload),
    ensures
        msg_dec::<Timestamp>(t, (varint_enc(tag as nat) + payload) + rest) == msg_dec::<Timestamp>(
            t,
            rest,
        ),
{
    lemma2_to64();
    let garbage = (varint_enc(tag as nat) + payload) + rest;
    assert(garbage =~= varint_enc(tag as nat) + (payload + rest));
    lemma_vdec_enc(tag as nat, 8, payload + rest);
    lemma_varint_enc_small(tag as nat);
    assert(varint_len(tag as nat) == 1 || varint_len(tag as nat) == 2) by {
        crate::varint::lemma_varint_len_upper(tag as nat, 2);
        crate::varint::lemma_varint_len_lower(tag as nat);
    };
    let l = varint_len(tag as nat) as int;
    assert(ftag_dec(garbage, 8) == (TagRead::Tag { n: tag as nat, len: varint_len(tag as nat) }));
    assert(garbage.skip(l) =~= payload + rest);
    assert((tag as nat) as u64 == tag);
    crate::wire_types::lemma_skip_spec_prefix(
        wire_from_bits((tag & 7) as u8).unwrap(),
        payload,
        rest,
    );
    assert(Timestamp::dec_field(t, tag, payload + rest) == Ok::<(Timestamp, int), DecodingError>(
        (t, payload.len() as int),
    ));
    assert(garbage.skip(l + payload.len()) =~= rest);
}

/// The wire bytes of a sequence of fields, each given as a tag and its
/// payload.
pub open spec fn fields_enc(fields: Seq<(u64, Seq<u8>)>) -> Seq<u8>
    decreases fields.len(),
{
    if fields.len() == 0 {
        Seq::empty()
    } else {
        (varint_enc(fields[0].0 as nat) + fields[0].1) + fields_enc(fields.skip(1))
    }
}

/// Every field of the sequence is unknown to the timestamp record and
/// skippable.
pub open spec fn timestamp_unknown_fields(fields: Seq<(u64, Seq<u8>)>) -> bool {
    forall|i: int|
        0 <= i < fields.len() ==> {
            let f = #[trigger] fields[i];
            timestamp_unknown_field(f.0, f.1)
        }
}

/// A decoder holding a record drains any sequence of unknown fields without
/// touching it.
proof fn lemma_timestamp_drains_unknown(t: Timestamp, fields: Seq<(u64, Seq<u8>)>)
    requires
        timestamp_unknown_fields(fields),
    ensures
        msg_dec::<Timestamp>(t, fields_enc(fields)) == Ok::<Timestamp, DecodingError>(t),
    decreases fields.len(),
{
    if fields.len() == 0 {
        assert(fields_enc(fields) =~= Seq::<u8>::empty());
    } else {
        let f = fields[0];
        timestamp_skip_step(t, f.0, f.1, fields_enc(fields.skip(1)));
        assert(timestamp_unknown_fields(fields.skip(1))) by {
            assert forall|i: int|
                0 <= i < fields.skip(1).len() implies {
                let g = #[trigger] fields.skip(1)[i];
                timestamp_unknown_field(g.0, g.1)
            } by {
                assert(fields.skip(1)[i] == fields[i + 1]);
            };
        };
        lemma_timestamp_drains_unknown(t, fields.skip(1));
    }
}

/// Any appended sequence of garbage fields with unknown field numbers and
/// known wire types is skipped silently: the record decodes as if none were
/// there.
pub proof fn timestamp_skips_unknown(t: Timestamp, fields: Seq<(u64, Seq<u8>)>)
    requires
        timestamp_unknown_fields(fields),
    ensures
        msg_dec::<Timestamp>(Timestamp::fresh(), Timestamp::msg_enc(t) + fields_enc(fields)) == Ok::<
            Timestamp,
            DecodingError,
        >(t),
{
    timestamp_step(Timestamp::fresh(), t, fields_enc(fields));
    lemma_timestamp_drains_unknown(t, fields);
}

/// A tag whose wire bits are one of the two deprecated grouped-field
/// patterns surfaces `UnknownWireType` from the skipper.
pub proof fn unknown_wire_rejected<MV>(m: MV, tag: u64, s: Seq<u8>)
    requires
        tag & 7 == 3 || tag & 7 == 4,
    ensures
        skip_field_dec(m, tag, s) == Err::<(MV, int), DecodingError>(
            DecodingError::UnknownWireType((tag & 7) as u8),
        ),
{
}

/// Errors pass through a run of continuation bytes unchanged, counting the
/// bytes.
proof fn lemma_vdec_err_lift(s: Seq<u8>, bits: int, j: int)
    requires
        0 <= j <= s.len(),
        forall|i: int| 0 <= i < j ==> s[i] >= 128,
        7 * j <= bits,
    ensures
        vdec(s.skip(j), bits - 7 * j) matches VarintRead::Error { err, len } ==> vdec(s, bits) == (
        VarintRead::Error { err, len: (len + j) as nat }),
    decreases j,
{
    if j > 0 {
        lemma_vdec_err_lift(s.skip(1), bits - 7, j - 1);
        assert(s.skip(1).skip(j - 1) =~= s.skip(j));
        assert(s[0] >= 128);
        assert forall|i: int| 0 <= i < j - 1 implies s.skip(1)[i] >= 128 by {
            assert(s[i + 1] >= 128);
        };
    } else {
        assert(s.skip(0) =~= s);
    }
}

/// A varint whose tenth byte carries significant bits beyond bit 63 does not
/// fit 64-bit storage: the reader reports `VarIntOverflow` after consuming
/// all ten bytes.
pub proof fn varint_ten_byte_overflow(s: Seq<u8>)
    requires
        s.len() >= 10,
        forall|i: int| 0 <= i < 9 ==> s[i] >= 128,
        s[9] < 128,
        s[9] >= 2,
    ensures
        vdec(s, 64) == (VarintRead::Error { err: DecodingError::VarIntOverflow, len: 10 }),
{
    lemma2_to64();
    lemma_vdec_err_lift(s, 64, 9);
    assert(s.skip(9)[0] == s[9]);
    assert(vdec(s.skip(9), 1) == (VarintRead::Error {
        err: DecodingError::VarIntOverflow,
        len: 1,
    })) by {
        assert(pow2(1) == 2);
    };
}

/// Decoding a single-varint-field record's encoding yields the record, with
/// anything after it left in place.
pub proof fn int32_message_step(m: Int32Message, t: Int32Message, rest: Seq<u8>)
    ensures
        msg_dec::<Int32Message>(m, Int32Message::msg_enc(t) + rest) == msg_dec::<Int32Message>(
            t,
            rest,
        ),
{
    lemma2_to64();
    lemma2_to64_rest();
    let v = (t.value as u32) as nat;
    let s0 = Int32Message::msg_enc(t) + rest;
    let r1 = varint_enc(v) + rest;
    assert(s0 =~= varint_enc(8) + r1);
    lemma_vdec_enc(8, 8, r1);
    lemma_vdec_enc(v, 32, rest);
    lemma_varint_enc_small(v);
    let l1 = varint_len(v) as int;
    assert(s0.skip(1) =~= r1);
    assert((t.value as u32) as i32 == t.value) by {
        let x = t.value;
        assert((x as u32) as i32 == x) by (bit_vector);
    };
    assert(Int32Message::dec_field(m, 8, r1) == Ok::<(Int32Message, int), DecodingError>(
        (t, l1),
    ));
    assert(s0.skip(1 + l1) =~= rest);
}

/// Round trip for the single-varint-field record.
pub proof fn int32_message_round_trip(t: Int32Message)
    ensures
        msg_dec::<Int32Message>(Int32Message::fresh(), Int32Message::msg_enc(t)) == Ok::<
            Int32Message,
            DecodingError,
        >(t),
{
    assert(Int32Message::msg_enc(t) + Seq::<u8>::empty() =~= Int32Message::msg_enc(t));
    int32_message_step(Int32Message::fresh(), t, Seq::empty());
}

/// Decoding a string-field record's encoding recovers the characters: the
/// length prefix is read back, the bytes taken whole, and UTF-8 decoding
/// inverts the encoding that produced them.
pub proof fn str_message_round_trip(m: Seq<char>)
    requires
        StrMessage::msg_ok(m),
    ensures
        msg_dec::<StrMessage>(StrMessage::fresh(), StrMessage::msg_enc(m)) == Ok::<
            Seq<char>,
            DecodingError,
        >(m),
{
    lemma2_to64();
    lemma2_to64_rest();
    let bytes = vstd::utf8::encode_utf8(m);
    let body = len_delimited(bytes);
    let s0 = StrMessage::msg_enc(m);
    assert(s0 =~= varint_enc(18) + (body + Seq::<u8>::empty()));
    lemma_vdec_enc(18, 8, body + Seq::<u8>::empty());
    assert(ftag_dec(s0, 8) == (TagRead::Tag { n: 18, len: 1 }));
    assert(s0.skip(1) =~= body + Seq::<u8>::empty());
    crate::impls::lemma_dec_len_delimited(bytes, Seq::empty());
    vstd::utf8::encode_utf8_valid_utf8(m);
    vstd::utf8::encode_utf8_decode_utf8(m);
    lemma_varint_enc_small(bytes.len() as nat);
    let k = varint_len(bytes.len() as nat) + bytes.len() as int;
    assert(<String as crate::decoding::Decodable>::dec(body + Seq::<u8>::empty()) == Ok::<
        (Seq<char>, int),
        DecodingError,
    >((m, k)));
    assert(StrMessage::dec_field(StrMessage::fresh(), 18, s0.skip(1)) == Ok::<
        (Seq<char>, int),
        DecodingError,
    >((m, k)));
    assert(s0.skip(1 + k) =~= Seq::<u8>::empty());
    assert(msg_dec::<StrMessage>(m, Seq::<u8>::empty()) == Ok::<Seq<char>, DecodingError>(m));
    assert(msg_dec::<StrMessage>(StrMessage::fresh(), s0) == Ok::<Seq<char>, DecodingError>(m));
}

/// Decoding a repeated field's encoding appends its elements in order to
/// whatever was decoded before, and continues after it.
pub proof fn numbers_step(acc: Seq<u32>, m: Seq<u32>, rest: Seq<u8>)
    ensures
        msg_dec::<Numbers>(acc, rep_enc::<u32>(3, m) + rest) == msg_dec::<Numbers>(acc + m, rest),
    decreases m.len(),
{
    lemma2_to64();
    lemma2_to64_rest();
    if m.len() == 0 {
        assert(rep_enc::<u32>(3, m) + rest =~= rest);
        assert(acc + m =~= acc);
    } else {
        let v = m[0] as nat;
        let tail = m.skip(1);
        let s0 = rep_enc::<u32>(3, m) + rest;
        let r1 = varint_enc(v) + (rep_enc::<u32>(3, tail) + rest);
        assert(s0 =~= varint_enc(24) + r1);
        lemma_vdec_enc(24, 8, r1);
        assert(ftag_dec(s0, 8) == (TagRead::Tag { n: 24, len: 1 }));
        lemma_vdec_enc(v, 32, rep_enc::<u32>(3, tail) + rest);
        lemma_varint_enc_small(v);
        let l1 = varint_len(v) as int;
        assert(s0.skip(1) =~= r1);
        assert(<Repeated<Vec<u32>> as crate::decoding::Decodable>::dec(r1) == Ok::<
            (Seq<u32>, int),
            DecodingError,
        >((seq![m[0]], l1)));
        assert(Numbers::dec_field(acc, 24, r1) == Ok::<(Seq<u32>, int), DecodingError>(
            (acc + seq![m[0]], l1),
        ));
        assert(s0.skip(1 + l1) =~= rep_enc::<u32>(3, tail) + rest);
        numbers_step(acc + seq![m[0]], tail, rest);
        assert((acc + seq![m[0]]) + tail =~= acc + m);
    }
}

/// Round trip for the repeated-field record: the elements come back in
/// order.
pub proof fn numbers_round_trip(m: Seq<u32>)
    ensures
        msg_dec::<Numbers>(Numbers::fresh(), rep_enc::<u32>(3, m)) == Ok::<Seq<u32>, DecodingError>(
            m,
        ),
{
    assert(rep_enc::<u32>(3, m) + Seq::<u8>::empty() =~= rep_enc::<u32>(3, m));
    numbers_step(Seq::empty(), m, Seq::empty());
    assert(Seq::<u32>::empty() + m =~= m);
}

/// Merging two encoded repeated-field records concatenates their elements:
/// the repeated field appends where scalars overwrite.
pub proof fn numbers_merge(m1: Seq<u32>, m2: Seq<u32>)
    ensures
        msg_dec::<Numbers>(Numbers::fresh(), rep_enc::<u32>(3, m1) + rep_enc::<u32>(3, m2)) == Ok::<
            Seq<u32>,
            DecodingError,
        >(m1 + m2),
{
    numbers_step(Seq::empty(), m1, rep_enc::<u32>(3, m2));
    numbers_step(Seq::<u32>::empty() + m1, m2, Seq::empty());
    assert(rep_enc::<u32>(3, m2) + Seq::<u8>::empty() =~= rep_enc::<u32>(3, m2));
    assert((Seq::<u32>::empty() + m1) + m2 =~= m1 + m2);
}

/// A boolean decodes back from its single byte.
pub proof fn bool_round_trip(b: bool, rest: Seq<u8>)
    ensures
        <bool as crate::decoding::Decodable>::dec(<bool as Encodable>::enc(b) + rest) == Ok::<
            (bool, int),
            DecodingError,
        >((b, 1)),
{
    let s = <bool as Encodable>::enc(b) + rest;
    assert(s[0] == if b {
        1u8
    } else {
        0u8
    });
}

/// A zig-zag signed value's stored image decodes back from its varint, and
/// the inverse transform then recovers the signed value.
pub proof fn signed_round_trip(n: i64, rest: Seq<u8>)
    ensures
        ({
            let stored = <i64 as crate::traits::Signable>::zigzag_spec(n);
            <crate::Signed<i64> as crate::decoding::Decodable>::dec(
                <crate::Signed<i64> as Encodable>::enc(stored) + rest,
            ) == Ok::<(u64, int), DecodingError>((stored, varint_len(stored as nat) as int))
                && <i64 as crate::traits::Signable>::unzigzag_spec(stored) == n
        }),
{
    lemma2_to64();
    lemma2_to64_rest();
    lemma_zigzag_roundtrip(n as int);
    let stored = <i64 as crate::traits::Signable>::zigzag_spec(n);
    lemma_vdec_enc(stored as nat, 64, rest);
    lemma_varint_enc_small(stored as nat);
}

/// A fixed 32-bit word decodes back from its four little-endian bytes.
pub proof fn fixed32_round_trip(n: u32, rest: Seq<u8>)
    ensures
        <crate::Fixed32 as crate::decoding::Decodable>::dec(
            <crate::Fixed32 as Encodable>::enc(n) + rest,
        ) == Ok::<(u32, int), DecodingError>((n, 4)),
{
    crate::impls::lemma_u32_le_roundtrip(n, rest);
}

/// A fixed 64-bit word decodes back from its eight little-endian bytes.
pub proof fn fixed64_round_trip(n: u64, rest: Seq<u8>)
    ensures
        <crate::Fixed64 as crate::decoding::Decodable>::dec(
            <crate::Fixed64 as Encodable>::enc(n) + rest,
        ) == Ok::<(u64, int), DecodingError>((n, 8)),
{
    crate::impls::lemma_u64_le_roundtrip(n, rest);
}

/// Decoding a framed map entry recovers its key and value: the frame length
/// is read back, the two inner fields land in their slots, and no default is
/// needed.
pub proof fn map_entry_round_trip(k: Seq<char>, v: i32, rest: Seq<u8>)
    requires
        <String as Encodable>::enc_ok(k),
    ensures
        <crate::map::MapField<String, i32> as crate::decoding::Decodable>::dec(
            (varint_enc(crate::map::map_entry_enc::<String, i32>(k, v).len() as nat)
                + crate::map::map_entry_enc::<String, i32>(k, v)) + rest,
        ) == Ok::<(Seq<(Seq<char>, i32)>, int), DecodingError>(
            (
                seq![(k, v)],
                varint_len(crate::map::map_entry_enc::<String, i32>(k, v).len() as nat)
                    + crate::map::map_entry_enc::<String, i32>(k, v).len() as int,
            ),
        ),
{
    lemma2_to64();
    lemma2_to64_rest();
    let kbytes = vstd::utf8::encode_utf8(k);
    let kbody = len_delimited(kbytes);
    let f2 = field_enc::<i32>(2, v);
    let body = crate::map::map_entry_enc::<String, i32>(k, v);
    assert(body =~= varint_enc(10) + (kbody + f2));
    lemma_varint_enc_small(kbytes.len() as nat);
    lemma_varint_enc_small((v as u32) as nat);
    assert(body.len() <= usize::MAX);
    let s0 = (varint_enc(body.len() as nat) + body) + rest;
    // The outer frame: its length, then exactly the body; whatever follows
    // the frame stays outside it.
    assert(s0 =~= varint_enc(body.len() as nat) + (body + rest));
    lemma_vdec_enc(body.len() as nat, 64, body + rest);
    lemma_varint_enc_small(body.len() as nat);
    let l0 = varint_len(body.len() as nat) as int;
    assert(s0.subrange(l0, l0 + body.len() as int) =~= body);
    // First inner field: the key string under tag 10.
    lemma_vdec_enc(10, 8, kbody + f2);
    assert(ftag_dec(body, 8) == (TagRead::Tag { n: 10, len: 1 }));
    assert(body.skip(1) =~= kbody + f2);
    crate::impls::lemma_dec_len_delimited(kbytes, f2);
    vstd::utf8::encode_utf8_valid_utf8(k);
    vstd::utf8::encode_utf8_decode_utf8(k);
    let k1 = varint_len(kbytes.len() as nat) + kbytes.len() as int;
    assert(<String as crate::decoding::Decodable>::dec(kbody + f2) == Ok::<
        (Seq<char>, int),
        DecodingError,
    >((k, k1)));
    let fresh = (None::<Seq<char>>, None::<i32>);
    assert(tag_val(1, <String as Encodable>::wire()) == 10);
    assert(tag_val(2, <i32 as Encodable>::wire()) == 16);
    assert(crate::map::MapEntry::<String, i32>::dec_field(fresh, 10, kbody + f2) == Ok::<
        ((Option<Seq<char>>, Option<i32>), int),
        DecodingError,
    >(((Some(k), None), k1)));
    assert(body.skip(1 + k1) =~= f2);
    // Second inner field: the value varint under tag 16.
    lemma_vdec_enc(16, 8, varint_enc((v as u32) as nat) + Seq::<u8>::empty());
    assert(f2 =~= varint_enc(16) + (varint_enc((v as u32) as nat) + Seq::<u8>::empty()));
    assert(ftag_dec(f2, 8) == (TagRead::Tag { n: 16, len: 1 }));
    lemma_vdec_enc((v as u32) as nat, 32, Seq::empty());
    let l2 = varint_len((v as u32) as nat) as int;
    assert(f2.skip(1) =~= varint_enc((v as u32) as nat) + Seq::<u8>::empty());
    assert((v as u32) as i32 == v) by {
        let x = v;
        assert((x as u32) as i32 == x) by (bit_vector);
    };
    assert(crate::map::MapEntry::<String, i32>::dec_field((Some(k), None), 16, f2.skip(1))
        == Ok::<((Option<Seq<char>>, Option<i32>), int), DecodingError>(((Some(k), Some(v)), l2)));
    assert(f2.skip(1 + l2) =~= Seq::<u8>::empty());
    // The frame ends with both halves present.
    assert(msg_dec::<crate::map::MapEntry<String, i32>>((Some(k), Some(v)), Seq::<u8>::empty())
        == Ok::<(Option<Seq<char>>, Option<i32>), DecodingError>((Some(k), Some(v))));
    assert(msg_dec::<crate::map::MapEntry<String, i32>>((Some(k), None), f2) == Ok::<
        (Option<Seq<char>>, Option<i32>),
        DecodingError,
    >((Some(k), Some(v))));
    assert(msg_dec::<crate::map::MapEntry<String, i32>>(fresh, body) == Ok::<
        (Option<Seq<char>>, Option<i32>),
        DecodingError,
    >((Some(k), Some(v))));
    assert(crate::map::entry_with_defaults::<String, i32>((Some(k), Some(v))) == (k, v));
}

/// Decoding what the all-shapes record encodes to yields that record: the
/// boolean, both fixed words, the zig-zag image and the enumeration come
/// back in their fields.
#[verifier::rlimit(100)]
#[verifier::spinoff_prover]
pub proof fn sensor_round_trip(t: (bool, u32, u64, u64, Foo))
    ensures
        msg_dec::<Sensor>(Sensor::fresh(), Sensor::msg_enc(t)) == Ok::<
            (bool, u32, u64, u64, Foo),
            DecodingError,
        >(t),
{
    lemma2_to64();
    lemma2_to64_rest();
    let f2 = field_enc::<crate::Fixed32>(2, t.1);
    let f3 = field_enc::<crate::Fixed64>(3, t.2);
    let f4 = field_enc::<crate::Signed<i64>>(4, t.3);
    let f5 = field_enc::<Foo>(5, t.4);
    let s0 = Sensor::msg_enc(t);
    let m0 = Sensor::fresh();
    // Field 1: the boolean under tag 8.
    let r1 = <bool as Encodable>::enc(t.0) + (f2 + (f3 + (f4 + f5)));
    assert(s0 =~= varint_enc(8) + r1);
    lemma_vdec_enc(8, 8, r1);
    assert(r1[0] == if t.0 {
        1u8
    } else {
        0u8
    });
    assert(<bool as crate::decoding::Decodable>::dec(r1) == Ok::<(bool, int), DecodingError>(
        (t.0, 1),
    ));
    let m1 = (t.0, m0.1, m0.2, m0.3, m0.4);
    assert(Sensor::dec_field(m0, 8, r1) == Ok::<((bool, u32, u64, u64, Foo), int), DecodingError>(
        (m1, 1),
    ));
    let s1 = s0.skip(2);
    assert(s1 =~= f2 + (f3 + (f4 + f5)));
    assert(msg_dec::<Sensor>(m0, s0) == msg_dec::<Sensor>(m1, s1));
    // Field 2: the fixed 32-bit word under tag 21.
    let r2 = crate::encoding::u32_le(t.1) + (f3 + (f4 + f5));
    assert(s1 =~= varint_enc(21) + r2);
    lemma_vdec_enc(21, 8, r2);
    crate::impls::lemma_u32_le_roundtrip(t.1, f3 + (f4 + f5));
    assert(<crate::Fixed32 as crate::decoding::Decodable>::dec(r2) == Ok::<
        (u32, int),
        DecodingError,
    >((t.1, 4)));
    let m2 = (t.0, t.1, m0.2, m0.3, m0.4);
    assert(Sensor::dec_field(m1, 21, r2) == Ok::<((bool, u32, u64, u64, Foo), int), DecodingError>(
        (m2, 4),
    ));
    let s2 = s1.skip(5);
    assert(s2 =~= f3 + (f4 + f5));
    assert(msg_dec::<Sensor>(m1, s1) == msg_dec::<Sensor>(m2, s2));
    // Field 3: the fixed 64-bit word under tag 25.
    let r3 = crate::encoding::u64_le(t.2) + (f4 + f5);
    assert(s2 =~= varint_enc(25) + r3);
    lemma_vdec_enc(25, 8, r3);
    crate::impls::lemma_u64_le_roundtrip(t.2, f4 + f5);
    assert(<crate::Fixed64 as crate::decoding::Decodable>::dec(r3) == Ok::<
        (u64, int),
        DecodingError,
    >((t.2, 8)));
    let m3 = (t.0, t.1, t.2, m0.3, m0.4);
    assert(Sensor::dec_field(m2, 25, r3) == Ok::<((bool, u32, u64, u64, Foo), int), DecodingError>(
        (m3, 8),
    ));
    let s3 = s2.skip(9);
    assert(s3 =~= f4 + f5);
    assert(msg_dec::<Sensor>(m2, s2) == msg_dec::<Sensor>(m3, s3));
    // Field 4: the zig-zag image under tag 32.
    let r4 = varint_enc(t.3 as nat) + f5;
    assert(s3 =~= varint_enc(32) + r4);
    lemma_vdec_enc(32, 8, r4);
    lemma_vdec_enc(t.3 as nat, 64, f5);
    lemma_varint_enc_small(t.3 as nat);
    let l4 = varint_len(t.3 as nat) as int;
    assert(s3.skip(1) =~= r4);
    assert(<crate::Signed<i64> as crate::decoding::Decodable>::dec(r4) == Ok::<
        (u64, int),
        DecodingError,
    >((t.3, l4)));
    let m4 = (t.0, t.1, t.2, t.3, m0.4);
    assert(Sensor::dec_field(m3, 32, r4) == Ok::<((bool, u32, u64, u64, Foo), int), DecodingError>(
        (m4, l4),
    ));
    let s4 = s3.skip(1 + l4);
    assert(s4 =~= f5);
    assert(msg_dec::<Sensor>(m3, s3) == msg_dec::<Sensor>(m4, s4));
    // Field 5: the enumeration under tag 40.
    let r5 = varint_enc(foo_discr(t.4)) + Seq::<u8>::empty();
    assert(s4 =~= varint_enc(40) + r5);
    lemma_vdec_enc(40, 8, r5);
    lemma_vdec_enc(foo_discr(t.4), 8, Seq::empty());
    crate::varint::lemma_varint_len_lower(foo_discr(t.4));
    assert(<Foo as crate::decoding::Decodable>::dec(r5) == Ok::<(Foo, int), DecodingError>(
        (t.4, 1),
    ));
    assert(Sensor::dec_field(m4, 40, r5) == Ok::<((bool, u32, u64, u64, Foo), int), DecodingError>(
        (t, 1),
    ));
    assert(s4.skip(2) =~= Seq::<u8>::empty());
    assert(msg_dec::<Sensor>(t, Seq::<u8>::empty()) == Ok::<
        (bool, u32, u64, u64, Foo),
        DecodingError,
    >(t));
    assert(msg_dec::<Sensor>(m4, s4) == Ok::<(bool, u32, u64, u64, Foo), DecodingError>(t));
}

/// A record framed as a length-delimited sub-message decodes back whole:
/// the frame length is read, the record decoded inside the frame, and
/// whatever follows the frame left in place.
pub proof fn message_field_round_trip(t: Timestamp, rest: Seq<u8>)
    ensures
        ({
            let body = Timestamp::msg_enc(t);
            <crate::Message<Timestamp> as crate::decoding::Decodable>::dec(
                len_delimited(body) + rest,
            ) == Ok::<(Timestamp, int), DecodingError>(
                (t, varint_len(body.len() as nat) + body.len() as int),
            )
        }),
{
    lemma2_to64();
    lemma2_to64_rest();
    let body = Timestamp::msg_enc(t);
    Timestamp::lemma_msg_ok(t);
    let s = len_delimited(body) + rest;
    assert(s =~= varint_enc(body.len() as nat) + (body + rest));
    lemma_vdec_enc(body.len() as nat, 64, body + rest);
    lemma_varint_enc_small(body.len() as nat);
    let l = varint_len(body.len() as nat) as int;
    assert(s.subrange(l, l + body.len() as int) =~= body);
    timestamp_round_trip(t);
}

/// Decoding a map field's encoding inserts its entries in order — a known
/// key overwritten, a new one appended — and continues after it: the
/// per-record continuation step for the map record.
#[verifier::rlimit(100)]
#[verifier::spinoff_prover]
pub proof fn dict_step(acc: Seq<(Seq<char>, i32)>, m: Seq<(Seq<char>, i32)>, rest: Seq<u8>)
    requires
        crate::map::map_ok::<String, i32>(m),
    ensures
        msg_dec::<Dict>(acc, crate::map::map_enc::<String, i32>(7, m) + rest) == msg_dec::<Dict>(
            crate::map::map_merge(acc, m),
            rest,
        ),
    decreases m.len(),
{
    lemma2_to64();
    lemma2_to64_rest();
    if m.len() == 0 {
        assert(crate::map::map_enc::<String, i32>(7, m) + rest =~= rest);
    } else {
        let k = m[0].0;
        let v = m[0].1;
        let body = crate::map::map_entry_enc::<String, i32>(k, v);
        let tail_enc = crate::map::map_enc::<String, i32>(7, m.skip(1));
        let s0 = crate::map::map_enc::<String, i32>(7, m) + rest;
        assert(tag_val(7, WireTypes::LengthDelimitedWire) == 58);
        let frame = varint_enc(body.len() as nat) + body;
        assert(s0 =~= varint_enc(58) + (frame + (tail_enc + rest)));
        lemma_vdec_enc(58, 8, frame + (tail_enc + rest));
        assert(ftag_dec(s0, 8) == (TagRead::Tag { n: 58, len: 1 }));
        assert(s0.skip(1) =~= frame + (tail_enc + rest));
        map_entry_round_trip(k, v, tail_enc + rest);
        lemma_varint_enc_small(body.len() as nat);
        let k1 = varint_len(body.len() as nat) + body.len() as int;
        let one = seq![(k, v)];
        assert(crate::map::map_merge(acc, one) == crate::map::map_insert(acc, k, v)) by {
            assert(one.skip(1) =~= Seq::<(Seq<char>, i32)>::empty());
            assert(one[0] == (k, v));
            assert(crate::map::map_merge(
                crate::map::map_insert(acc, k, v),
                Seq::<(Seq<char>, i32)>::empty(),
            ) == crate::map::map_insert(acc, k, v));
        };
        assert(Dict::dec_field(acc, 58, s0.skip(1)) == Ok::<
            (Seq<(Seq<char>, i32)>, int),
            DecodingError,
        >((crate::map::map_insert(acc, k, v), k1)));
        assert(s0.skip(1 + k1) =~= tail_enc + rest);
        assert(crate::map::map_ok::<String, i32>(m.skip(1))) by {
            assert forall|i: int| 0 <= i < m.skip(1).len() implies {
                let kv = #[trigger] m.skip(1)[i];
                <String as Encodable>::enc_ok(kv.0) && <i32 as Encodable>::enc_ok(kv.1)
                    && crate::map::map_entry_enc::<String, i32>(kv.0, kv.1).len() <= usize::MAX
            } by {
                assert(m.skip(1)[i] == m[i + 1]);
            };
        };
        dict_step(crate::map::map_insert(acc, k, v), m.skip(1), rest);
        assert(crate::map::map_merge(acc, m) == crate::map::map_merge(
            crate::map::map_insert(acc, k, v),
            m.skip(1),
        ));
    }
}

/// Decoding what a map record encodes to yields its entries merged into a
/// fresh record: each key's last occurrence wins, first occurrences fix the
/// order.
pub proof fn dict_round_trip(m: Seq<(Seq<char>, i32)>)
    requires
        crate::map::map_ok::<String, i32>(m),
    ensures
        msg_dec::<Dict>(Dict::fresh(), Dict::msg_enc(m)) == Ok::<
            Seq<(Seq<char>, i32)>,
            DecodingError,
        >(crate::map::map_merge(Seq::empty(), m)),
{
    assert(Dict::msg_enc(m) + Seq::<u8>::empty() =~= Dict::msg_enc(m));
    dict_step(Seq::empty(), m, Seq::empty());
}

/// Merging the concatenated encodings of two map records inserts the second
/// record's entries over the first's: maps merge by insert/overwrite.
pub proof fn dict_merge(m1: Seq<(Seq<char>, i32)>, m2: Seq<(Seq<char>, i32)>)
    requires
        crate::map::map_ok::<String, i32>(m1),
        crate::map::map_ok::<String, i32>(m2),
    ensures
        msg_dec::<Dict>(Dict::fresh(), Dict::msg_enc(m1) + Dict::msg_enc(m2)) == Ok::<
            Seq<(Seq<char>, i32)>,
            DecodingError,
        >(crate::map::map_merge(crate::map::map_merge(Seq::empty(), m1), m2)),
{
    dict_step(Seq::empty(), m1, Dict::msg_enc(m2));
    assert(Dict::msg_enc(m2) + Seq::<u8>::empty() =~= Dict::msg_enc(m2));
    dict_step(crate::map::map_merge(Seq::empty(), m1), m2, Seq::empty());
}

/// Map entries merge by insert/overwrite: a second occurrence of a key
/// replaces the first one's value in place, so merging with the same key
/// twice keeps only the later value.
pub proof fn map_insert_overwrites<KV, TV>(m: Seq<(KV, TV)>, k: KV, v1: TV, v2: TV)
    ensures
        crate::map::map_insert(crate::map::map_insert(m, k, v1), k, v2) == crate::map::map_insert(
            m,
            k,
            v2,
        ),
{
    crate::map::lemma_map_key_index(m, k);
    let j = crate::map::map_key_index(m, k);
    if j < 0 {
        let m1 = m.push((k, v1));
        crate::map::lemma_map_key_index(m1, k);
        let j1 = crate::map::map_key_index(m1, k);
        assert(m1[m.len() as int].0 == k);
        assert(j1 == m.len());
        assert(m1.update(m.len() as int, (k, v2)) =~= m.push((k, v2)));
    } else {
        let m1 = m.update(j, (k, v1));
        crate::map::lemma_map_key_index(m1, k);
        let j1 = crate::map::map_key_index(m1, k);
        assert(m1[j].0 == k);
        assert forall|i: int| 0 <= i < j implies (#[trigger] m1[i]).0 != k by {
            assert(m1[i] == m[i]);
        };
        assert(j1 == j);
        assert(m1.update(j, (k, v2)) =~= m.update(j, (k, v2)));
    }
}

/// An oversized discriminant — one too wide for the enumeration's one-byte
/// storage — is drained whole and falls back to the default variant,
/// whatever its byte pattern; it is never an error.
pub proof fn enumeration_oversized_defaults(n: u64, rest: Seq<u8>)
    requires
        n >= 256,
    ensures
        <Foo as crate::decoding::Decodable>::dec(varint_enc(n as nat) + rest) == Ok::<
            (Foo, int),
            DecodingError,
        >((Foo::Bar, varint_len(n as nat) as int)),
{
    crate::varint::lemma_vdec_enc_overflow8(n as nat, rest);
    crate::varint::lemma_total_len_enc(n as nat, rest);
    crate::varint::lemma_varint_enc_small(n as nat);
}

/// An enumeration decodes back to the variant it encodes, and any unlisted
/// discriminant falls back to the default variant.
pub proof fn enumeration_round_trip(v: Foo, n: nat, rest: Seq<u8>)
    requires
        n < 128,
    ensures
        <Foo as crate::decoding::Decodable>::dec(varint_enc(foo_discr(v)) + rest) == Ok::<
            (Foo, int),
            DecodingError,
        >((v, 1)),
        <Foo as crate::decoding::Decodable>::dec(varint_enc(n) + rest) == Ok::<
            (Foo, int),
            DecodingError,
        >((foo_of_discr(n), 1)),
{
    lemma2_to64();
    lemma_vdec_enc(foo_discr(v), 8, rest);
    lemma_vdec_enc(n, 8, rest);
    lemma_varint_enc_small(n);
    crate::varint::lemma_varint_len_lower(n);
    crate::varint::lemma_varint_len_lower(foo_discr(v));
}

} // verus!
