//! Ready-made record types, written the way the metadata pipeline lays out a
//! generated record: per-field tag constants, a size that sums the fields, an
//! encoder that emits precomputed tags, and a tag-dispatching field decoder.

use crate::decoding::{
    Decodable, DecodableMessage, DecodingError, Deserializer,
};
use crate::encoding::{
    encode_field, encode_field_precomputed, encoded_size, field_enc, field_number_ok, Encodable,
    EncodableMessage, ProtobufSerializer,
};
use crate::metadata::precompute_field_varint;
use crate::repeated::{rep_enc, Repeated};
use crate::varint::{lemma_varint_enc_small, varint_enc};
use crate::wire_types::{skip_field_dec, skip_unknown, tag_val, WireTypes};
use vstd::arithmetic::power2::{lemma2_to64, lemma2_to64_rest, pow2};
use vstd::prelude::*;

verus! {

/// A point in time: seconds and nanoseconds, both varint fields.
#[derive(Clone, Copy, PartialEq, Eq, Structural, Debug)]
pub struct Timestamp {
    pub seconds: i64,
    pub nanos: i32,
}

impl View for Timestamp {
    type V = Timestamp;

    open spec fn view(&self) -> Timestamp {
        *self
    }
}

/// The tag of the seconds field: number 1, varint wire.
pub open spec fn timestamp_tag_seconds() -> nat {
    tag_val(1, WireTypes::VarIntWire)
}

/// The tag of the nanos field: number 2, varint wire.
pub open spec fn timestamp_tag_nanos() -> nat {
    tag_val(2, WireTypes::VarIntWire)
}

proof fn lemma_small_field_numbers()
    ensures
        field_number_ok(1),
        field_number_ok(2),
        field_number_ok(3),
        field_number_ok(7),
        timestamp_tag_seconds() == 8,
        timestamp_tag_nanos() == 16,
{
    lemma2_to64();
    lemma2_to64_rest();
    assert(pow2(61) == 0x2000000000000000);
}

impl EncodableMessage for Timestamp {
    open spec fn msg_enc(m: Timestamp) -> Seq<u8> {
        field_enc::<i64>(1, m.seconds) + field_enc::<i32>(2, m.nanos)
    }

    open spec fn msg_ok(m: Timestamp) -> bool {
        true
    }

    proof fn lemma_msg_ok(m: Timestamp) {
        lemma_small_field_numbers();
        lemma_varint_enc_small(timestamp_tag_seconds());
        lemma_varint_enc_small(timestamp_tag_nanos());
        lemma_varint_enc_small((m.seconds as u64) as nat);
        lemma_varint_enc_small((m.nanos as u32) as nat);
    }

    fn encoded_size(&self) -> (r: usize) {
        proof {
            lemma_small_field_numbers();
            Self::lemma_msg_ok(*self);
        }
        encoded_size::<i64>(&self.seconds, 1) + encoded_size::<i32>(&self.nanos, 2)
    }

    fn encode(&self, s: &mut ProtobufSerializer) {
        proof {
            lemma_small_field_numbers();
        }
        let tag_seconds = precompute_field_varint(1, WireTypes::VarIntWire);
        let tag_nanos = precompute_field_varint(2, WireTypes::VarIntWire);
        proof {
            assert(tag_seconds@ == varint_enc(tag_val(1, <i64 as Encodable>::wire())));
            assert(tag_nanos@ == varint_enc(tag_val(2, <i32 as Encodable>::wire())));
        }
        encode_field_precomputed::<i64>(&self.seconds, s, tag_seconds.as_slice());
        encode_field_precomputed::<i32>(&self.nanos, s, tag_nanos.as_slice());
        proof {
            assert(s@ =~= old(s)@ + Self::msg_enc(*self));
        }
    }
}

impl DecodableMessage for Timestamp {
    open spec fn tag_bits() -> u32 {
        8
    }

    open spec fn fresh() -> Timestamp {
        Timestamp { seconds: 0, nanos: 0 }
    }

    open spec fn dec_field(m: Timestamp, tag: u64, s: Seq<u8>) -> Result<
        (Timestamp, int),
        DecodingError,
    > {
        if tag == 8 {
            match <i64 as Decodable>::dec(s) {
                Ok((v, k)) => Ok((Timestamp { seconds: v, nanos: m.nanos }, k)),
                Err(e) => Err(e),
            }
        } else if tag == 16 {
            match <i32 as Decodable>::dec(s) {
                Ok((v, k)) => Ok((Timestamp { seconds: m.seconds, nanos: v }, k)),
                Err(e) => Err(e),
            }
        } else {
            skip_field_dec(m, tag, s)
        }
    }

    proof fn lemma_tag_bits() {
    }

    proof fn lemma_dec_field_len(m: Timestamp, tag: u64, s: Seq<u8>) {
        <i64 as Decodable>::lemma_dec_len(s);
        <i32 as Decodable>::lemma_dec_len(s);
        crate::wire_types::lemma_skip_field_len(m, tag, s);
    }

    fn tag_bits_exec() -> u32 {
        8
    }

    fn fresh_exec() -> Timestamp {
        Timestamp { seconds: 0, nanos: 0 }
    }

    fn decode_field(&mut self, d: &mut Deserializer, tag: u64) -> (r: Result<(), DecodingError>) {
        if tag == 8 {
            Decodable::merge_from(&mut self.seconds, d)
        } else if tag == 16 {
            Decodable::merge_from(&mut self.nanos, d)
        } else {
            skip_unknown(d, tag)
        }
    }
}

/// A record with a single varint field, number 1.
#[derive(Clone, Copy, PartialEq, Eq, Structural, Debug)]
pub struct Int32Message {
    pub value: i32,
}

impl View for Int32Message {
    type V = Int32Message;

    open spec fn view(&self) -> Int32Message {
        *self
    }
}

impl EncodableMessage for Int32Message {
    open spec fn msg_enc(m: Int32Message) -> Seq<u8> {
        field_enc::<i32>(1, m.value)
    }

    open spec fn msg_ok(m: Int32Message) -> bool {
        true
    }

    proof fn lemma_msg_ok(m: Int32Message) {
        lemma_small_field_numbers();
        lemma_varint_enc_small(tag_val(1, WireTypes::VarIntWire));
        lemma_varint_enc_small((m.value as u32) as nat);
    }

    fn encoded_size(&self) -> (r: usize) {
        proof {
            lemma_small_field_numbers();
            Self::lemma_msg_ok(*self);
        }
        encoded_size::<i32>(&self.value, 1)
    }

    fn encode(&self, s: &mut ProtobufSerializer) {
        proof {
            lemma_small_field_numbers();
        }
        let tag = precompute_field_varint(1, WireTypes::VarIntWire);
        proof {
            assert(tag@ == varint_enc(tag_val(1, <i32 as Encodable>::wire())));
        }
        encode_field_precomputed::<i32>(&self.value, s, tag.as_slice());
    }
}

impl DecodableMessage for Int32Message {
    open spec fn tag_bits() -> u32 {
        8
    }

    open spec fn fresh() -> Int32Message {
        Int32Message { value: 0 }
    }

    open spec fn dec_field(m: Int32Message, tag: u64, s: Seq<u8>) -> Result<
        (Int32Message, int),
        DecodingError,
    > {
        if tag == 8 {
            match <i32 as Decodable>::dec(s) {
                Ok((v, k)) => Ok((Int32Message { value: v }, k)),
                Err(e) => Err(e),
            }
        } else {
            skip_field_dec(m, tag, s)
        }
    }

    proof fn lemma_tag_bits() {
    }

    proof fn lemma_dec_field_len(m: Int32Message, tag: u64, s: Seq<u8>) {
        <i32 as Decodable>::lemma_dec_len(s);
        crate::wire_types::lemma_skip_field_len(m, tag, s);
    }

    fn tag_bits_exec() -> u32 {
        8
    }

    fn fresh_exec() -> Int32Message {
        Int32Message { value: 0 }
    }

    fn decode_field(&mut self, d: &mut Deserializer, tag: u64) -> (r: Result<(), DecodingError>) {
        if tag == 8 {
            Decodable::merge_from(&mut self.value, d)
        } else {
            skip_unknown(d, tag)
        }
    }
}

/// A record with a single string field, number 2.
#[derive(Clone, PartialEq, Eq, Debug)]
pub struct StrMessage {
    pub text: String,
}

impl View for StrMessage {
    type V = Seq<char>;

    open spec fn view(&self) -> Seq<char> {
        self.text@
    }
}

impl EncodableMessage for StrMessage {
    open spec fn msg_enc(m: Seq<char>) -> Seq<u8> {
        field_enc::<String>(2, m)
    }

    open spec fn msg_ok(m: Seq<char>) -> bool {
        <String as Encodable>::enc_ok(m)
    }

    proof fn lemma_msg_ok(m: Seq<char>) {
        lemma_small_field_numbers();
        lemma_varint_enc_small(tag_val(2, WireTypes::LengthDelimitedWire));
        lemma_varint_enc_small(vstd::utf8::encode_utf8(m).len() as nat);
        <String as Encodable>::lemma_enc_ok(m);
    }

    fn encoded_size(&self) -> (r: usize) {
        proof {
            lemma_small_field_numbers();
            Self::lemma_msg_ok(self@);
        }
        encoded_size::<String>(&self.text, 2)
    }

    fn encode(&self, s: &mut ProtobufSerializer) {
        proof {
            lemma_small_field_numbers();
        }
        let tag = precompute_field_varint(2, WireTypes::LengthDelimitedWire);
        proof {
            assert(tag@ == varint_enc(tag_val(2, <String as Encodable>::wire())));
        }
        encode_field_precomputed::<String>(&self.text, s, tag.as_slice());
    }
}

impl DecodableMessage for StrMessage {
    open spec fn tag_bits() -> u32 {
        8
    }

    open spec fn fresh() -> Seq<char> {
        Seq::empty()
    }

    open spec fn dec_field(m: Seq<char>, tag: u64, s: Seq<u8>) -> Result<
        (Seq<char>, int),
        DecodingError,
    > {
        if tag == 18 {
            match <String as Decodable>::dec(s) {
                Ok((v, k)) => Ok((v, k)),
                Err(e) => Err(e),
            }
        } else {
            skip_field_dec(m, tag, s)
        }
    }

    proof fn lemma_tag_bits() {
    }

    proof fn lemma_dec_field_len(m: Seq<char>, tag: u64, s: Seq<u8>) {
        <String as Decodable>::lemma_dec_len(s);
        crate::wire_types::lemma_skip_field_len(m, tag, s);
    }

    fn tag_bits_exec() -> u32 {
        8
    }

    fn fresh_exec() -> (r: StrMessage) {
        let r = StrMessage { text: String::new() };
        proof {
            assert(r@ =~= Seq::<char>::empty());
        }
        r
    }

    fn decode_field(&mut self, d: &mut Deserializer, tag: u64) -> (r: Result<(), DecodingError>) {
        if tag == 18 {
            Decodable::merge_from(&mut self.text, d)
        } else {
            skip_unknown(d, tag)
        }
    }
}

/// A record with a single repeated varint field, number 3.
#[derive(Clone, PartialEq, Eq, Debug)]
pub struct Numbers {
    pub values: Repeated<Vec<u32>>,
}

impl View for Numbers {
    type V = Seq<u32>;

    open spec fn view(&self) -> Seq<u32> {
        self.values@
    }
}

impl EncodableMessage for Numbers {
    open spec fn msg_enc(m: Seq<u32>) -> Seq<u8> {
        rep_enc::<u32>(3, m)
    }

    open spec fn msg_ok(m: Seq<u32>) -> bool {
        rep_enc::<u32>(3, m).len() + 32 <= usize::MAX
    }

    proof fn lemma_msg_ok(m: Seq<u32>) {
    }

    fn encoded_size(&self) -> (r: usize) {
        proof {
            lemma_small_field_numbers();
        }
        self.values.encoded_size(3)
    }

    fn encode(&self, s: &mut ProtobufSerializer) {
        proof {
            lemma_small_field_numbers();
        }
        self.values.encode_field(s, 3)
    }
}

impl DecodableMessage for Numbers {
    open spec fn tag_bits() -> u32 {
        8
    }

    open spec fn fresh() -> Seq<u32> {
        Seq::empty()
    }

    open spec fn dec_field(m: Seq<u32>, tag: u64, s: Seq<u8>) -> Result<
        (Seq<u32>, int),
        DecodingError,
    > {
        if tag == 24 {
            match <Repeated<Vec<u32>> as Decodable>::dec(s) {
                Ok((v, k)) => Ok((m + v, k)),
                Err(e) => Err(e),
            }
        } else {
            skip_field_dec(m, tag, s)
        }
    }

    proof fn lemma_tag_bits() {
    }

    proof fn lemma_dec_field_len(m: Seq<u32>, tag: u64, s: Seq<u8>) {
        <Repeated<Vec<u32>> as Decodable>::lemma_dec_len(s);
        crate::wire_types::lemma_skip_field_len(m, tag, s);
    }

    fn tag_bits_exec() -> u32 {
        8
    }

    fn fresh_exec() -> (r: Numbers) {
        let r = Numbers { values: Repeated::new(Vec::new()) };
        proof {
            crate::repeated::lemma_repeated_view(r.values);
            assert(r@ =~= Seq::<u32>::empty());
        }
        r
    }

    fn decode_field(&mut self, d: &mut Deserializer, tag: u64) -> (r: Result<(), DecodingError>) {
        if tag == 24 {
            Decodable::merge_from(&mut self.values, d)
        } else {
            skip_unknown(d, tag)
        }
    }
}

/// A record with a single map field, number 7.
#[derive(Clone, PartialEq, Eq, Debug)]
pub struct Dict {
    pub entries: crate::map::MapField<String, i32>,
}

impl View for Dict {
    type V = Seq<(Seq<char>, i32)>;

    open spec fn view(&self) -> Seq<(Seq<char>, i32)> {
        self.entries@
    }
}

impl EncodableMessage for Dict {
    open spec fn msg_enc(m: Seq<(Seq<char>, i32)>) -> Seq<u8> {
        crate::map::map_enc::<String, i32>(7, m)
    }

    open spec fn msg_ok(m: Seq<(Seq<char>, i32)>) -> bool {
        crate::map::map_ok::<String, i32>(m) && crate::map::map_enc::<String, i32>(7, m).len() + 32
            <= usize::MAX
    }

    proof fn lemma_msg_ok(m: Seq<(Seq<char>, i32)>) {
    }

    fn encoded_size(&self) -> (r: usize) {
        proof {
            lemma_small_field_numbers();
        }
        self.entries.encoded_size(7)
    }

    fn encode(&self, s: &mut ProtobufSerializer) {
        proof {
            lemma_small_field_numbers();
        }
        self.entries.encode_field(s, 7)
    }
}

impl DecodableMessage for Dict {
    open spec fn tag_bits() -> u32 {
        8
    }

    open spec fn fresh() -> Seq<(Seq<char>, i32)> {
        Seq::empty()
    }

    open spec fn dec_field(m: Seq<(Seq<char>, i32)>, tag: u64, s: Seq<u8>) -> Result<
        (Seq<(Seq<char>, i32)>, int),
        DecodingError,
    > {
        if tag == 58 {
            match <crate::map::MapField<String, i32> as Decodable>::dec(s) {
                Ok((v, k)) => Ok((crate::map::map_merge(m, v), k)),
                Err(e) => Err(e),
            }
        } else {
            skip_field_dec(m, tag, s)
        }
    }

    proof fn lemma_tag_bits() {
    }

    proof fn lemma_dec_field_len(m: Seq<(Seq<char>, i32)>, tag: u64, s: Seq<u8>) {
        <crate::map::MapField<String, i32> as Decodable>::lemma_dec_len(s);
        crate::wire_types::lemma_skip_field_len(m, tag, s);
    }

    fn tag_bits_exec() -> u32 {
        8
    }

    fn fresh_exec() -> (r: Dict) {
        let r = Dict { entries: crate::map::MapField::new(Vec::new()) };
        proof {
            crate::map::lemma_map_field_view(r.entries);
            assert(r@ =~= Seq::<(Seq<char>, i32)>::empty());
        }
        r
    }

    fn decode_field(&mut self, d: &mut Deserializer, tag: u64) -> (r: Result<(), DecodingError>) {
        if tag == 58 {
            Decodable::merge_from(&mut self.entries, d)
        } else {
            skip_unknown(d, tag)
        }
    }
}

/// A record exercising the remaining value shapes: a boolean, both fixed
/// words, a zig-zag signed value and an enumeration.
#[derive(Clone, Copy, Debug)]
pub struct Sensor {
    pub active: bool,
    pub reading: crate::Fixed32,
    pub total: crate::Fixed64,
    pub delta: crate::Signed<i64>,
    pub state: Foo,
}

impl View for Sensor {
    type V = (bool, u32, u64, u64, Foo);

    open spec fn view(&self) -> (bool, u32, u64, u64, Foo) {
        (self.active, self.reading@, self.total@, self.delta@, self.state)
    }
}

impl EncodableMessage for Sensor {
    open spec fn msg_enc(m: (bool, u32, u64, u64, Foo)) -> Seq<u8> {
        field_enc::<bool>(1, m.0) + field_enc::<crate::Fixed32>(2, m.1) + field_enc::<
            crate::Fixed64,
        >(3, m.2) + field_enc::<crate::Signed<i64>>(4, m.3) + field_enc::<Foo>(5, m.4)
    }

    open spec fn msg_ok(m: (bool, u32, u64, u64, Foo)) -> bool {
        true
    }

    proof fn lemma_msg_ok(m: (bool, u32, u64, u64, Foo)) {
        lemma2_to64();
        lemma2_to64_rest();
        lemma_varint_enc_small(m.3 as nat);
        lemma_varint_enc_small(foo_discr(m.4));
        lemma_varint_enc_small(tag_val(1, WireTypes::VarIntWire));
        lemma_varint_enc_small(tag_val(2, WireTypes::Fixed32Wire));
        lemma_varint_enc_small(tag_val(3, WireTypes::Fixed64Wire));
        lemma_varint_enc_small(tag_val(4, WireTypes::VarIntWire));
        lemma_varint_enc_small(tag_val(5, WireTypes::VarIntWire));
    }

    fn encoded_size(&self) -> (r: usize) {
        proof {
            lemma_small_field_numbers();
            lemma_sensor_field_numbers();
            Self::lemma_msg_ok(self@);
        }
        encoded_size::<bool>(&self.active, 1) + encoded_size::<crate::Fixed32>(&self.reading, 2)
            + encoded_size::<crate::Fixed64>(&self.total, 3) + encoded_size::<crate::Signed<i64>>(
            &self.delta,
            4,
        ) + encoded_size::<Foo>(&self.state, 5)
    }

    fn encode(&self, s: &mut ProtobufSerializer) {
        proof {
            lemma_small_field_numbers();
            lemma_sensor_field_numbers();
        }
        encode_field::<bool>(&self.active, s, 1);
        encode_field::<crate::Fixed32>(&self.reading, s, 2);
        encode_field::<crate::Fixed64>(&self.total, s, 3);
        encode_field::<crate::Signed<i64>>(&self.delta, s, 4);
        encode_field::<Foo>(&self.state, s, 5);
        proof {
            assert(s@ =~= old(s)@ + Self::msg_enc(self@));
        }
    }
}

proof fn lemma_sensor_field_numbers()
    ensures
        field_number_ok(4),
        field_number_ok(5),
        tag_val(1, WireTypes::VarIntWire) == 8,
        tag_val(2, WireTypes::Fixed32Wire) == 21,
        tag_val(3, WireTypes::Fixed64Wire) == 25,
        tag_val(4, WireTypes::VarIntWire) == 32,
        tag_val(5, WireTypes::VarIntWire) == 40,
{
    lemma2_to64();
    lemma2_to64_rest();
    assert(pow2(61) == 0x2000000000000000);
}

impl DecodableMessage for Sensor {
    open spec fn tag_bits() -> u32 {
        8
    }

    open spec fn fresh() -> (bool, u32, u64, u64, Foo) {
        (false, 0, 0, 0, Foo::Bar)
    }

    open spec fn dec_field(m: (bool, u32, u64, u64, Foo), tag: u64, s: Seq<u8>) -> Result<
        ((bool, u32, u64, u64, Foo), int),
        DecodingError,
    > {
        if tag == 8 {
            match <bool as Decodable>::dec(s) {
                Ok((v, k)) => Ok(((v, m.1, m.2, m.3, m.4), k)),
                Err(e) => Err(e),
            }
        } else if tag == 21 {
            match <crate::Fixed32 as Decodable>::dec(s) {
                Ok((v, k)) => Ok(((m.0, v, m.2, m.3, m.4), k)),
                Err(e) => Err(e),
            }
        } else if tag == 25 {
            match <crate::Fixed64 as Decodable>::dec(s) {
                Ok((v, k)) => Ok(((m.0, m.1, v, m.3, m.4), k)),
                Err(e) => Err(e),
            }
        } else if tag == 32 {
            match <crate::Signed<i64> as Decodable>::dec(s) {
                Ok((v, k)) => Ok(((m.0, m.1, m.2, v, m.4), k)),
                Err(e) => Err(e),
            }
        } else if tag == 40 {
            match <Foo as Decodable>::dec(s) {
                Ok((v, k)) => Ok(((m.0, m.1, m.2, m.3, v), k)),
                Err(e) => Err(e),
            }
        } else {
            skip_field_dec(m, tag, s)
        }
    }

    proof fn lemma_tag_bits() {
    }

    proof fn lemma_dec_field_len(m: (bool, u32, u64, u64, Foo), tag: u64, s: Seq<u8>) {
        <crate::Fixed32 as Decodable>::lemma_dec_len(s);
        <crate::Fixed64 as Decodable>::lemma_dec_len(s);
        <crate::Signed<i64> as Decodable>::lemma_dec_len(s);
        <Foo as Decodable>::lemma_dec_len(s);
        crate::wire_types::lemma_skip_field_len(m, tag, s);
    }

    fn tag_bits_exec() -> u32 {
        8
    }

    fn fresh_exec() -> (r: Sensor) {
        let r = Sensor {
            active: false,
            reading: crate::Fixed32(0),
            total: crate::Fixed64(0),
            delta: crate::Signed { stored: 0 },
            state: Foo::Bar,
        };
        proof {
            crate::lemma_signed64_view(r.delta);
        }
        r
    }

    fn decode_field(&mut self, d: &mut Deserializer, tag: u64) -> (r: Result<(), DecodingError>) {
        if tag == 8 {
            Decodable::merge_from(&mut self.active, d)
        } else if tag == 21 {
            Decodable::merge_from(&mut self.reading, d)
        } else if tag == 25 {
            Decodable::merge_from(&mut self.total, d)
        } else if tag == 32 {
            Decodable::merge_from(&mut self.delta, d)
        } else if tag == 40 {
            Decodable::merge_from(&mut self.state, d)
        } else {
            skip_unknown(d, tag)
        }
    }
}

/// A sample enumeration with the required default variant at discriminant
/// zero.
#[derive(Clone, Copy, PartialEq, Eq, Structural, Debug)]
pub enum Foo {
    Bar,
    Baz,
    Qux,
}

impl View for Foo {
    type V = Foo;

    open spec fn view(&self) -> Foo {
        *self
    }
}

impl Default for Foo {
    /// The variant with discriminant zero.
    fn default() -> (r: Foo)
        ensures
            r == Foo::Bar,
    {
        Foo::Bar
    }
}

/// The wire discriminant of each variant.
pub open spec fn foo_discr(m: Foo) -> nat {
    match m {
        Foo::Bar => 0,
        Foo::Baz => 1,
        Foo::Qux => 2,
    }
}

/// The variant a decoded discriminant names; anything unknown falls back to
/// the default, for forward compatibility with newer producers.
pub open spec fn foo_of_discr(n: nat) -> Foo {
    if n == 1 {
        Foo::Baz
    } else if n == 2 {
        Foo::Qux
    } else {
        Foo::Bar
    }
}

impl Encodable for Foo {
    open spec fn wire() -> WireTypes {
        WireTypes::VarIntWire
    }

    open spec fn enc(m: Foo) -> Seq<u8> {
        varint_enc(foo_discr(m))
    }

    open spec fn enc_ok(m: Foo) -> bool {
        true
    }

    proof fn lemma_enc_ok(m: Foo) {
        lemma_varint_enc_small(foo_discr(m));
    }

    fn wire_exec() -> WireTypes {
        WireTypes::VarIntWire
    }

    fn payload_size(&self) -> usize {
        proof {
            crate::varint::lemma_varint_len_lower(foo_discr(*self));
            crate::varint::lemma_varint_enc_len(foo_discr(*self));
        }
        1
    }

    fn encode(&self, s: &mut ProtobufSerializer) {
        let bytes = crate::metadata::variant_varint_bytes(
            match self {
                Foo::Bar => 0,
                Foo::Baz => 1,
                Foo::Qux => 2,
            },
        );
        s.write_bytes(bytes.as_slice());
    }
}

impl Decodable for Foo {
    open spec fn dec(s: Seq<u8>) -> Result<(Foo, int), DecodingError> {
        match crate::varint::vdec(s, 8) {
            crate::varint::VarintRead::Value { n, len } => Ok((foo_of_discr(n), len as int)),
            crate::varint::VarintRead::Error { err, len } => if err == DecodingError::Eof {
                Err(DecodingError::Eof)
            } else {
                // A discriminant too wide for the storage is drained whole
                // and falls back to the default variant: an unknown
                // discriminant from a newer producer is never an error.
                match crate::varint::varint_total_len(s) {
                    Some(t) => Ok((Foo::Bar, t)),
                    None => Err(DecodingError::Eof),
                }
            },
        }
    }

    open spec fn merge_spec(m: Foo, other: Foo) -> Foo {
        other
    }

    proof fn lemma_dec_len(s: Seq<u8>) {
        crate::varint::lemma_vdec_bounds(s, 8);
        crate::varint::lemma_varint_total_len_bounds(s);
    }

    fn decode(d: &mut Deserializer) -> Result<Self, DecodingError> {
        proof {
            if old(d).window().len() > 0 {
                crate::varint::lemma_ftag_bounds(old(d).window(), 8);
            }
            crate::varint::lemma_vdec_bounds(old(d).window(), 8);
            crate::varint::lemma_varint_total_len_bounds(old(d).window());
            lemma2_to64();
        }
        match d.read_field_tag(8) {
            Ok(tag) => {
                if tag == 1 {
                    Ok(Foo::Baz)
                } else if tag == 2 {
                    Ok(Foo::Qux)
                } else {
                    Ok(Foo::Bar)
                }
            },
            Err(Ok(_)) => Ok(Foo::Bar),
            Err(Err(e)) => match e {
                DecodingError::Eof => Err(DecodingError::Eof),
                _ => Ok(Foo::Bar),
            },
        }
    }

    fn merge(&mut self, other: Self) {
        *self = other;
    }

    fn merge_from(&mut self, d: &mut Deserializer) -> Result<(), DecodingError> {
        match <Foo as Decodable>::decode(d) {
            Ok(v) => {
                *self = v;
                Ok(())
            },
            Err(e) => Err(e),
        }
    }
}

} // verus!
