//! Map fields: each entry goes on the wire as a length-delimited sub-message
//! whose key is field 1 and whose value is field 2, both with one-byte
//! precomputed tags.

use crate::decoding::{
    Decodable, DecodableMessage, DecodingError, Deserializer,
};
use crate::impls::dec_message;
use crate::encoding::{
    encode_field, encoded_size, field_enc, field_number_ok, Encodable, ProtobufSerializer,
};
use crate::varint::{lemma_varint_enc_small, varint_enc};
use crate::wire_types::{skip_field_dec, skip_unknown, tag_val, WireTypes};
use vstd::arithmetic::power2::{lemma2_to64, lemma2_to64_rest, pow2};
use vstd::prelude::*;

verus! {

/// A value shape with a default, supplied when a map entry leaves its key or
/// value out.
pub trait HasDefault: View + Sized {
    /// The model of the default value.
    spec fn default_model() -> Self::V;

    /// The default value.
    fn default_value() -> (r: Self)
        ensures
            r@ == Self::default_model(),
    ;
}

impl HasDefault for u32 {
    open spec fn default_model() -> u32 {
        0
    }

    fn default_value() -> u32 {
        0
    }
}

impl HasDefault for u64 {
    open spec fn default_model() -> u64 {
        0
    }

    fn default_value() -> u64 {
        0
    }
}

impl HasDefault for i32 {
    open spec fn default_model() -> i32 {
        0
    }

    fn default_value() -> i32 {
        0
    }
}

impl HasDefault for i64 {
    open spec fn default_model() -> i64 {
        0
    }

    fn default_value() -> i64 {
        0
    }
}

impl HasDefault for bool {
    open spec fn default_model() -> bool {
        false
    }

    fn default_value() -> bool {
        false
    }
}

impl HasDefault for String {
    open spec fn default_model() -> Seq<char> {
        Seq::empty()
    }

    fn default_value() -> (r: String) {
        let r = String::new();
        proof {
            assert(r@ =~= Seq::<char>::empty());
        }
        r
    }
}

impl HasDefault for Vec<u8> {
    open spec fn default_model() -> Seq<u8> {
        Seq::empty()
    }

    fn default_value() -> (r: Vec<u8>) {
        let r = Vec::new();
        proof {
            assert(r@ =~= Seq::<u8>::empty());
        }
        r
    }
}

/// A key type whose equality is decidable and agrees with view equality,
/// so a map can find the entry a new occurrence overwrites.
pub trait KeyEq: View + Sized {
    /// Whether two keys are the same key.
    fn key_eq(&self, other: &Self) -> (r: bool)
        ensures
            r == (self@ == other@),
    ;
}

impl KeyEq for String {
    fn key_eq(&self, other: &Self) -> (r: bool) {
        self.eq(other)
    }
}

impl KeyEq for u16 {
    fn key_eq(&self, other: &Self) -> (r: bool) {
        *self == *other
    }
}

impl KeyEq for u32 {
    fn key_eq(&self, other: &Self) -> (r: bool) {
        *self == *other
    }
}

impl KeyEq for u64 {
    fn key_eq(&self, other: &Self) -> (r: bool) {
        *self == *other
    }
}

impl KeyEq for usize {
    fn key_eq(&self, other: &Self) -> (r: bool) {
        *self == *other
    }
}

impl KeyEq for i32 {
    fn key_eq(&self, other: &Self) -> (r: bool) {
        *self == *other
    }
}

impl KeyEq for i64 {
    fn key_eq(&self, other: &Self) -> (r: bool) {
        *self == *other
    }
}

impl KeyEq for bool {
    fn key_eq(&self, other: &Self) -> (r: bool) {
        *self == *other
    }
}

/// The position of the first entry holding `k`, or a negative value when no
/// entry does.
pub open spec fn map_key_index<KV, TV>(m: Seq<(KV, TV)>, k: KV) -> int
    decreases m.len(),
{
    if m.len() == 0 {
        -1
    } else if m[0].0 == k {
        0
    } else {
        let r = map_key_index(m.skip(1), k);
        if r < 0 {
            -1
        } else {
            r + 1
        }
    }
}

/// What inserting one entry into a map means: a present key is overwritten
/// in place, an absent one is appended.
pub open spec fn map_insert<KV, TV>(m: Seq<(KV, TV)>, k: KV, v: TV) -> Seq<(KV, TV)> {
    let j = map_key_index(m, k);
    if j < 0 {
        m.push((k, v))
    } else {
        m.update(j, (k, v))
    }
}

/// Merging maps inserts the later map's entries in order: a shared key takes
/// the later value, a new key is appended.
pub open spec fn map_merge<KV, TV>(m: Seq<(KV, TV)>, other: Seq<(KV, TV)>) -> Seq<(KV, TV)>
    decreases other.len(),
{
    if other.len() == 0 {
        m
    } else {
        map_merge(map_insert(m, other[0].0, other[0].1), other.skip(1))
    }
}

/// `map_key_index` finds the first matching entry, and a negative result
/// means no entry matches.
pub proof fn lemma_map_key_index<KV, TV>(m: Seq<(KV, TV)>, k: KV)
    ensures
        -1 <= map_key_index(m, k) < m.len(),
        map_key_index(m, k) >= 0 ==> m[map_key_index(m, k)].0 == k && forall|i: int|
            0 <= i < map_key_index(m, k) ==> (#[trigger] m[i]).0 != k,
        map_key_index(m, k) < 0 ==> forall|i: int| 0 <= i < m.len() ==> (#[trigger] m[i]).0 != k,
    decreases m.len(),
{
    if m.len() > 0 && m[0].0 != k {
        lemma_map_key_index(m.skip(1), k);
        let r = map_key_index(m.skip(1), k);
        if r >= 0 {
            assert forall|i: int| 0 <= i < r + 1 implies (#[trigger] m[i]).0 != k by {
                if i > 0 {
                    assert(m.skip(1)[i - 1] == m[i]);
                }
            };
        } else {
            assert forall|i: int| 0 <= i < m.len() implies (#[trigger] m[i]).0 != k by {
                if i > 0 {
                    assert(m.skip(1)[i - 1] == m[i]);
                }
            };
        }
    }
}

/// A map field carried as a list of entries in insertion order.
#[derive(Clone, PartialEq, Eq, Debug)]
pub struct MapField<K, T> {
    entries: Vec<(K, T)>,
}

impl<K, T> MapField<K, T> {
    /// The entries inside.
    pub closed spec fn spec_entries(&self) -> Seq<(K, T)> {
        self.entries@
    }

    /// Wraps a list of entries.
    pub fn new(entries: Vec<(K, T)>) -> (r: Self)
        ensures
            r.spec_entries() == entries@,
    {
        MapField { entries }
    }

    /// Hands the entries back.
    pub fn into_entries(self) -> (r: Vec<(K, T)>)
        ensures
            r@ == self.spec_entries(),
    {
        self.entries
    }
}

/// The views of a list of entries, in order.
pub open spec fn entries_view<K: View, T: View>(es: Seq<(K, T)>) -> Seq<(K::V, T::V)> {
    Seq::new(es.len(), |i: int| (es[i].0@, es[i].1@))
}

impl<K: View, T: View> View for MapField<K, T> {
    type V = Seq<(K::V, T::V)>;

    closed spec fn view(&self) -> Seq<(K::V, T::V)> {
        entries_view(self.entries@)
    }
}

/// The view of a map field is its entries' views, in order.
pub broadcast proof fn lemma_map_field_view<K: View, T: View>(m: MapField<K, T>)
    ensures
        #[trigger] m@ == entries_view(m.spec_entries()),
{
}

impl<K: KeyEq, T: View> MapField<K, T> {
    /// Inserts one entry: a present key is overwritten in place, an absent
    /// one is appended.
    #[verifier::loop_isolation(false)]
    pub fn insert_entry(&mut self, key: K, value: T)
        ensures
            final(self)@ == map_insert(old(self)@, key@, value@),
    {
        let ghost m = old(self)@;
        proof {
            lemma_map_key_index(m, key@);
        }
        let n = self.entries.len();
        let mut i: usize = 0;
        while i < n
            invariant
                self.entries@ == old(self).entries@,
                n == self.entries@.len(),
                0 <= i <= n,
                forall|j: int| 0 <= j < i ==> (#[trigger] m[j]).0 != key@,
            decreases n - i,
        {
            if self.entries[i].0.key_eq(&key) {
                proof {
                    assert(m[i as int].0 == self.entries@[i as int].0@);
                    assert(map_key_index(m, key@) == i);
                }
                self.entries[i] = (key, value);
                proof {
                    assert(self@ =~= m.update(i as int, (key@, value@)));
                }
                return;
            }
            proof {
                assert(m[i as int].0 == self.entries@[i as int].0@);
            }
            i = i + 1;
        }
        proof {
            assert(map_key_index(m, key@) < 0);
        }
        self.entries.push((key, value));
        proof {
            assert(self@ =~= m.push((key@, value@)));
        }
    }
}

/// The bytes of one entry's sub-message body: the key as field 1, the value
/// as field 2.
pub open spec fn map_entry_enc<K: Encodable, T: Encodable>(k: K::V, v: T::V) -> Seq<u8> {
    field_enc::<K>(1, k) + field_enc::<T>(2, v)
}

/// The wire bytes of a whole map field: each entry framed as a
/// length-delimited sub-message under the field's tag.
pub open spec fn map_enc<K: Encodable, T: Encodable>(
    field_number: nat,
    m: Seq<(K::V, T::V)>,
) -> Seq<u8>
    decreases m.len(),
{
    if m.len() == 0 {
        Seq::empty()
    } else {
        let entry = map_entry_enc::<K, T>(m[0].0, m[0].1);
        varint_enc(tag_val(field_number, WireTypes::LengthDelimitedWire)) + varint_enc(
            entry.len() as nat,
        ) + entry + map_enc::<K, T>(field_number, m.skip(1))
    }
}

/// Every entry of a map field is encodable and its sub-message small.
pub open spec fn map_ok<K: Encodable, T: Encodable>(m: Seq<(K::V, T::V)>) -> bool {
    forall|i: int|
        0 <= i < m.len() ==> {
            let kv = #[trigger] m[i];
            K::enc_ok(kv.0) && T::enc_ok(kv.1) && map_entry_enc::<K, T>(kv.0, kv.1).len()
                <= usize::MAX
        }
}

/// A map encoding splits at any entry boundary.
pub proof fn lemma_map_enc_split<K: Encodable, T: Encodable>(
    field_number: nat,
    m: Seq<(K::V, T::V)>,
    i: int,
)
    requires
        0 <= i <= m.len(),
    ensures
        map_enc::<K, T>(field_number, m) == map_enc::<K, T>(field_number, m.take(i)) + map_enc::<
            K,
            T,
        >(field_number, m.skip(i)),
    decreases i,
{
    if i == 0 {
        assert(m.take(0) =~= Seq::<(K::V, T::V)>::empty());
        assert(m.skip(0) =~= m);
        assert(map_enc::<K, T>(field_number, m) =~= map_enc::<K, T>(field_number, m.take(0))
            + map_enc::<K, T>(field_number, m.skip(0)));
    } else {
        lemma_map_enc_split::<K, T>(field_number, m.skip(1), i - 1);
        assert(m.skip(1).take(i - 1) =~= m.take(i).skip(1));
        assert(m.skip(1).skip(i - 1) =~= m.skip(i));
        assert(m.take(i)[0] == m[0] && m.take(i).len() == i);
        assert(map_enc::<K, T>(field_number, m) =~= map_enc::<K, T>(field_number, m.take(i))
            + map_enc::<K, T>(field_number, m.skip(i)));
    }
}

/// A map field of one entry is that entry's framed sub-message.
pub proof fn lemma_map_enc_one<K: Encodable, T: Encodable>(field_number: nat, k: K::V, v: T::V)
    ensures
        map_enc::<K, T>(field_number, seq![(k, v)]) == varint_enc(
            tag_val(field_number, WireTypes::LengthDelimitedWire),
        ) + varint_enc(map_entry_enc::<K, T>(k, v).len() as nat) + map_entry_enc::<K, T>(k, v),
{
    let one = seq![(k, v)];
    assert(one.skip(1) =~= Seq::<(K::V, T::V)>::empty());
    assert(map_enc::<K, T>(field_number, Seq::<(K::V, T::V)>::empty()) =~= Seq::<u8>::empty());
    assert(one[0] == (k, v));
    assert(map_enc::<K, T>(field_number, one) =~= varint_enc(
        tag_val(field_number, WireTypes::LengthDelimitedWire),
    ) + varint_enc(map_entry_enc::<K, T>(k, v).len() as nat) + map_entry_enc::<K, T>(k, v));
}

impl<K: Encodable, T: Encodable> MapField<K, T> {
    /// The size of one entry's sub-message body.
    fn entry_size(key: &K, value: &T) -> (r: usize)
        requires
            K::enc_ok(key@),
            T::enc_ok(value@),
            map_entry_enc::<K, T>(key@, value@).len() <= usize::MAX,
        ensures
            r == map_entry_enc::<K, T>(key@, value@).len(),
    {
        proof {
            lemma2_to64();
            lemma2_to64_rest();
            assert(field_number_ok(1) && field_number_ok(2)) by {
                assert(pow2(61) == 0x2000000000000000);
            };
        }
        encoded_size::<K>(key, 1) + encoded_size::<T>(value, 2)
    }

    /// Emits the whole map field: every entry framed under the field's tag,
    /// with one-byte precomputed tags inside the frame.
    #[verifier::rlimit(50)]
    pub fn encode_field(&self, s: &mut ProtobufSerializer, field_number: u64)
        requires
            field_number_ok(field_number as nat),
            map_ok::<K, T>(self@),
        ensures
            final(s)@ == old(s)@ + map_enc::<K, T>(field_number as nat, self@),
    {
        let ghost m = self@;
        let ghost start = s@;
        proof {
            crate::encoding::lemma_tag_fits(field_number as nat, WireTypes::LengthDelimitedWire);
            assert(m.take(0) =~= Seq::<(K::V, T::V)>::empty());
            assert(start + map_enc::<K, T>(field_number as nat, m.take(0)) =~= start);
        }
        let tag = field_number * 8 + WireTypes::LengthDelimitedWire.bits() as u64;
        let mut i: usize = 0;
        let n = self.entries.len();
        while i < n
            invariant
                n == self.entries.len(),
                m == self@,
                tag == tag_val(field_number as nat, WireTypes::LengthDelimitedWire),
                0 <= i <= n,
                field_number_ok(field_number as nat),
                map_ok::<K, T>(m),
                s@ == start + map_enc::<K, T>(field_number as nat, m.take(i as int)),
            decreases n - i,
        {
            proof {
                assert(m[i as int] == (self.entries@[i as int].0@, self.entries@[i as int].1@));
                assert(K::enc_ok(m[i as int].0) && T::enc_ok(m[i as int].1));
                lemma2_to64();
                lemma2_to64_rest();
                assert(field_number_ok(1) && field_number_ok(2)) by {
                    assert(pow2(61) == 0x2000000000000000);
                };
            }
            let entry = &self.entries[i];
            let size = Self::entry_size(&entry.0, &entry.1);
            s.write_varint(tag);
            s.write_varint(size as u64);
            encode_field::<K>(&entry.0, s, 1);
            encode_field::<T>(&entry.1, s, 2);
            proof {
                let kv = m[i as int];
                assert(m.take(i + 1) =~= m.take(i as int) + seq![kv]);
                lemma_map_enc_split::<K, T>(field_number as nat, m.take(i + 1), i as int);
                assert(m.take(i + 1).take(i as int) =~= m.take(i as int));
                assert(m.take(i + 1).skip(i as int) =~= seq![kv]);
                lemma_map_enc_one::<K, T>(field_number as nat, kv.0, kv.1);
                assert(s@ =~= start + map_enc::<K, T>(field_number as nat, m.take(i + 1)));
            }
            i = i + 1;
        }
        proof {
            assert(m.take(n as int) =~= m);
        }
    }

    /// The size of the whole map field.
    pub fn encoded_size(&self, field_number: u64) -> (r: usize)
        requires
            field_number_ok(field_number as nat),
            map_ok::<K, T>(self@),
            map_enc::<K, T>(field_number as nat, self@).len() <= usize::MAX,
        ensures
            r == map_enc::<K, T>(field_number as nat, self@).len(),
    {
        let ghost m = self@;
        proof {
            crate::encoding::lemma_tag_fits(field_number as nat, WireTypes::LengthDelimitedWire);
            assert(m.take(0) =~= Seq::<(K::V, T::V)>::empty());
        }
        let tag = field_number * 8 + WireTypes::LengthDelimitedWire.bits() as u64;
        let mut total: usize = 0;
        let mut i: usize = 0;
        let n = self.entries.len();
        while i < n
            invariant
                n == self.entries.len(),
                m == self@,
                tag == tag_val(field_number as nat, WireTypes::LengthDelimitedWire),
                0 <= i <= n,
                field_number_ok(field_number as nat),
                map_ok::<K, T>(m),
                map_enc::<K, T>(field_number as nat, m).len() <= usize::MAX,
                total == map_enc::<K, T>(field_number as nat, m.take(i as int)).len(),
            decreases n - i,
        {
            proof {
                assert(m[i as int] == (self.entries@[i as int].0@, self.entries@[i as int].1@));
                assert(K::enc_ok(m[i as int].0) && T::enc_ok(m[i as int].1));
                lemma2_to64();
                lemma2_to64_rest();
                assert(field_number_ok(1) && field_number_ok(2)) by {
                    assert(pow2(61) == 0x2000000000000000);
                };
                let kv = m[i as int];
                lemma_map_enc_split::<K, T>(field_number as nat, m, i as int);
                lemma_map_enc_split::<K, T>(field_number as nat, m, i + 1);
                assert(m.take(i + 1) =~= m.take(i as int) + seq![kv]);
                lemma_map_enc_split::<K, T>(field_number as nat, m.take(i + 1), i as int);
                assert(m.take(i + 1).take(i as int) =~= m.take(i as int));
                assert(m.take(i + 1).skip(i as int) =~= seq![kv]);
                lemma_map_enc_one::<K, T>(field_number as nat, kv.0, kv.1);
                lemma_varint_enc_small(tag_val(field_number as nat, WireTypes::LengthDelimitedWire));
                lemma_varint_enc_small(map_entry_enc::<K, T>(kv.0, kv.1).len() as nat);
            }
            let entry = &self.entries[i];
            let size = Self::entry_size(&entry.0, &entry.1);
            total = total + crate::encoding::varint_size(tag) + crate::encoding::varint_size(
                size as u64,
            ) + size;
            i = i + 1;
        }
        proof {
            assert(m.take(n as int) =~= m);
        }
        total
    }
}

/// The accumulator a map entry's sub-message decodes into: each inner field
/// is optional until the frame ends, when missing ones take their defaults.
pub struct MapEntry<K, T> {
    pub key: Option<K>,
    pub val: Option<T>,
}

impl<K: View, T: View> View for MapEntry<K, T> {
    type V = (Option<K::V>, Option<T::V>);

    open spec fn view(&self) -> (Option<K::V>, Option<T::V>) {
        (
            match self.key {
                Some(ref k) => Some(k@),
                None => None,
            },
            match self.val {
                Some(ref v) => Some(v@),
                None => None,
            },
        )
    }
}

impl<K: Decodable + Encodable, T: Decodable + Encodable> DecodableMessage for MapEntry<K, T> {
    open spec fn tag_bits() -> u32 {
        8
    }

    open spec fn fresh() -> (Option<K::V>, Option<T::V>) {
        (None, None)
    }

    open spec fn dec_field(m: (Option<K::V>, Option<T::V>), tag: u64, s: Seq<u8>) -> Result<
        ((Option<K::V>, Option<T::V>), int),
        DecodingError,
    > {
        if tag == tag_val(1, K::wire()) {
            match K::dec(s) {
                Ok((v, k)) => Ok(((Some(v), m.1), k)),
                Err(e) => Err(e),
            }
        } else if tag == tag_val(2, T::wire()) {
            match T::dec(s) {
                Ok((v, k)) => Ok(((m.0, Some(v)), k)),
                Err(e) => Err(e),
            }
        } else {
            skip_field_dec(m, tag, s)
        }
    }

    proof fn lemma_tag_bits() {
    }

    proof fn lemma_dec_field_len(m: (Option<K::V>, Option<T::V>), tag: u64, s: Seq<u8>) {
        K::lemma_dec_len(s);
        T::lemma_dec_len(s);
        crate::wire_types::lemma_skip_field_len(m, tag, s);
    }

    fn tag_bits_exec() -> u32 {
        8
    }

    fn fresh_exec() -> (r: MapEntry<K, T>) {
        MapEntry { key: None, val: None }
    }

    fn decode_field(&mut self, d: &mut Deserializer, tag: u64) -> (r: Result<(), DecodingError>) {
        let key_tag = 8u64 + K::wire_exec().bits() as u64;
        let val_tag = 16u64 + T::wire_exec().bits() as u64;
        if tag == key_tag {
            match K::decode(d) {
                Ok(v) => {
                    self.key = Some(v);
                    Ok(())
                },
                Err(e) => Err(e),
            }
        } else if tag == val_tag {
            match T::decode(d) {
                Ok(v) => {
                    self.val = Some(v);
                    Ok(())
                },
                Err(e) => Err(e),
            }
        } else {
            skip_unknown(d, tag)
        }
    }
}

/// What a decoded entry accumulator yields once the frame ends: missing
/// halves take their defaults.
pub open spec fn entry_with_defaults<K: HasDefault, T: HasDefault>(
    m: (Option<K::V>, Option<T::V>),
) -> (K::V, T::V) {
    (
        match m.0 {
            Some(k) => k,
            None => K::default_model(),
        },
        match m.1 {
            Some(v) => v,
            None => T::default_model(),
        },
    )
}

impl<
    K: Decodable + Encodable + HasDefault + KeyEq,
    T: Decodable + Encodable + HasDefault,
> Decodable for MapField<K, T> {
    open spec fn dec(s: Seq<u8>) -> Result<(Seq<(K::V, T::V)>, int), DecodingError> {
        match dec_message::<MapEntry<K, T>>(s) {
            Ok((acc, k)) => Ok((seq![entry_with_defaults::<K, T>(acc)], k)),
            Err(e) => Err(e),
        }
    }

    open spec fn merge_spec(
        m: Seq<(K::V, T::V)>,
        other: Seq<(K::V, T::V)>,
    ) -> Seq<(K::V, T::V)> {
        map_merge(m, other)
    }

    proof fn lemma_dec_len(s: Seq<u8>) {
        <crate::Message<MapEntry<K, T>> as Decodable>::lemma_dec_len(s);
    }

    fn decode(d: &mut Deserializer) -> Result<Self, DecodingError> {
        match <crate::Message<MapEntry<K, T>> as Decodable>::decode(d) {
            Ok(msg) => {
                let acc = msg.into_inner();
                let key = match acc.key {
                    Some(k) => k,
                    None => K::default_value(),
                };
                let val = match acc.val {
                    Some(v) => v,
                    None => T::default_value(),
                };
                let mut entries: Vec<(K, T)> = Vec::new();
                entries.push((key, val));
                let r = MapField { entries };
                proof {
                    assert(r@ =~= seq![entry_with_defaults::<K, T>(
                        (
                            match acc.key {
                                Some(ref k) => Some(k@),
                                None => None,
                            },
                            match acc.val {
                                Some(ref v) => Some(v@),
                                None => None,
                            },
                        ),
                    )]);
                }
                Ok(r)
            },
            Err(e) => Err(e),
        }
    }

    #[verifier::loop_isolation(false)]
    fn merge(&mut self, other: Self) {
        let ghost a = self@;
        let ghost b = other@;
        let mut rest = other.entries;
        proof {
            assert(b =~= entries_view(rest@));
        }
        while rest.len() > 0
            invariant
                map_merge(a, b) == map_merge(self@, entries_view(rest@)),
            decreases rest@.len(),
        {
            let ghost acc = self@;
            let ghost ev = entries_view(rest@);
            let entry = rest.remove(0);
            self.insert_entry(entry.0, entry.1);
            proof {
                assert(entries_view(rest@) =~= ev.skip(1));
                assert(map_merge(acc, ev) == map_merge(self@, entries_view(rest@)));
            }
        }
        proof {
            assert(entries_view(rest@) =~= Seq::<(K::V, T::V)>::empty());
        }
    }

    fn merge_from(&mut self, d: &mut Deserializer) -> Result<(), DecodingError> {
        let ghost a = self@;
        match <crate::Message<MapEntry<K, T>> as Decodable>::decode(d) {
            Ok(msg) => {
                let acc = msg.into_inner();
                let ghost accv = acc@;
                let key = match acc.key {
                    Some(k) => k,
                    None => K::default_value(),
                };
                let val = match acc.val {
                    Some(v) => v,
                    None => T::default_value(),
                };
                self.insert_entry(key, val);
                proof {
                    let e = entry_with_defaults::<K, T>(accv);
                    assert(seq![e].skip(1) =~= Seq::<(K::V, T::V)>::empty());
                    assert(seq![e][0] == e);
                    assert(map_merge(map_insert(a, e.0, e.1), Seq::<(K::V, T::V)>::empty())
                        == map_insert(a, e.0, e.1));
                    assert(map_merge(a, seq![e]) == map_insert(a, e.0, e.1));
                }
                Ok(())
            },
            Err(e) => Err(e),
        }
    }
}

} // verus!
