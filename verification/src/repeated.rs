//! Repeated fields: each element is emitted with its own tag, in order, and
//! decoding appends elements one occurrence at a time.

use crate::decoding::{Decodable, DecodingError, Deserializer};
use crate::encoding::{
    encode_field, encoded_size, field_enc, field_number_ok, Encodable, ProtobufSerializer,
};
use vstd::prelude::*;

verus! {

/// A repeated field over a collection of elements.
#[derive(Clone, PartialEq, Eq, Debug)]
pub struct Repeated<C> {
    inner: C,
}

impl<C> Repeated<C> {
    /// The collection inside.
    pub closed spec fn spec_inner(&self) -> C {
        self.inner
    }

    /// Wraps a collection.
    pub fn new(collection: C) -> (r: Self)
        ensures
            r.spec_inner() == collection,
    {
        Repeated { inner: collection }
    }

    /// Hands the collection back.
    pub fn into_inner(self) -> (r: C)
        ensures
            r == self.spec_inner(),
    {
        self.inner
    }
}

impl<T: View> View for Repeated<Vec<T>> {
    type V = Seq<T::V>;

    closed spec fn view(&self) -> Seq<T::V> {
        self.inner@.map_values(|t: T| t@)
    }
}

/// The view of a repeated field is its elements' views, in order.
pub broadcast proof fn lemma_repeated_view<T: View>(r: Repeated<Vec<T>>)
    ensures
        #[trigger] r@ == r.spec_inner()@.map_values(|t: T| t@),
{
}

/// The wire bytes of a whole repeated field: every element carries its own
/// tag; nothing is emitted for an empty collection.
pub open spec fn rep_enc<T: Encodable>(field_number: nat, m: Seq<T::V>) -> Seq<u8>
    decreases m.len(),
{
    if m.len() == 0 {
        Seq::empty()
    } else {
        field_enc::<T>(field_number, m[0]) + rep_enc::<T>(field_number, m.skip(1))
    }
}

/// Every element of a repeated field is encodable.
pub open spec fn rep_ok<T: Encodable>(m: Seq<T::V>) -> bool {
    forall|i: int| 0 <= i < m.len() ==> T::enc_ok(#[trigger] m[i])
}

/// A repeated encoding splits at any element boundary.
pub proof fn lemma_rep_enc_split<T: Encodable>(field_number: nat, m: Seq<T::V>, i: int)
    requires
        0 <= i <= m.len(),
    ensures
        rep_enc::<T>(field_number, m) == rep_enc::<T>(field_number, m.take(i)) + rep_enc::<T>(
            field_number,
            m.skip(i),
        ),
    decreases i,
{
    if i == 0 {
        assert(m.take(0) =~= Seq::<T::V>::empty());
        assert(m.skip(0) =~= m);
        assert(rep_enc::<T>(field_number, m) =~= rep_enc::<T>(field_number, m.take(0))
            + rep_enc::<T>(field_number, m.skip(0)));
    } else {
        lemma_rep_enc_split::<T>(field_number, m.skip(1), i - 1);
        assert(m.skip(1).take(i - 1) =~= m.take(i).skip(1));
        assert(m.skip(1).skip(i - 1) =~= m.skip(i));
        assert(m.take(i)[0] == m[0] && m.take(i).len() == i);
        assert(rep_enc::<T>(field_number, m.take(i)) == field_enc::<T>(field_number, m[0])
            + rep_enc::<T>(field_number, m.take(i).skip(1)));
        assert(rep_enc::<T>(field_number, m) =~= rep_enc::<T>(field_number, m.take(i))
            + rep_enc::<T>(field_number, m.skip(i)));
    }
}

/// A repeated field of one element is that element's field encoding.
pub proof fn lemma_rep_enc_one<T: Encodable>(field_number: nat, v: T::V)
    ensures
        rep_enc::<T>(field_number, seq![v]) == field_enc::<T>(field_number, v),
{
    assert(seq![v].skip(1) =~= Seq::<T::V>::empty());
    assert(rep_enc::<T>(field_number, Seq::<T::V>::empty()) =~= Seq::<u8>::empty());
    assert(seq![v][0] == v);
    assert(rep_enc::<T>(field_number, seq![v]) =~= field_enc::<T>(field_number, v));
}

impl<T: Encodable> Repeated<Vec<T>> {
    /// The size of the whole field: the sum over elements, each with its own
    /// tag.
    pub fn encoded_size(&self, field_number: u64) -> (r: usize)
        requires
            field_number_ok(field_number as nat),
            rep_ok::<T>(self@),
            rep_enc::<T>(field_number as nat, self@).len() <= usize::MAX,
        ensures
            r == rep_enc::<T>(field_number as nat, self@).len(),
    {
        let ghost m = self@;
        let mut total: usize = 0;
        let mut i: usize = 0;
        let n = self.inner.len();
        proof {
            assert(m.take(0) =~= Seq::<T::V>::empty());
        }
        while i < n
            invariant
                n == self.inner.len(),
                m == self@,
                0 <= i <= n,
                field_number_ok(field_number as nat),
                rep_ok::<T>(m),
                rep_enc::<T>(field_number as nat, m).len() <= usize::MAX,
                total == rep_enc::<T>(field_number as nat, m.take(i as int)).len(),
            decreases n - i,
        {
            proof {
                lemma_rep_enc_split::<T>(field_number as nat, m, i as int);
                lemma_rep_enc_split::<T>(field_number as nat, m, i + 1);
                assert(m.take(i + 1) =~= m.take(i as int) + seq![m[i as int]]);
                lemma_rep_enc_split::<T>(field_number as nat, m.take(i + 1), i as int);
                assert(m.take(i + 1).take(i as int) =~= m.take(i as int));
                assert(m.take(i + 1).skip(i as int) =~= seq![m[i as int]]);
                lemma_rep_enc_one::<T>(field_number as nat, m[i as int]);
            }
            let size = encoded_size::<T>(&self.inner[i], field_number);
            total = total + size;
            i = i + 1;
        }
        proof {
            assert(m.take(n as int) =~= m);
        }
        total
    }

    /// Emits the whole field: each element with its own tag, in order.
    pub fn encode_field(&self, s: &mut ProtobufSerializer, field_number: u64)
        requires
            field_number_ok(field_number as nat),
            rep_ok::<T>(self@),
        ensures
            final(s)@ == old(s)@ + rep_enc::<T>(field_number as nat, self@),
    {
        let ghost m = self@;
        let ghost start = s@;
        let mut i: usize = 0;
        let n = self.inner.len();
        proof {
            assert(m.take(0) =~= Seq::<T::V>::empty());
            assert(start + rep_enc::<T>(field_number as nat, m.take(0)) =~= start);
        }
        while i < n
            invariant
                n == self.inner.len(),
                m == self@,
                0 <= i <= n,
                field_number_ok(field_number as nat),
                rep_ok::<T>(m),
                s@ == start + rep_enc::<T>(field_number as nat, m.take(i as int)),
            decreases n - i,
        {
            proof {
                assert(m[i as int] == self.inner@[i as int]@);
                assert(T::enc_ok(m[i as int]));
            }
            encode_field::<T>(&self.inner[i], s, field_number);
            proof {
                assert(m.take(i + 1) =~= m.take(i as int) + seq![m[i as int]]);
                lemma_rep_enc_split::<T>(field_number as nat, m.take(i + 1), i as int);
                assert(m.take(i + 1).take(i as int) =~= m.take(i as int));
                assert(m.take(i + 1).skip(i as int) =~= seq![m[i as int]]);
                lemma_rep_enc_one::<T>(field_number as nat, m[i as int]);
                assert(s@ =~= start + rep_enc::<T>(field_number as nat, m.take(i + 1)));
            }
            i = i + 1;
        }
        proof {
            assert(m.take(n as int) =~= m);
        }
    }
}

impl<T: Decodable> Decodable for Repeated<Vec<T>> {
    open spec fn dec(s: Seq<u8>) -> Result<(Seq<T::V>, int), DecodingError> {
        match T::dec(s) {
            Ok((v, k)) => Ok((seq![v], k)),
            Err(e) => Err(e),
        }
    }

    open spec fn merge_spec(m: Seq<T::V>, other: Seq<T::V>) -> Seq<T::V> {
        m + other
    }

    proof fn lemma_dec_len(s: Seq<u8>) {
        T::lemma_dec_len(s);
    }

    fn decode(d: &mut Deserializer) -> Result<Self, DecodingError> {
        match T::decode(d) {
            Ok(v) => {
                let mut inner: Vec<T> = Vec::new();
                inner.push(v);
                let r = Repeated { inner };
                proof {
                    assert(r@ =~= seq![v@]);
                }
                Ok(r)
            },
            Err(e) => Err(e),
        }
    }

    fn merge(&mut self, other: Self) {
        let ghost a = self@;
        let ghost b = other@;
        let mut tail = other.inner;
        self.inner.append(&mut tail);
        proof {
            assert(self@ =~= a + b);
        }
    }

    fn merge_from(&mut self, d: &mut Deserializer) -> Result<(), DecodingError> {
        let ghost a = self@;
        match T::decode(d) {
            Ok(v) => {
                self.inner.push(v);
                proof {
                    assert(self@ =~= a + seq![v@]);
                }
                Ok(())
            },
            Err(e) => Err(e),
        }
    }
}

/// Names the element type of a collection a repeated field can hold.
pub trait HasItem {
    type Item;
}

impl<T> HasItem for Vec<T> {
    type Item = T;
}

impl<T> HasItem for [T] {
    type Item = T;
}

/// A repeated field read through an adapter: the collection is kept as
/// given, and the adapter turns each element into an encodable view when the
/// field is emitted.
pub struct RepeatedMap<It, F> {
    collection: It,
    map: F,
}

impl<It, F> RepeatedMap<It, F> {
    /// The collection inside.
    pub closed spec fn spec_collection(&self) -> It {
        self.collection
    }

    /// Pairs a collection with its adapter.
    pub fn new(collection: It, map_fn: F) -> (r: Self)
        ensures
            r.spec_collection() == collection,
    {
        RepeatedMap { collection, map: map_fn }
    }
}

/// A record shape holding one repeated byte-sequence field.
pub struct Testing<T> {
    pub foo: T,
}

impl View for Testing<Repeated<Vec<Vec<u8>>>> {
    type V = Seq<Seq<u8>>;

    open spec fn view(&self) -> Seq<Seq<u8>> {
        self.foo@
    }
}

impl crate::encoding::EncodableMessage for Testing<Repeated<Vec<Vec<u8>>>> {
    open spec fn msg_enc(m: Seq<Seq<u8>>) -> Seq<u8> {
        rep_enc::<Vec<u8>>(1, m)
    }

    open spec fn msg_ok(m: Seq<Seq<u8>>) -> bool {
        rep_ok::<Vec<u8>>(m) && rep_enc::<Vec<u8>>(1, m).len() + 32 <= usize::MAX
    }

    proof fn lemma_msg_ok(m: Seq<Seq<u8>>) {
    }

    fn encoded_size(&self) -> (r: usize) {
        proof {
            vstd::arithmetic::power2::lemma2_to64();
            vstd::arithmetic::power2::lemma2_to64_rest();
            assert(field_number_ok(1)) by {
                assert(vstd::arithmetic::power2::pow2(61) == 0x2000000000000000);
            };
        }
        self.foo.encoded_size(1)
    }

    fn encode(&self, s: &mut ProtobufSerializer) {
        proof {
            vstd::arithmetic::power2::lemma2_to64();
            vstd::arithmetic::power2::lemma2_to64_rest();
            assert(field_number_ok(1)) by {
                assert(vstd::arithmetic::power2::pow2(61) == 0x2000000000000000);
            };
        }
        self.foo.encode_field(s, 1)
    }
}

} // verus!
