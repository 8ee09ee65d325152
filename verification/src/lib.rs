//! A verified codec for a length-prefixed, tag-based binary wire format.
//!
//! Messages are flat records whose fields carry a numeric tag and a wire-type
//! discriminant.  Values are encoded as unsigned LEB128 varints, fixed 32/64
//! bit little-endian words, or length-delimited byte sequences.  The library
//! converts between in-memory records and the byte stream in both directions;
//! every encoder and decoder carries a contract relating it to the
//! specification-level byte sequences defined in [`varint`] and friends.

use vstd::prelude::*;

pub mod build_config;
pub mod decoding;
pub mod encoding;
pub mod impls;
pub mod laws;
pub mod map;
pub mod metadata;
pub mod records;
pub mod repeated;
pub mod traits;
pub mod varint;
pub mod wire_types;

verus! {

/// A placeholder for the packed repeated encoding, a planned variant that
/// stores all elements in one length-delimited region.
#[derive(Clone, Copy, Debug)]
pub struct Packed<T>(T);

/// A signed value stored as its zig-zag image, so that small magnitudes of
/// either sign stay short on the wire.
#[derive(Clone, Copy, Debug)]
pub struct Signed<T: traits::Signable> {
    pub(crate) stored: T::Storage,
}

impl<T: traits::Signable> Signed<T> {
    /// Applies the zig-zag transform and keeps the image.
    pub fn new(t: T::Source) -> (r: Self)
        ensures
            r.stored_value() == T::zigzag_spec(t),
    {
        Signed { stored: T::zigzag_encode(t) }
    }

    /// The stored zig-zag image.
    pub closed spec fn stored_value(self) -> T::Storage {
        self.stored
    }

    /// Recovers the signed value by the inverse transform.
    pub fn value(self) -> (r: T::Source)
        ensures
            r == T::unzigzag_spec(self.stored_value()),
    {
        T::zigzag_decode(self.stored)
    }

    /// Hands out the stored zig-zag image.
    pub fn into_stored(self) -> (r: T::Storage)
        ensures
            r == self.stored_value(),
    {
        self.stored
    }
}

/// A 32-bit value kept as four raw little-endian bytes on the wire.
#[derive(Clone, Copy, PartialEq, Eq, Structural, Debug)]
pub struct Fixed32(pub u32);

/// A 64-bit value kept as eight raw little-endian bytes on the wire.
#[derive(Clone, Copy, PartialEq, Eq, Structural, Debug)]
pub struct Fixed64(pub u64);

/// Wraps a record so it can stand in a field of another record: on the wire
/// it becomes a length-delimited sub-message.
#[derive(Clone, Copy, PartialEq, Eq, Structural, Debug)]
pub struct Message<T>(pub T);

impl<T> Message<T> {
    /// Unwraps the record.
    pub fn into_inner(self) -> (r: T)
        ensures
            r == self.0,
    {
        self.0
    }
}

impl View for Signed<i32> {
    type V = u32;

    closed spec fn view(&self) -> u32 {
        self.stored
    }
}

impl View for Signed<i64> {
    type V = u64;

    closed spec fn view(&self) -> u64 {
        self.stored
    }
}

/// The view of a zig-zag signed value is its stored image.
pub broadcast proof fn lemma_signed64_view(s: Signed<i64>)
    ensures
        #[trigger] s@ == s.stored_value(),
{
}

impl View for Fixed32 {
    type V = u32;

    open spec fn view(&self) -> u32 {
        self.0
    }
}

impl View for Fixed64 {
    type V = u64;

    open spec fn view(&self) -> u64 {
        self.0
    }
}

impl<T: View> View for Message<T> {
    type V = T::V;

    open spec fn view(&self) -> T::V {
        self.0@
    }
}

} // verus!
