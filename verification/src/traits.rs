//! The zig-zag transform for signed values, and the marker trait sealing the
//! set of wire-native types.

use vstd::prelude::*;

verus! {

/// Marks the types the codec treats as wire-native.
pub trait Sealed {

}

impl Sealed for u16 {

}

impl Sealed for u32 {

}

impl Sealed for u64 {

}

impl Sealed for usize {

}

impl Sealed for i32 {

}

impl Sealed for i64 {

}

impl Sealed for bool {

}

/// The zig-zag image of a 64-bit signed value: small magnitudes of either
/// sign map to small unsigned values.
pub open spec fn zigzag64(n: int) -> nat {
    if n >= 0 {
        (2 * n) as nat
    } else {
        (-2 * n - 1) as nat
    }
}

/// The inverse transform.
pub open spec fn unzigzag64(m: nat) -> int {
    if m % 2 == 0 {
        (m / 2) as int
    } else {
        -((m + 1) / 2)
    }
}

/// The zig-zag image of a 32-bit signed value.
pub open spec fn zigzag32(n: int) -> nat {
    zigzag64(n)
}

/// The zig-zag transform round-trips on every representable signed value,
/// and its image fits the same width unsigned.
pub proof fn lemma_zigzag_roundtrip(n: int)
    ensures
        unzigzag64(zigzag64(n)) == n,
        i64::MIN <= n <= i64::MAX ==> zigzag64(n) <= u64::MAX,
        i32::MIN <= n <= i32::MAX ==> zigzag64(n) <= u32::MAX,
{
}

/// A signed type that encodes through its same-width unsigned peer by
/// zig-zag.
pub trait Signable: Sized {
    /// The unsigned type the zig-zag image is stored in.
    type Storage;

    /// The signed type the transform starts from.
    type Source;

    /// What the transform sends a source value to.
    spec fn zigzag_spec(f: Self::Source) -> Self::Storage;

    /// What the inverse transform recovers from a stored value.
    spec fn unzigzag_spec(s: Self::Storage) -> Self::Source;

    /// Applies the zig-zag transform.
    fn zigzag_encode(f: Self::Source) -> (r: Self::Storage)
        ensures
            r == Self::zigzag_spec(f),
    ;

    /// Inverts the zig-zag transform.
    fn zigzag_decode(s: Self::Storage) -> (r: Self::Source)
        ensures
            r == Self::unzigzag_spec(s),
    ;

    /// The two transforms are mutually inverse.
    proof fn lemma_zigzag(f: Self::Source, s: Self::Storage)
        ensures
            Self::unzigzag_spec(Self::zigzag_spec(f)) == f,
            Self::zigzag_spec(Self::unzigzag_spec(s)) == s,
    ;
}

impl Signable for i32 {
    type Storage = u32;

    type Source = i32;

    open spec fn zigzag_spec(f: i32) -> u32 {
        zigzag64(f as int) as u32
    }

    open spec fn unzigzag_spec(s: u32) -> i32 {
        unzigzag64(s as nat) as i32
    }

    fn zigzag_encode(f: i32) -> (r: u32) {
        if f >= 0 {
            (f as u32) * 2
        } else {
            let mag = -(f + 1);
            (mag as u32) * 2 + 1
        }
    }

    fn zigzag_decode(s: u32) -> (r: i32) {
        if s % 2 == 0 {
            (s / 2) as i32
        } else {
            -(((s - 1) / 2) as i32) - 1
        }
    }

    proof fn lemma_zigzag(f: i32, s: u32) {
        lemma_zigzag_roundtrip(f as int);
    }
}

impl Signable for i64 {
    type Storage = u64;

    type Source = i64;

    open spec fn zigzag_spec(f: i64) -> u64 {
        zigzag64(f as int) as u64
    }

    open spec fn unzigzag_spec(s: u64) -> i64 {
        unzigzag64(s as nat) as i64
    }

    fn zigzag_encode(f: i64) -> (r: u64) {
        if f >= 0 {
            (f as u64) * 2
        } else {
            let mag = -(f + 1);
            (mag as u64) * 2 + 1
        }
    }

    fn zigzag_decode(s: u64) -> (r: i64) {
        if s % 2 == 0 {
            (s / 2) as i64
        } else {
            -(((s - 1) / 2) as i64) - 1
        }
    }

    proof fn lemma_zigzag(f: i64, s: u64) {
        lemma_zigzag_roundtrip(f as int);
    }
}

} // verus!
