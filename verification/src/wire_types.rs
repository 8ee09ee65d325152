//! The three-bit wire-type discriminant packed into every field tag, and the
//! skipper that steps over a field of any supported wire type.

use crate::decoding::{consumed, lossy, DecodingError, Deserializer};
use crate::varint::{
    lemma_total_len_skip, lemma_varint_total_len_bounds, varint_total_len, vdec, VarintRead,
};
use vstd::prelude::*;

verus! {

/// The wire types this codec supports.  The deprecated grouped-field wire
/// types (bit patterns 3 and 4) are recognized only to be rejected.
#[derive(Clone, Copy, PartialEq, Eq, Structural, Debug)]
pub enum WireTypes {
    VarIntWire,
    Fixed64Wire,
    LengthDelimitedWire,
    Fixed32Wire,
}

/// The three-bit pattern of a wire type on the wire.
pub open spec fn wire_bits(w: WireTypes) -> u8 {
    match w {
        WireTypes::VarIntWire => 0,
        WireTypes::Fixed64Wire => 1,
        WireTypes::LengthDelimitedWire => 2,
        WireTypes::Fixed32Wire => 5,
    }
}

/// The wire type for a raw three-bit pattern, if it names one.
pub open spec fn wire_from_bits(raw: u8) -> Option<WireTypes> {
    if raw == 0 {
        Some(WireTypes::VarIntWire)
    } else if raw == 1 {
        Some(WireTypes::Fixed64Wire)
    } else if raw == 2 {
        Some(WireTypes::LengthDelimitedWire)
    } else if raw == 5 {
        Some(WireTypes::Fixed32Wire)
    } else {
        None
    }
}

/// A marker type naming one wire type at the type level, so a value shape
/// can carry its wire type in its signature.
pub trait WireType {
    /// The wire type this marker names.
    spec fn wire_type() -> WireTypes;
}

/// Marker for the varint wire type.
pub struct VarIntWire;

/// Marker for the eight-byte fixed wire type.
pub struct Fixed64Wire;

/// Marker for the length-delimited wire type.
pub struct LengthDelimitedWire;

/// Marker for the four-byte fixed wire type.
pub struct Fixed32Wire;

impl WireType for VarIntWire {
    open spec fn wire_type() -> WireTypes {
        WireTypes::VarIntWire
    }
}

impl WireType for Fixed64Wire {
    open spec fn wire_type() -> WireTypes {
        WireTypes::Fixed64Wire
    }
}

impl WireType for LengthDelimitedWire {
    open spec fn wire_type() -> WireTypes {
        WireTypes::LengthDelimitedWire
    }
}

impl WireType for Fixed32Wire {
    open spec fn wire_type() -> WireTypes {
        WireTypes::Fixed32Wire
    }
}

/// The tag value of a field: the field number shifted over the wire bits.
pub open spec fn tag_val(field_number: nat, w: WireTypes) -> nat {
    (field_number * 8 + wire_bits(w)) as nat
}

impl WireTypes {
    /// The three-bit pattern of this wire type.
    pub fn bits(self) -> (r: u8)
        ensures
            r == wire_bits(self),
    {
        match self {
            WireTypes::VarIntWire => 0,
            WireTypes::Fixed64Wire => 1,
            WireTypes::LengthDelimitedWire => 2,
            WireTypes::Fixed32Wire => 5,
        }
    }

    /// Classifies a raw three-bit pattern; patterns 3, 4, 6 and 7 are
    /// unknown wire types and rejected.
    pub fn new(raw: u8) -> (r: Result<Self, DecodingError>)
        ensures
            match wire_from_bits(raw) {
                Some(w) => r == Ok::<WireTypes, DecodingError>(w),
                None => r == Err::<WireTypes, DecodingError>(DecodingError::UnknownWireType(raw)),
            },
    {
        match raw {
            0 => Ok(WireTypes::VarIntWire),
            1 => Ok(WireTypes::Fixed64Wire),
            2 => Ok(WireTypes::LengthDelimitedWire),
            5 => Ok(WireTypes::Fixed32Wire),
            _ => Err(DecodingError::UnknownWireType(raw)),
        }
    }

    /// Steps over one field of this wire type, consuming exactly
    /// `skip_spec` bytes: a varint is drained to its final byte, fixed words
    /// are skipped whole, and a length-delimited field is skipped past its
    /// announced length.
    #[verifier::loop_isolation(false)]
    pub fn skip(self, d: &mut Deserializer) -> (r: Result<(), DecodingError>)
        requires
            old(d).wf(),
        ensures
            final(d).wf(),
            match skip_spec(self, old(d).window()) {
                Ok(k) => r == Ok::<(), DecodingError>(()) && consumed(*old(d), *final(d), k),
                Err(e) => r == Err::<(), DecodingError>(e) && lossy(*old(d), *final(d)),
            },
    {
        match self {
            WireTypes::VarIntWire => {
                let ghost w0 = old(d).window();
                let ghost mut c: int = 0;
                proof {
                    lemma_varint_total_len_bounds(w0);
                    assert(d.bytes() =~= old(d).bytes().skip(0));
                    assert(d.window() =~= w0.skip(0));
                }
                loop
                    invariant
                        d.wf(),
                        0 <= c <= w0.len(),
                        consumed(*old(d), *d, c),
                        d.window() == w0.skip(c),
                        forall|i: int| 0 <= i < c ==> w0[i] >= 128,
                    decreases w0.len() - c,
                {
                    if !d.has_remaining() {
                        proof {
                            assert(c == w0.len());
                            lemma_total_len_skip(w0, c);
                            assert(w0.skip(c) =~= Seq::<u8>::empty());
                            assert(varint_total_len(w0) is None);
                            assert(consumed(*old(d), *d, c));
                        }
                        return Err(DecodingError::Eof);
                    }
                    let ghost pre = *d;
                    proof {
                        crate::decoding::lemma_window_within(*old(d));
                    }
                    let b = d.get_u8();
                    proof {
                        crate::decoding::lemma_consumed_trans(*old(d), pre, *d, c, 1);
                        c = c + 1;
                        assert(d.window() =~= w0.skip(c));
                        assert(b == w0[c - 1]);
                    }
                    if b < 0x80 {
                        proof {
                            lemma_total_len_skip(w0, c - 1);
                            assert(w0.skip(c - 1)[0] == b);
                            assert(varint_total_len(w0) == Some(c));
                        }
                        return Ok(());
                    }
                }
            },
            WireTypes::Fixed64Wire => {
                let r = d.advance_checked(8);
                proof {
                    if old(d).window().len() < 8 {
                        crate::decoding::lemma_consumed_zero(*old(d), *d);
                    }
                }
                r
            },
            WireTypes::LengthDelimitedWire => {
                let ghost w0 = old(d).window();
                proof {
                    crate::varint::lemma_vdec_bounds(w0, 64);
                }
                match d.read_len() {
                    Err(e) => {
                        proof {
                            assert(lossy(*old(d), *d));
                        }
                        Err(e)
                    },
                    Ok(len) => {
                        let ghost mid = *d;
                        let res = d.advance_checked(len);
                        proof {
                            match vdec(w0, 64) {
                                VarintRead::Value { n, len: l } => {
                                    crate::decoding::lemma_window_within(*old(d));
                                    assert(mid.window() == w0.skip(l as int));
                                    if len as int <= mid.window().len() {
                                        crate::decoding::lemma_consumed_trans(
                                            *old(d),
                                            mid,
                                            *d,
                                            l as int,
                                            len as int,
                                        );
                                    } else {
                                        assert(consumed(*old(d), *d, l as int));
                                        assert(lossy(*old(d), *d));
                                    }
                                },
                                VarintRead::Error { .. } => {},
                            }
                        }
                        res
                    },
                }
            },
            WireTypes::Fixed32Wire => {
                let r = d.advance_checked(4);
                proof {
                    if old(d).window().len() < 4 {
                        crate::decoding::lemma_consumed_zero(*old(d), *d);
                    }
                }
                r
            },
        }
    }
}

/// What the default arm of a record's tag dispatch does with a tag it does
/// not know: skip the field by the wire type in the tag's low three bits,
/// and reject the two deprecated grouped-field patterns and the two unused
/// ones as unknown wire types.
pub open spec fn skip_field_dec<MV>(m: MV, tag: u64, s: Seq<u8>) -> Result<
    (MV, int),
    DecodingError,
> {
    match wire_from_bits((tag & 7) as u8) {
        Some(w) => match skip_spec(w, s) {
            Ok(j) => Ok((m, j)),
            Err(e) => Err(e),
        },
        None => Err(DecodingError::UnknownWireType((tag & 7) as u8)),
    }
}

/// Skips one field whose tag named no known field.  A tag whose wire bits
/// are 3 or 4 (or 6 or 7) surfaces `UnknownWireType`.
pub fn skip_unknown(d: &mut Deserializer, tag: u64) -> (r: Result<(), DecodingError>)
    requires
        old(d).wf(),
    ensures
        final(d).wf(),
        match wire_from_bits((tag & 7) as u8) {
            Some(w) => match skip_spec(w, old(d).window()) {
                Ok(j) => r == Ok::<(), DecodingError>(()) && consumed(*old(d), *final(d), j),
                Err(e) => r == Err::<(), DecodingError>(e) && lossy(*old(d), *final(d)),
            },
            None => r == Err::<(), DecodingError>(
                DecodingError::UnknownWireType((tag & 7) as u8),
            ) && *final(d) == *old(d) && lossy(*old(d), *final(d)),
        },
{
    match WireTypes::new((tag & 0b111) as u8) {
        Ok(w) => w.skip(d),
        Err(e) => {
            proof {
                crate::decoding::lemma_consumed_zero(*old(d), *d);
            }
            Err(e)
        },
    }
}

/// Skipping consumes no more than the input holds.
pub proof fn lemma_skip_spec_bounds(w: WireTypes, s: Seq<u8>)
    ensures
        skip_spec(w, s) matches Ok(j) ==> 0 <= j <= s.len(),
{
    match w {
        WireTypes::VarIntWire => {
            lemma_varint_total_len_bounds(s);
        },
        WireTypes::LengthDelimitedWire => {
            crate::varint::lemma_vdec_bounds(s, 64);
        },
        _ => {},
    }
}

/// A skip that consumes its input whole consumes the same bytes when more
/// follow.
pub proof fn lemma_skip_spec_prefix(w: WireTypes, p: Seq<u8>, rest: Seq<u8>)
    requires
        skip_spec(w, p) == Ok::<int, DecodingError>(p.len() as int),
    ensures
        skip_spec(w, p + rest) == Ok::<int, DecodingError>(p.len() as int),
{
    match w {
        WireTypes::VarIntWire => {
            crate::varint::lemma_total_len_prefix(p, rest);
        },
        WireTypes::LengthDelimitedWire => {
            crate::varint::lemma_vdec_prefix(p, 64, rest);
            crate::varint::lemma_vdec_bounds(p, 64);
        },
        _ => {},
    }
}

/// The default arm of a tag dispatch consumes no more than it was given.
pub proof fn lemma_skip_field_len<MV>(m: MV, tag: u64, s: Seq<u8>)
    ensures
        skip_field_dec(m, tag, s) matches Ok((m2, k)) ==> 0 <= k <= s.len(),
{
    match wire_from_bits((tag & 7) as u8) {
        Some(w) => lemma_skip_spec_bounds(w, s),
        None => {},
    }
}

/// How many bytes skipping a field of wire type `w` consumes from the head
/// of `s`, or the error that stops it.
pub open spec fn skip_spec(w: WireTypes, s: Seq<u8>) -> Result<int, DecodingError> {
    match w {
        WireTypes::VarIntWire => match varint_total_len(s) {
            Some(t) => Ok(t),
            None => Err(DecodingError::Eof),
        },
        WireTypes::Fixed64Wire => if s.len() >= 8 {
            Ok(8)
        } else {
            Err(DecodingError::Eof)
        },
        WireTypes::LengthDelimitedWire => match vdec(s, 64) {
            VarintRead::Value { n, len } => if n > usize::MAX {
                Err(DecodingError::VarIntOverflow)
            } else if n + len <= s.len() {
                Ok(n + len as int)
            } else {
                Err(DecodingError::Eof)
            },
            VarintRead::Error { err, .. } => Err(err),
        },
        WireTypes::Fixed32Wire => if s.len() >= 4 {
            Ok(4)
        } else {
            Err(DecodingError::Eof)
        },
    }
}

} // verus!
