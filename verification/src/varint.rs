//! Specification and size computation for unsigned LEB128 varints.
//!
//! A varint stores seven payload bits per byte, least significant group
//! first; a set most-significant bit marks a continuation byte.  The
//! specification-level encoder [`varint_enc`] and decoder [`vdec`] are the
//! reference against which the executable writer and reader are verified.

use crate::decoding::DecodingError;
use vstd::arithmetic::div_mod::lemma_fundamental_div_mod;
use vstd::arithmetic::power2::{lemma2_to64, lemma_pow2_adds, lemma_pow2_strictly_increases, pow2};
use vstd::prelude::*;

verus! {

/// The byte sequence that encodes `n` as an unsigned LEB128 varint.
pub open spec fn varint_enc(n: nat) -> Seq<u8>
    decreases n,
{
    if n < 128 {
        seq![n as u8]
    } else {
        seq![(n % 128 + 128) as u8] + varint_enc(n / 128)
    }
}

/// The number of bytes `varint_enc(n)` takes: the count of 7-bit groups in
/// `n`, and always at least 1.
pub open spec fn varint_len(n: nat) -> nat
    decreases n,
{
    if n < 128 {
        1
    } else {
        1 + varint_len(n / 128)
    }
}

pub proof fn lemma_varint_enc_len(n: nat)
    ensures
        varint_enc(n).len() == varint_len(n),
    decreases n,
{
    if n >= 128 {
        lemma_varint_enc_len(n / 128);
    }
}

/// An encoded value is below `pow2(7 * length)`.
pub proof fn lemma_varint_len_lower(n: nat)
    ensures
        1 <= varint_len(n),
        n < pow2((7 * varint_len(n)) as nat),
        n < 128 <==> varint_len(n) == 1,
    decreases n,
{
    lemma2_to64();
    if n < 128 {
        assert(pow2(7) == 128);
    } else {
        lemma_varint_len_lower(n / 128);
        let l = varint_len(n / 128);
        lemma_pow2_adds(7, (7 * l) as nat);
        lemma_fundamental_div_mod(n as int, 128);
        assert(n < pow2((7 * (l + 1)) as nat)) by {
            assert(n as int / 128 + 1 <= pow2((7 * l) as nat));
            assert((n as int / 128 + 1) * 128 <= pow2((7 * l) as nat) * 128) by (nonlinear_arith)
                requires
                    n as int / 128 + 1 <= pow2((7 * l) as nat),
            ;
        };
    }
}

/// A value below `pow2(7 * k)` encodes in at most `k` bytes; in particular a
/// 64-bit value takes at most 10 bytes.
pub proof fn lemma_varint_len_upper(n: nat, k: nat)
    requires
        1 <= k,
        n < pow2((7 * k) as nat),
    ensures
        varint_len(n) <= k,
    decreases n,
{
    lemma2_to64();
    if n >= 128 {
        assert(pow2(7) == 128);
        if k == 1 {
            assert(false);
        }
        lemma_pow2_adds(7, (7 * (k - 1)) as nat);
        lemma_fundamental_div_mod(n as int, 128);
        assert(n / 128 < pow2((7 * (k - 1)) as nat)) by {
            assert(n < 128 * pow2((7 * (k - 1)) as nat));
            assert(n as int / 128 < pow2((7 * (k - 1)) as nat)) by (nonlinear_arith)
                requires
                    n < 128 * pow2((7 * (k - 1)) as nat),
                    0 <= n as int,
            ;
        };
        lemma_varint_len_upper(n / 128, (k - 1) as nat);
    }
}

/// Outcome of reading one varint from the head of a byte sequence.
pub enum VarintRead {
    /// The value and how many bytes it took.
    Value { n: nat, len: nat },
    /// The error and how many bytes were consumed before it was detected.
    Error { err: DecodingError, len: nat },
}

/// Reads one varint from the head of `s` into a storage type with `bits`
/// payload bits still free.  A continuation byte needs seven more free bits;
/// the final byte's significant bits must fit in what is left.
pub open spec fn vdec(s: Seq<u8>, bits: int) -> VarintRead
    decreases s.len(),
{
    if s.len() == 0 {
        VarintRead::Error { err: DecodingError::Eof, len: 0 }
    } else if s[0] < 128 {
        if (s[0] as nat) < pow2(if bits >= 0 { bits as nat } else { 0 }) {
            VarintRead::Value { n: s[0] as nat, len: 1 }
        } else {
            VarintRead::Error { err: DecodingError::VarIntOverflow, len: 1 }
        }
    } else if bits < 7 {
        VarintRead::Error { err: DecodingError::VarIntOverflow, len: 1 }
    } else {
        match vdec(s.skip(1), bits - 7) {
            VarintRead::Value { n, len } => VarintRead::Value {
                n: (s[0] - 128) as nat + 128 * n,
                len: len + 1,
            },
            VarintRead::Error { err, len } => VarintRead::Error { err, len: len + 1 },
        }
    }
}

/// How far the varint at the head of `s` extends: one past the first byte
/// whose most significant bit is clear, or `None` if every byte is a
/// continuation byte.
pub open spec fn varint_total_len(s: Seq<u8>) -> Option<int>
    decreases s.len(),
{
    if s.len() == 0 {
        None
    } else if s[0] < 128 {
        Some(1)
    } else {
        match varint_total_len(s.skip(1)) {
            Some(k) => Some(k + 1),
            None => None,
        }
    }
}

pub proof fn lemma_vdec_bounds(s: Seq<u8>, bits: int)
    ensures
        match vdec(s, bits) {
            VarintRead::Value { n, len } => 1 <= len <= s.len() && (bits >= 0 ==> n < pow2(
                bits as nat,
            )),
            VarintRead::Error { err, len } => 0 <= len <= s.len() && (err == DecodingError::Eof
                || err == DecodingError::VarIntOverflow) && (err == DecodingError::Eof ==> len
                == s.len()),
        },
    decreases s.len(),
{
    if s.len() == 0 {
    } else if s[0] < 128 {
        if bits >= 0 && (s[0] as nat) < pow2(bits as nat) {
        }
    } else if bits < 7 {
    } else {
        lemma_vdec_bounds(s.skip(1), bits - 7);
        match vdec(s.skip(1), bits - 7) {
            VarintRead::Value { n, len } => {
                if bits >= 0 {
                    lemma_pow2_adds(7, (bits - 7) as nat);
                    lemma2_to64();
                    assert((s[0] - 128) as nat + 128 * n < pow2(bits as nat)) by {
                        assert(n + 1 <= pow2((bits - 7) as nat));
                        assert(128 * (n + 1) <= 128 * pow2((bits - 7) as nat)) by (nonlinear_arith)
                            requires
                                n + 1 <= pow2((bits - 7) as nat),
                        ;
                    };
                }
            },
            VarintRead::Error { .. } => {},
        }
    }
}

pub proof fn lemma_varint_total_len_bounds(s: Seq<u8>)
    ensures
        match varint_total_len(s) {
            Some(k) => 1 <= k <= s.len(),
            None => forall|i: int| 0 <= i < s.len() ==> s[i] >= 128,
        },
    decreases s.len(),
{
    if s.len() > 0 && s[0] >= 128 {
        lemma_varint_total_len_bounds(s.skip(1));
        match varint_total_len(s.skip(1)) {
            Some(_) => {},
            None => {
                assert forall|i: int| 0 <= i < s.len() implies s[i] >= 128 by {
                    if i > 0 {
                        assert(s.skip(1)[i - 1] >= 128);
                    }
                };
            },
        }
    }
}

/// Reading back what `varint_enc` wrote yields the value and consumes exactly
/// its length, for any value that fits the target width and any trailing
/// bytes.
pub proof fn lemma_vdec_enc(n: nat, bits: int, rest: Seq<u8>)
    requires
        0 <= bits,
        n < pow2(bits as nat),
    ensures
        vdec(varint_enc(n) + rest, bits) == (VarintRead::Value { n, len: varint_len(n) }),
    decreases n,
{
    lemma2_to64();
    let s = varint_enc(n) + rest;
    if n < 128 {
        assert(s[0] == n as u8);
    } else {
        assert(pow2(7) == 128);
        if bits < 7 {
            vstd::arithmetic::power2::lemma_pow2_strictly_increases(bits as nat, 7);
            assert(false);
        }
        assert(n / 128 < pow2((bits - 7) as nat)) by {
            lemma_pow2_adds(7, (bits - 7) as nat);
            lemma_fundamental_div_mod(n as int, 128);
            assert(n as int / 128 < pow2((bits - 7) as nat)) by (nonlinear_arith)
                requires
                    n < 128 * pow2((bits - 7) as nat),
                    0 <= n as int,
            ;
        };
        lemma_vdec_enc(n / 128, bits - 7, rest);
        assert(s.skip(1) =~= varint_enc(n / 128) + rest);
        assert(s[0] == (n % 128 + 128) as u8);
        assert((s[0] - 128) as nat + 128 * (n / 128) == n) by {
            lemma_fundamental_div_mod(n as int, 128);
        };
    }
}

/// On overflow, every consumed byte but possibly the last is a continuation
/// byte.
pub proof fn lemma_vdec_overflow_shape(s: Seq<u8>, bits: int)
    ensures
        match vdec(s, bits) {
            VarintRead::Error { err, len } => err == DecodingError::VarIntOverflow ==> 1 <= len
                && (forall|i: int| 0 <= i < len - 1 ==> s[i] >= 128),
            _ => true,
        },
    decreases s.len(),
{
    if s.len() == 0 {
    } else if s[0] < 128 {
    } else if bits < 7 {
    } else {
        lemma_vdec_overflow_shape(s.skip(1), bits - 7);
        lemma_vdec_bounds(s.skip(1), bits - 7);
        match vdec(s.skip(1), bits - 7) {
            VarintRead::Error { err, len } => {
                if err == DecodingError::VarIntOverflow {
                    assert forall|i: int| 0 <= i < len implies s[i] >= 128 by {
                        if i > 0 {
                            assert(0 <= i - 1 < s.skip(1).len());
                            assert(s.skip(1)[i - 1] >= 128);
                            assert(s[i] == s.skip(1)[i - 1]);
                        } else {
                            assert(s[0] >= 128);
                        }
                    };
                }
            },
            _ => {},
        }
    }
}

/// Scanning for the end of a varint can start past any run of continuation
/// bytes.
pub proof fn lemma_total_len_skip(s: Seq<u8>, j: int)
    requires
        0 <= j <= s.len(),
        forall|i: int| 0 <= i < j ==> s[i] >= 128,
    ensures
        varint_total_len(s) == match varint_total_len(s.skip(j)) {
            Some(k) => Some(k + j),
            None => None,
        },
    decreases j,
{
    if j > 0 {
        lemma_total_len_skip(s.skip(1), j - 1);
        assert(s.skip(1).skip(j - 1) =~= s.skip(j));
        assert forall|i: int| 0 <= i < j - 1 implies s.skip(1)[i] >= 128 by {
            assert(s[i + 1] >= 128);
        };
    } else {
        assert(s.skip(0) =~= s);
    }
}

/// Outcome of reading a field tag: a tag value, a wire type recovered from an
/// oversized tag so the field can be skipped, or a hard error.
pub enum TagRead {
    Tag { n: nat, len: nat },
    Skip { wire: crate::wire_types::WireTypes, len: nat },
    Error { err: DecodingError, len: nat },
}

/// Reads a field tag from the head of `s` into a storage type with `bits`
/// payload bits.  A varint too large for the storage is not an error: the
/// low three bits of its first byte still name the wire type, so the field
/// can be skipped; the whole oversized varint is consumed.
pub open spec fn ftag_dec(s: Seq<u8>, bits: int) -> TagRead {
    match vdec(s, bits) {
        VarintRead::Value { n, len } => TagRead::Tag { n, len },
        VarintRead::Error { err, len } => if err == DecodingError::Eof {
            TagRead::Error { err, len }
        } else {
            match varint_total_len(s) {
                Some(t) => match crate::wire_types::wire_from_bits(s[0] & 7) {
                    Some(w) => TagRead::Skip { wire: w, len: t as nat },
                    None => TagRead::Error {
                        err: DecodingError::UnknownWireType(s[0] & 7),
                        len: t as nat,
                    },
                },
                None => TagRead::Error { err: DecodingError::Eof, len: s.len() },
            }
        },
    }
}

/// Any 64-bit value's varint is one to ten bytes.
pub proof fn lemma_varint_enc_small(n: nat)
    requires
        n <= u64::MAX,
    ensures
        varint_enc(n).len() == varint_len(n),
        1 <= varint_len(n) <= 10,
{
    lemma2_to64();
    vstd::arithmetic::power2::lemma2_to64_rest();
    lemma_pow2_strictly_increases(64, 70);
    lemma_varint_len_upper(n, 10);
    lemma_varint_len_lower(n);
    lemma_varint_enc_len(n);
}

/// A successful read is unchanged by bytes appended after it.
pub proof fn lemma_vdec_prefix(s: Seq<u8>, bits: int, ext: Seq<u8>)
    ensures
        vdec(s, bits) matches VarintRead::Value { n, len } ==> vdec(s + ext, bits)
            == (VarintRead::Value { n, len }),
    decreases s.len(),
{
    if s.len() == 0 {
    } else {
        assert((s + ext)[0] == s[0]);
        if s[0] < 128 {
        } else if bits < 7 {
        } else {
            lemma_vdec_prefix(s.skip(1), bits - 7, ext);
            assert((s + ext).skip(1) =~= s.skip(1) + ext);
        }
    }
}

/// A terminated varint stays terminated at the same spot when bytes follow.
pub proof fn lemma_total_len_prefix(s: Seq<u8>, ext: Seq<u8>)
    ensures
        varint_total_len(s) matches Some(k) ==> varint_total_len(s + ext) == Some(k),
    decreases s.len(),
{
    if s.len() > 0 {
        assert((s + ext)[0] == s[0]);
        if s[0] >= 128 {
            lemma_total_len_prefix(s.skip(1), ext);
            assert((s + ext).skip(1) =~= s.skip(1) + ext);
        }
    }
}

/// A well-formed encoding drains in exactly its length.
pub proof fn lemma_total_len_enc(n: nat, rest: Seq<u8>)
    ensures
        varint_total_len(varint_enc(n) + rest) == Some(varint_len(n) as int),
    decreases n,
{
    let s = varint_enc(n) + rest;
    if n < 128 {
        assert(s[0] == n as u8);
    } else {
        lemma_total_len_enc(n / 128, rest);
        assert(s.skip(1) =~= varint_enc(n / 128) + rest);
        assert(s[0] == (n % 128 + 128) as u8);
    }
}

/// A value of more than eight significant bits overflows a one-byte storage
/// type, wherever its varint stands.
pub proof fn lemma_vdec_enc_overflow8(n: nat, rest: Seq<u8>)
    requires
        n >= 256,
    ensures
        vdec(varint_enc(n) + rest, 8) matches VarintRead::Error { err, len } && err
            == DecodingError::VarIntOverflow,
    decreases n,
{
    lemma2_to64();
    let s = varint_enc(n) + rest;
    assert(s[0] == (n % 128 + 128) as u8);
    assert(s.skip(1) =~= varint_enc(n / 128) + rest);
    let tail = varint_enc(n / 128) + rest;
    assert(tail[0] == varint_enc(n / 128)[0]);
    assert(pow2(1) == 2);
    if n / 128 < 128 {
        assert(tail[0] == (n / 128) as u8);
        assert(n / 128 >= 2);
        assert(vdec(tail, 1) == (VarintRead::Error { err: DecodingError::VarIntOverflow, len: 1 }));
    } else {
        assert(tail[0] == (n / 128 % 128 + 128) as u8);
        assert(vdec(tail, 1) == (VarintRead::Error { err: DecodingError::VarIntOverflow, len: 1 }));
    }
    assert(vdec(s, 8) == (VarintRead::Error { err: DecodingError::VarIntOverflow, len: 2 }));
}

/// Reading a tag always consumes at least one byte and never more than the
/// input.
pub proof fn lemma_ftag_bounds(s: Seq<u8>, bits: int)
    requires
        s.len() > 0,
    ensures
        match ftag_dec(s, bits) {
            TagRead::Tag { n, len } => 1 <= len <= s.len(),
            TagRead::Skip { wire, len } => 1 <= len <= s.len(),
            TagRead::Error { err, len } => 0 <= len <= s.len(),
        },
{
    lemma_vdec_bounds(s, bits);
    lemma_varint_total_len_bounds(s);
}

} // verus!
