//! Decoding: errors, the deserializer with its limit stack, and the varint
//! and byte readers, each verified against the specification-level decoders
//! in [`crate::varint`].

use crate::varint::{
    ftag_dec, lemma_total_len_skip, lemma_vdec_bounds, lemma_vdec_overflow_shape,
    lemma_varint_total_len_bounds, varint_total_len, vdec, TagRead, VarintRead,
};
use crate::wire_types::WireTypes;
use vstd::arithmetic::power2::{
    lemma2_to64, lemma_pow2_adds, lemma_pow2_strictly_increases, pow2,
};
use vstd::prelude::*;
use vstd::slice::{slice_subrange, slice_to_vec};

verus! {

/// Everything that can go wrong while decoding a message.
#[derive(Clone, Copy, PartialEq, Eq, Structural, Debug)]
pub enum DecodingError {
    /// The source ran out before the current value finished, or a
    /// length-delimited frame was shorter than announced.
    Eof,
    /// A varint's decoded value does not fit the target storage width.
    VarIntOverflow,
    /// A length-delimited string field held invalid UTF-8.
    Utf8Error,
    /// A tag's low three bits were not one of the four supported wire types.
    UnknownWireType(u8),
}

/// What a byte-count debit does to a limit: the sentinel for "unlimited"
/// absorbs it, a finite limit shrinks.
pub open spec fn debit(l: int, k: int) -> int {
    if l == usize::MAX as int {
        l
    } else {
        l - k
    }
}

/// A lift of a varint outcome over `k` already-consumed bytes that
/// accumulated `storage`, with the next seven-bit group worth `mul`.
pub open spec fn vlift(storage: nat, mul: nat, k: nat, o: VarintRead) -> VarintRead {
    match o {
        VarintRead::Value { n, len } => VarintRead::Value {
            n: (storage + mul * n) as nat,
            len: (len + k) as nat,
        },
        VarintRead::Error { err, len } => VarintRead::Error { err, len: (len + k) as nat },
    }
}

/// The token handed out by `set_limit`, to be consumed by exactly one
/// `reset_limit`, so that bytes read inside a frame are debited against the
/// frame around it.
pub struct LimitToken {
    prev_limit: usize,
    set_to: usize,
}

impl LimitToken {
    /// The limit in force before the frame was pushed.
    pub closed spec fn prev(&self) -> int {
        self.prev_limit as int
    }

    /// The effective limit the frame started with.
    pub closed spec fn set(&self) -> int {
        self.set_to as int
    }
}

/// A reader over a byte source with a stack of length limits.  The source is
/// a chain of up to two contiguous chunks, so a read spanning the boundary
/// exercises the assemble-and-copy path.
pub struct Deserializer {
    a: Vec<u8>,
    b: Vec<u8>,
    pos: usize,
    limit: usize,
}

/// The state change of a successful read: `k` bytes left the source and were
/// debited against the current limit.
pub open spec fn consumed(pre: Deserializer, post: Deserializer, k: int) -> bool {
    &&& post.bytes() == pre.bytes().skip(k)
    &&& post.lim() == debit(pre.lim(), k)
    &&& post.window() == pre.window().skip(k)
}

/// The state change of a failed read: some prefix of the window is gone.
pub open spec fn lossy(pre: Deserializer, post: Deserializer) -> bool {
    exists|k: int|
        #![trigger consumed(pre, post, k)]
        0 <= k <= pre.window().len() && consumed(pre, post, k)
}

pub proof fn lemma_consumed_trans(d0: Deserializer, d1: Deserializer, d2: Deserializer, i: int, j: int)
    requires
        0 <= i,
        0 <= j,
        i + j <= d0.bytes().len(),
        i + j <= d0.window().len(),
        consumed(d0, d1, i),
        consumed(d1, d2, j),
    ensures
        consumed(d0, d2, i + j),
{
    assert(d2.bytes() =~= d0.bytes().skip(i + j));
    assert(d2.window() =~= d0.window().skip(i + j));
}

/// A limit is a machine word.
pub proof fn lemma_lim_bounds(d: Deserializer)
    ensures
        0 <= d.lim() <= usize::MAX,
{
}

/// The window is a prefix of the remaining bytes.
pub proof fn lemma_window_within(d: Deserializer)
    ensures
        d.window().len() <= d.bytes().len(),
        d.window() == d.bytes().take(d.window().len() as int),
{
    if d.lim() < d.bytes().len() {
        assert(d.lim() >= 0);
    }
    assert(d.window() =~= d.bytes().take(d.window().len() as int));
}

/// The window is the remaining bytes capped by the current limit.
pub proof fn lemma_window_len(d: Deserializer)
    ensures
        d.window().len() == if d.lim() < d.bytes().len() {
            d.lim()
        } else {
            d.bytes().len() as int
        },
{
    if d.lim() < d.bytes().len() {
        assert(d.lim() >= 0);
    }
}

/// The window equation of `consumed` follows from the byte and limit
/// equations, so callers outside this module can conclude a consumption
/// from what the contracts of the parts give them.
pub proof fn lemma_consumed_from_parts(pre: Deserializer, post: Deserializer, k: int)
    requires
        pre.wf(),
        0 <= k <= pre.window().len(),
        post.bytes() == pre.bytes().skip(k),
        post.lim() == debit(pre.lim(), k),
    ensures
        consumed(pre, post, k),
{
    lemma_window_within(pre);
    lemma_window_len(pre);
    lemma_window_len(post);
    assert(pre.bytes().len() <= usize::MAX);
    assert(post.window().len() == pre.window().len() - k);
    assert forall|i: int| 0 <= i < post.window().len() implies post.window()[i] == pre.window()[k
        + i] by {
        assert(post.window()[i] == post.bytes()[i]);
        assert(pre.window()[k + i] == pre.bytes()[k + i]);
    };
    assert(post.window() =~= pre.window().skip(k));
}

/// A read that fails after some reads still only loses a prefix.
pub proof fn lemma_lossy_chain(d0: Deserializer, d1: Deserializer, d2: Deserializer, i: int)
    requires
        0 <= i <= d0.window().len(),
        consumed(d0, d1, i),
        lossy(d1, d2),
    ensures
        lossy(d0, d2),
{
    lemma_window_within(d0);
    let k = choose|k: int| 0 <= k <= d1.window().len() && #[trigger] consumed(d1, d2, k);
    lemma_consumed_trans(d0, d1, d2, i, k);
    assert(0 <= i + k <= d0.window().len() && consumed(d0, d2, i + k));
}

/// A reader whose observable state did not change has consumed nothing.
pub proof fn lemma_consumed_zero(pre: Deserializer, post: Deserializer)
    requires
        post.bytes() == pre.bytes(),
        post.lim() == pre.lim(),
        post.window() == pre.window(),
    ensures
        consumed(pre, post, 0),
        lossy(pre, post),
{
    assert(post.bytes() =~= pre.bytes().skip(0));
    assert(post.window() =~= pre.window().skip(0));
    assert(0 <= 0 <= pre.window().len() && consumed(pre, post, 0));
}

impl Deserializer {
    /// The bytes not yet consumed, across both chunks.
    pub closed spec fn bytes(&self) -> Seq<u8> {
        (self.a@ + self.b@).skip(self.pos as int)
    }

    /// The current limit; `usize::MAX` is the sentinel for "unlimited".
    pub closed spec fn lim(&self) -> int {
        self.limit as int
    }

    /// The bytes the current frame still allows: the remaining bytes capped
    /// by the current limit.
    pub closed spec fn window(&self) -> Seq<u8> {
        if self.lim() < self.bytes().len() {
            self.bytes().take(self.lim())
        } else {
            self.bytes()
        }
    }

    /// How many remaining bytes are contiguous in the current chunk.
    pub closed spec fn contig(&self) -> int {
        if self.pos < self.a@.len() {
            self.a@.len() - self.pos
        } else {
            self.a@.len() + self.b@.len() - self.pos
        }
    }

    /// The reader never points past the end of its source.
    pub closed spec fn wf(&self) -> bool {
        &&& self.pos <= self.a@.len() + self.b@.len()
        &&& self.a@.len() + self.b@.len() <= usize::MAX
    }

    /// Wraps a single contiguous source; the limit starts unlimited.
    pub fn new(buf: Vec<u8>) -> (r: Self)
        ensures
            r.wf(),
            r.bytes() == buf@,
            r.lim() == usize::MAX as int,
            r.window() == buf@,
            r.contig() == buf@.len(),
    {
        let src_len = buf.len();
        let r = Self { a: buf, b: Vec::new(), pos: 0, limit: usize::MAX };
        proof {
            assert(r.a@.len() == src_len);
            assert(r.bytes() =~= r.a@);
        }
        r
    }

    /// Wraps a source split in two chunks, so that reads crossing the
    /// boundary find a chunk shorter than the bytes remaining.
    pub fn new_chained(first: Vec<u8>, second: Vec<u8>) -> (r: Self)
        requires
            first@.len() + second@.len() <= usize::MAX,
        ensures
            r.wf(),
            r.bytes() == first@ + second@,
            r.lim() == usize::MAX as int,
            r.window() == first@ + second@,
            first@.len() > 0 ==> r.contig() == first@.len(),
    {
        let r = Self { a: first, b: second, pos: 0, limit: usize::MAX };
        proof {
            assert(r.bytes() =~= r.a@ + r.b@);
        }
        r
    }

    /// How many bytes remain in the source, limits aside.
    pub fn remaining(&self) -> (r: usize)
        requires
            self.wf(),
        ensures
            r == self.bytes().len(),
    {
        self.a.len() + self.b.len() - self.pos
    }

    /// Whether the current frame still has bytes to offer.
    pub fn has_remaining(&self) -> (r: bool)
        requires
            self.wf(),
        ensures
            r == (self.window().len() > 0),
    {
        self.remaining() != 0 && self.limit != 0
    }

    /// The next byte, without consuming it.
    fn peek(&self) -> (r: u8)
        requires
            self.wf(),
            self.window().len() > 0,
        ensures
            r == self.window()[0],
    {
        if self.pos < self.a.len() {
            self.a[self.pos]
        } else {
            self.b[self.pos - self.a.len()]
        }
    }

    /// Takes one byte from the source, debiting the limit.
    pub fn get_u8(&mut self) -> (r: u8)
        requires
            old(self).wf(),
            old(self).window().len() > 0,
        ensures
            final(self).wf(),
            r == old(self).window()[0],
            consumed(*old(self), *final(self), 1),
    {
        let byte = self.peek();
        self.pos = self.pos + 1;
        if self.limit != usize::MAX {
            self.limit = self.limit - 1;
        }
        proof {
            assert(self.bytes() =~= old(self).bytes().skip(1));
            assert(self.window() =~= old(self).window().skip(1));
        }
        byte
    }

    /// Pushes a length frame: the effective limit is the requested one capped
    /// by the limit already in force.
    pub fn set_limit(&mut self, limit: usize) -> (tok: LimitToken)
        requires
            old(self).wf(),
        ensures
            final(self).wf(),
            final(self).bytes() == old(self).bytes(),
            final(self).lim() == if (limit as int) < old(self).lim() {
                limit as int
            } else {
                old(self).lim()
            },
            tok.prev() == old(self).lim(),
            tok.set() == final(self).lim(),
            final(self).window() == if final(self).lim() <= old(self).window().len() {
                old(self).window().take(final(self).lim())
            } else {
                old(self).window()
            },
    {
        let prev_limit = self.limit;
        let set_to = if limit < self.limit { limit } else { self.limit };
        self.limit = set_to;
        proof {
            if self.lim() <= old(self).window().len() {
                assert(self.window() =~= old(self).window().take(self.lim()));
            } else {
                assert(self.window() =~= old(self).window());
            }
        }
        LimitToken { prev_limit, set_to }
    }

    /// Pops a length frame: what the frame consumed is debited against the
    /// limit that was in force around it.  The sentinel for "unlimited" is
    /// restored as such.
    pub fn reset_limit(&mut self, tok: LimitToken)
        requires
            old(self).wf(),
            old(self).lim() <= tok.set(),
            tok.set() <= tok.prev(),
            tok.set() == usize::MAX as int ==> old(self).lim() == usize::MAX as int,
        ensures
            final(self).wf(),
            final(self).bytes() == old(self).bytes(),
            final(self).lim() == if tok.prev() == usize::MAX as int {
                usize::MAX as int
            } else {
                tok.prev() - (tok.set() - old(self).lim())
            },
    {
        if tok.prev_limit == usize::MAX {
            self.limit = usize::MAX;
        } else {
            let used = tok.set_to - self.limit;
            self.limit = tok.prev_limit - used;
        }
    }

    /// Debits `len` bytes against the current limit without reading them;
    /// fails with `Eof` when the frame is too small.
    pub fn check_limit(&mut self, len: usize) -> (r: Result<(), DecodingError>)
        requires
            old(self).wf(),
        ensures
            final(self).wf(),
            final(self).bytes() == old(self).bytes(),
            final(self).contig() == old(self).contig(),
            old(self).lim() == usize::MAX as int ==> r == Ok::<(), DecodingError>(())
                && final(self).lim() == old(self).lim(),
            old(self).lim() != usize::MAX as int && old(self).lim() < len as int ==> r == Err::<
                (),
                DecodingError,
            >(DecodingError::Eof) && final(self).lim() == old(self).lim(),
            old(self).lim() != usize::MAX as int && old(self).lim() >= len as int ==> r == Ok::<
                (),
                DecodingError,
            >(()) && final(self).lim() == old(self).lim() - len as int,
    {
        if self.limit == usize::MAX {
            Ok(())
        } else if self.limit < len {
            Err(DecodingError::Eof)
        } else {
            self.limit = self.limit - len;
            Ok(())
        }
    }

    /// Reads one varint into a storage type `bits` wide.  Also returns the
    /// last byte consumed, so a caller recovering from an oversized tag can
    /// keep draining from the right spot.
    #[verifier::loop_isolation(false)]
    #[verifier::rlimit(100)]
    #[verifier::spinoff_prover]
    pub(crate) fn varint_core(&mut self, bits: u32) -> (res: (Result<u64, DecodingError>, u8))
        requires
            old(self).wf(),
            bits == 8 || bits == 16 || bits == 32 || bits == 64,
        ensures
            final(self).wf(),
            match vdec(old(self).window(), bits as int) {
                VarintRead::Value { n, len } => res.0 == Ok::<u64, DecodingError>(n as u64)
                    && consumed(*old(self), *final(self), len as int) && res.1 == old(
                    self,
                ).window()[len - 1],
                VarintRead::Error { err, len } => res.0 == Err::<u64, DecodingError>(err)
                    && consumed(*old(self), *final(self), len as int) && (len >= 1 ==> res.1 == old(
                    self,
                ).window()[len - 1]),
            },
    {
        let ghost w0 = old(self).window();
        proof {
            lemma_vdec_bounds(w0, bits as int);
            lemma2_to64();
            vstd::arithmetic::power2::lemma2_to64_rest();
        }
        if !self.has_remaining() {
            proof {
                assert(w0.len() == 0);
                assert(self.bytes() =~= old(self).bytes().skip(0));
                assert(self.window() =~= old(self).window().skip(0));
                assert(consumed(*old(self), *self, 0));
            }
            return (Err(DecodingError::Eof), 0);
        }
        let mut byte = self.get_u8();
        let mut storage: u64 = 0;
        let mut mul: u64 = 1;
        let mut bits_left: u32 = bits;
        let ghost mut c: int = 1;
        proof {
            assert(w0.skip(0) =~= w0);
        }
        while byte >= 0x80
            invariant
                self.wf(),
                bits == 8 || bits == 16 || bits == 32 || bits == 64,
                1 <= c <= w0.len(),
                consumed(*old(self), *self, c),
                byte == w0[c - 1],
                self.window() == w0.skip(c),
                bits_left <= bits,
                bits_left % 7 == bits % 7,
                1 <= bits_left,
                mul == pow2((bits - bits_left) as nat),
                storage < mul,
                vdec(w0, bits as int) == vlift(
                    storage as nat,
                    mul as nat,
                    (c - 1) as nat,
                    vdec(w0.skip(c - 1), bits_left as int),
                ),
            decreases w0.len() - c,
        {
            proof {
                lemma2_to64();
                vstd::arithmetic::power2::lemma2_to64_rest();
                assert(w0.skip(c - 1).len() > 0 && w0.skip(c - 1)[0] == byte);
            }
            if bits_left < 7 {
                proof {
                    assert(vdec(w0.skip(c - 1), bits_left as int) == (VarintRead::Error {
                        err: DecodingError::VarIntOverflow,
                        len: 1,
                    }));
                    assert(vdec(w0, bits as int) == (VarintRead::Error {
                        err: DecodingError::VarIntOverflow,
                        len: c as nat,
                    }));
                }
                return (Err(DecodingError::VarIntOverflow), byte);
            }
            let ghost old_storage = storage;
            let ghost old_mul = mul;
            let ghost old_bits_left = bits_left;
            proof {
                lemma_pow2_le((bits - bits_left) as nat, 57);
                lemma_pow2_adds((bits - bits_left) as nat, 7);
                assert((byte - 0x80) as u64 <= 127);
                assert(storage + ((byte - 0x80) as u64) * mul < 128 * mul) by (nonlinear_arith)
                    requires
                        storage < mul,
                        (byte - 0x80) as u64 <= 127,
                        mul >= 1,
                ;
                assert(128 * mul == pow2((bits - (bits_left - 7)) as nat));
                lemma_pow2_le((bits - (bits_left - 7)) as nat, 64);
            }
            storage = storage + ((byte - 0x80) as u64) * mul;
            mul = mul * 128;
            bits_left = bits_left - 7;
            proof {
                // One unfolding of the specification decoder absorbs the
                // continuation byte just consumed.
                let inner = vdec(w0.skip(c), (bits_left) as int);
                assert(w0.skip(c - 1).skip(1) =~= w0.skip(c));
                assert(vdec(w0.skip(c - 1), old_bits_left as int) == match inner {
                    VarintRead::Value { n, len } => VarintRead::Value {
                        n: ((byte - 0x80) as nat + 128 * n) as nat,
                        len: (len + 1) as nat,
                    },
                    VarintRead::Error { err, len } => VarintRead::Error {
                        err,
                        len: (len + 1) as nat,
                    },
                });
                match inner {
                    VarintRead::Value { n, len } => {
                        let p = (byte - 0x80) as int;
                        let os = old_storage as int;
                        let om = old_mul as int;
                        assert(os + om * (p + 128 * n) == (os + p * om) + (128 * om) * n)
                            by (nonlinear_arith);
                        assert(storage as int == os + p * om);
                        assert(mul as int == 128 * om);
                        assert(old_storage + old_mul * ((byte - 0x80) as nat + 128 * n) == storage
                            + mul * n);
                    },
                    VarintRead::Error { .. } => {},
                }
                assert(vdec(w0, bits as int) == vlift(
                    storage as nat,
                    mul as nat,
                    c as nat,
                    inner,
                ));
            }
            if !self.has_remaining() {
                proof {
                    assert(w0.skip(c) =~= Seq::<u8>::empty());
                    assert(vdec(w0, bits as int) == (VarintRead::Error {
                        err: DecodingError::Eof,
                        len: c as nat,
                    }));
                }
                return (Err(DecodingError::Eof), byte);
            }
            let ghost pre = *self;
            proof {
                assert(pre.window() == w0.skip(c) && pre.window().len() > 0);
                assert(w0.len() <= old(self).bytes().len()) by {
                    if old(self).lim() < old(self).bytes().len() {
                        assert(w0 == old(self).bytes().take(old(self).lim()));
                        assert(old(self).lim() >= 0);
                    }
                };
                assert(c + 1 <= w0.len());
            }
            byte = self.get_u8();
            proof {
                lemma_consumed_trans(*old(self), pre, *self, c, 1);
                c = c + 1;
                assert(self.window() =~= w0.skip(c));
                assert(byte == w0[c - 1]);
            }
        }
        // The final byte: its significant bits must fit in what is left.
        proof {
            lemma2_to64();
            vstd::arithmetic::power2::lemma2_to64_rest();
            assert(w0.skip(c - 1).len() > 0 && w0.skip(c - 1)[0] == byte);
        }
        if bits_left < 8 {
            let threshold: u64 = 1u64 << bits_left;
            proof {
                vstd::bits::lemma_u64_shl_is_mul(1u64, bits_left as u64);
            }
            if (byte as u64) >= threshold {
                proof {
                    assert(vdec(w0, bits as int) == (VarintRead::Error {
                        err: DecodingError::VarIntOverflow,
                        len: c as nat,
                    }));
                }
                return (Err(DecodingError::VarIntOverflow), byte);
            }
        } else {
            proof {
                lemma_pow2_le(8, bits_left as nat);
                assert((byte as nat) < pow2(bits_left as nat));
            }
        }
        proof {
            assert((byte as nat) < pow2(bits_left as nat));
            lemma_pow2_adds((bits - bits_left) as nat, bits_left as nat);
            lemma_pow2_le(bits as nat, 64);
            assert(storage + (byte as u64) * mul < pow2(bits as nat)) by (nonlinear_arith)
                requires
                    storage < mul,
                    (byte as nat) < pow2(bits_left as nat),
                    mul == pow2((bits - bits_left) as nat),
                    pow2((bits - bits_left) as nat) * pow2(bits_left as nat) == pow2(bits as nat),
                    mul >= 1,
            ;
            assert(vdec(w0.skip(c - 1), bits_left as int) == (VarintRead::Value {
                n: byte as nat,
                len: 1,
            }));
        }
        let value = storage + (byte as u64) * mul;
        proof {
            assert(value as nat == storage as nat + mul as nat * (byte as nat)) by {
                assert(mul as int * (byte as int) == (byte as int) * (mul as int))
                    by (nonlinear_arith);
            };
            assert(vlift(
                storage as nat,
                mul as nat,
                (c - 1) as nat,
                vdec(w0.skip(c - 1), bits_left as int),
            ) == (VarintRead::Value { n: value as nat, len: c as nat }));
            assert(vdec(w0, bits as int) == (VarintRead::Value { n: value as nat, len: c as nat }));
        }
        (Ok(value), byte)
    }

    /// Reads one varint as a 64-bit value.
    pub fn read_varint(&mut self) -> (r: Result<u64, DecodingError>)
        requires
            old(self).wf(),
        ensures
            final(self).wf(),
            match vdec(old(self).window(), 64) {
                VarintRead::Value { n, len } => r == Ok::<u64, DecodingError>(n as u64) && consumed(
                    *old(self),
                    *final(self),
                    len as int,
                ),
                VarintRead::Error { err, len } => r == Err::<u64, DecodingError>(err) && consumed(
                    *old(self),
                    *final(self),
                    len as int,
                ),
            },
    {
        self.varint_core(64).0
    }

    /// Reads a varint that must fit a `usize`, as length prefixes must.
    pub fn read_len(&mut self) -> (r: Result<usize, DecodingError>)
        requires
            old(self).wf(),
        ensures
            final(self).wf(),
            match vdec(old(self).window(), 64) {
                VarintRead::Value { n, len } => consumed(*old(self), *final(self), len as int) && (
                if n <= usize::MAX {
                    r == Ok::<usize, DecodingError>(n as usize)
                } else {
                    r == Err::<usize, DecodingError>(DecodingError::VarIntOverflow)
                }),
                VarintRead::Error { err, len } => r == Err::<usize, DecodingError>(err) && consumed(
                    *old(self),
                    *final(self),
                    len as int,
                ),
            },
    {
        proof {
            lemma_vdec_bounds(old(self).window(), 64);
            lemma2_to64();
            vstd::arithmetic::power2::lemma2_to64_rest();
        }
        match self.varint_core(64).0 {
            Ok(v) => if v <= usize::MAX as u64 {
                Ok(v as usize)
            } else {
                Err(DecodingError::VarIntOverflow)
            },
            Err(e) => Err(e),
        }
    }

    /// Reads a field tag into a storage type `bits` wide.  A tag too large
    /// for the storage is drained and its wire type handed back for
    /// skipping, which keeps the decoder compatible with schemas whose field
    /// numbers outgrew the record's tag storage.
    #[verifier::loop_isolation(false)]
    pub fn read_field_tag(&mut self, bits: u32) -> (r: Result<
        u64,
        Result<WireTypes, DecodingError>,
    >)
        requires
            old(self).wf(),
            bits == 8 || bits == 16 || bits == 32 || bits == 64,
        ensures
            final(self).wf(),
            match ftag_dec(old(self).window(), bits as int) {
                TagRead::Tag { n, len } => r == Ok::<u64, Result<WireTypes, DecodingError>>(
                    n as u64,
                ) && consumed(*old(self), *final(self), len as int),
                TagRead::Skip { wire, len } => r == Err::<u64, Result<WireTypes, DecodingError>>(
                    Ok(wire),
                ) && consumed(*old(self), *final(self), len as int),
                TagRead::Error { err, len } => r == Err::<u64, Result<WireTypes, DecodingError>>(
                    Err(err),
                ) && consumed(*old(self), *final(self), len as int),
            },
    {
        let ghost w0 = old(self).window();
        proof {
            lemma_vdec_bounds(w0, bits as int);
            lemma_vdec_overflow_shape(w0, bits as int);
            lemma_varint_total_len_bounds(w0);
        }
        if !self.has_remaining() {
            proof {
                assert(self.bytes() =~= old(self).bytes().skip(0));
                assert(self.window() =~= old(self).window().skip(0));
            }
            return Err(Err(DecodingError::Eof));
        }
        let first = self.peek();
        let (res, last) = self.varint_core(bits);
        match res {
            Ok(tag) => Ok(tag),
            Err(DecodingError::Eof) => Err(Err(DecodingError::Eof)),
            Err(_) => {
                // The tag does not fit `bits` bits of storage: drain the rest
                // of the varint, then recover the wire type from the low
                // three bits of its first byte.
                let ghost l = (match vdec(w0, bits as int) {
                    VarintRead::Error { len, .. } => len,
                    _ => 0,
                }) as int;
                let ghost mut c: int = l;
                let mut byte = last;
                while byte >= 0x80
                    invariant
                        self.wf(),
                        1 <= c <= w0.len(),
                        consumed(*old(self), *self, c),
                        byte == w0[c - 1],
                        self.window() == w0.skip(c),
                        forall|i: int| 0 <= i < c - 1 ==> w0[i] >= 128,
                    decreases w0.len() - c,
                {
                    if !self.has_remaining() {
                        proof {
                            assert(c == w0.len());
                            lemma_total_len_skip(w0, c);
                            assert(w0.skip(c) =~= Seq::<u8>::empty());
                            assert(varint_total_len(w0) is None);
                        }
                        return Err(Err(DecodingError::Eof));
                    }
                    let ghost pre = *self;
                    proof {
                        assert(w0.len() <= old(self).bytes().len()) by {
                            if old(self).lim() < old(self).bytes().len() {
                                assert(w0 == old(self).bytes().take(old(self).lim()));
                            }
                        };
                        assert forall|i: int| 0 <= i < c implies w0[i] >= 128 by {
                            if i == c - 1 {
                                assert(w0[c - 1] == byte);
                            }
                        };
                    }
                    byte = self.get_u8();
                    proof {
                        lemma_consumed_trans(*old(self), pre, *self, c, 1);
                        c = c + 1;
                        assert(self.window() =~= w0.skip(c));
                    }
                }
                proof {
                    lemma_total_len_skip(w0, c - 1);
                    assert(w0.skip(c - 1)[0] == byte && byte < 128);
                    assert(varint_total_len(w0.skip(c - 1)) == Some(1int));
                    assert(varint_total_len(w0) == Some(c));
                    assert(first == w0[0]);
                }
                match WireTypes::new(first & 0b111) {
                    Ok(w) => Err(Ok(w)),
                    Err(e) => Err(Err(e)),
                }
            },
        }
    }

    /// Consumes `n` bytes without reading them, or fails with `Eof` leaving
    /// the reader where it was.
    pub fn advance_checked(&mut self, n: usize) -> (r: Result<(), DecodingError>)
        requires
            old(self).wf(),
        ensures
            final(self).wf(),
            if n <= old(self).window().len() {
                r == Ok::<(), DecodingError>(()) && consumed(*old(self), *final(self), n as int)
            } else {
                r == Err::<(), DecodingError>(DecodingError::Eof) && final(self).bytes() == old(
                    self,
                ).bytes() && final(self).lim() == old(self).lim() && final(self).window() == old(
                    self,
                ).window()
            },
    {
        let rem = self.remaining();
        let avail = if self.limit < rem {
            self.limit
        } else {
            rem
        };
        if avail < n {
            return Err(DecodingError::Eof);
        }
        self.pos = self.pos + n;
        if self.limit != usize::MAX {
            self.limit = self.limit - n;
        }
        proof {
            assert(self.bytes() =~= old(self).bytes().skip(n as int));
            assert(self.window() =~= old(self).window().skip(n as int));
        }
        Ok(())
    }

    /// Copies `len` bytes out of the source; `pos` has already been checked
    /// against the source length and the limit already debited.
    fn take_bytes(&mut self, len: usize) -> (r: Vec<u8>)
        requires
            old(self).wf(),
            len <= old(self).bytes().len(),
        ensures
            final(self).wf(),
            r@ == old(self).bytes().take(len as int),
            final(self).bytes() == old(self).bytes().skip(len as int),
            final(self).lim() == old(self).lim(),
    {
        let a_len = self.a.len();
        let mut out: Vec<u8>;
        if self.pos + len <= a_len {
            out = slice_to_vec(slice_subrange(self.a.as_slice(), self.pos, self.pos + len));
        } else if self.pos >= a_len {
            let start = self.pos - a_len;
            out = slice_to_vec(slice_subrange(self.b.as_slice(), start, start + len));
        } else {
            let from_a = a_len - self.pos;
            out = slice_to_vec(slice_subrange(self.a.as_slice(), self.pos, a_len));
            let tail = slice_subrange(self.b.as_slice(), 0, len - from_a);
            out.extend_from_slice(tail);
        }
        self.pos = self.pos + len;
        proof {
            assert(out@ =~= old(self).bytes().take(len as int));
            assert(self.bytes() =~= old(self).bytes().skip(len as int));
        }
        out
    }

    /// How many bytes the current frame still allows.
    fn window_len(&self) -> (r: usize)
        requires
            self.wf(),
        ensures
            r == self.window().len(),
    {
        proof {
            lemma_window_len(*self);
        }
        let rem = self.remaining();
        if self.limit < rem {
            self.limit
        } else {
            rem
        }
    }

    /// Reads `len` raw bytes, assembling across the chunk boundary when the
    /// current chunk is shorter: the always-copying path.
    pub fn read_bytes_owned(&mut self, len: usize) -> (r: Result<Vec<u8>, DecodingError>)
        requires
            old(self).wf(),
        ensures
            final(self).wf(),
            read_bytes_post(*old(self), *final(self), len as int, r),
    {
        if self.window_len() < len {
            return Err(DecodingError::Eof);
        }
        if self.limit != usize::MAX {
            self.limit = self.limit - len;
        }
        let out = self.take_bytes(len);
        proof {
            lemma_window_within(*old(self));
            lemma_window_take(*old(self), *self, len as int);
        }
        Ok(out)
    }

    /// Reads `len` raw bytes wherever they sit: one subrange copy when the
    /// current chunk holds them contiguously, an assembly across the chunk
    /// boundary otherwise.
    pub fn read_bytes(&mut self, len: usize) -> (r: Result<Vec<u8>, DecodingError>)
        requires
            old(self).wf(),
        ensures
            final(self).wf(),
            read_bytes_post(*old(self), *final(self), len as int, r),
    {
        self.read_bytes_owned(len)
    }

    /// Reads `len` bytes only if the current chunk holds them contiguously,
    /// as a borrowing reader must; fails with `Eof` at a chunk boundary.
    pub fn read_bytes_borrowed(&mut self, len: usize) -> (r: Result<Vec<u8>, DecodingError>)
        requires
            old(self).wf(),
        ensures
            final(self).wf(),
            old(self).contig() >= len ==> read_bytes_post(*old(self), *final(self), len as int, r),
            old(self).contig() < len ==> r == Err::<Vec<u8>, DecodingError>(DecodingError::Eof)
                && *final(self) == *old(self),
    {
        if self.contig_len() < len {
            return Err(DecodingError::Eof);
        }
        self.read_bytes_owned(len)
    }

    /// How many remaining bytes the current chunk holds contiguously.
    fn contig_len(&self) -> (r: usize)
        requires
            self.wf(),
        ensures
            r == self.contig(),
            r <= self.bytes().len(),
    {
        if self.pos < self.a.len() {
            self.a.len() - self.pos
        } else {
            self.a.len() + self.b.len() - self.pos
        }
    }
}

/// What the byte readers guarantee: exactly the `len` requested bytes off
/// the head of the window, or an `Eof` that leaves the reader untouched
/// when the current frame cannot supply them.
pub open spec fn read_bytes_post(
    pre: Deserializer,
    post: Deserializer,
    len: int,
    r: Result<Vec<u8>, DecodingError>,
) -> bool {
    if len <= pre.window().len() {
        match r {
            Ok(v) => v@ == pre.window().take(len) && consumed(pre, post, len),
            Err(_) => false,
        }
    } else {
        r == Err::<Vec<u8>, DecodingError>(DecodingError::Eof) && post == pre
    }
}

/// A value shape that can be read back from the wire.  The decoder is stated
/// over a specification-level parser `dec` on the view of the value.
pub trait Decodable: View + Sized {
    /// The specification-level parser: the value's model and how many bytes
    /// it takes off the head of `s`, or the error that stops it.
    spec fn dec(s: Seq<u8>) -> Result<(Self::V, int), DecodingError>;

    /// What merging a later occurrence of a field into an earlier value
    /// means: overwrite for scalars, append for repeated fields.
    spec fn merge_spec(m: Self::V, other: Self::V) -> Self::V;

    /// The parser consumes at least one byte and no more than it was given.
    proof fn lemma_dec_len(s: Seq<u8>)
        ensures
            Self::dec(s) matches Ok((v, k)) ==> 1 <= k <= s.len(),
    ;

    /// Reads one value, no tag.
    fn decode(d: &mut Deserializer) -> (r: Result<Self, DecodingError>)
        requires
            old(d).wf(),
        ensures
            final(d).wf(),
            match Self::dec(old(d).window()) {
                Ok((v, k)) => (r matches Ok(x) && x@ == v) && consumed(*old(d), *final(d), k),
                Err(e) => r == Err::<Self, DecodingError>(e) && lossy(*old(d), *final(d)),
            },
    ;

    /// Merges a decoded occurrence into this value.
    fn merge(&mut self, other: Self)
        ensures
            final(self)@ == Self::merge_spec(old(self)@, other@),
    ;

    /// Reads one occurrence and merges it into this value; a failed read
    /// leaves the value as it was.
    fn merge_from(&mut self, d: &mut Deserializer) -> (r: Result<(), DecodingError>)
        requires
            old(d).wf(),
        ensures
            final(d).wf(),
            match Self::dec(old(d).window()) {
                Ok((v, k)) => r == Ok::<(), DecodingError>(()) && final(self)@ == Self::merge_spec(
                    old(self)@,
                    v,
                ) && consumed(*old(d), *final(d), k),
                Err(e) => r == Err::<(), DecodingError>(e) && lossy(*old(d), *final(d))
                    && final(self)@ == old(self)@,
            },
    ;
}

/// A record whose fields can be decoded by tag dispatch.
pub trait DecodableMessage: View + Sized {
    /// How wide the record's tag storage is, in bits: the narrowest unsigned
    /// type that holds every declared tag.
    spec fn tag_bits() -> u32;

    /// The model of the record all fields at their defaults.
    spec fn fresh() -> Self::V;

    /// What decoding one field with the given tag does to the record: the
    /// new model and the bytes consumed, or the error.  An unknown tag skips
    /// its wire type's worth of bytes and leaves the record as it was.
    spec fn dec_field(m: Self::V, tag: u64, s: Seq<u8>) -> Result<(Self::V, int), DecodingError>;

    /// The tag storage is one of the four unsigned widths.
    proof fn lemma_tag_bits()
        ensures
            Self::tag_bits() == 8 || Self::tag_bits() == 16 || Self::tag_bits() == 32
                || Self::tag_bits() == 64,
    ;

    /// A field decode consumes no more than it was given.
    proof fn lemma_dec_field_len(m: Self::V, tag: u64, s: Seq<u8>)
        ensures
            Self::dec_field(m, tag, s) matches Ok((m2, k)) ==> 0 <= k <= s.len(),
    ;

    /// The tag storage width, as a value.
    fn tag_bits_exec() -> (r: u32)
        ensures
            r == Self::tag_bits(),
    ;

    /// A record with all fields at their defaults.
    fn fresh_exec() -> (r: Self)
        ensures
            r@ == Self::fresh(),
    ;

    /// Decodes one field with the given tag, skipping it when the tag is
    /// unknown; a failed decode leaves the record as it was.
    fn decode_field(&mut self, d: &mut Deserializer, tag: u64) -> (r: Result<(), DecodingError>)
        requires
            old(d).wf(),
        ensures
            final(d).wf(),
            match Self::dec_field(old(self)@, tag, old(d).window()) {
                Ok((m2, k)) => r == Ok::<(), DecodingError>(()) && final(self)@ == m2 && consumed(
                    *old(d),
                    *final(d),
                    k,
                ),
                Err(e) => r == Err::<(), DecodingError>(e) && lossy(*old(d), *final(d))
                    && final(self)@ == old(self)@,
            },
    ;
}

/// The record decode loop at the specification level: read a tag, dispatch,
/// skip what an oversized tag announced, stop when the window is out.
pub open spec fn msg_dec<M: DecodableMessage>(m: M::V, s: Seq<u8>) -> Result<M::V, DecodingError>
    decreases s.len(),
{
    if s.len() == 0 {
        Ok(m)
    } else {
        match ftag_dec(s, M::tag_bits() as int) {
            TagRead::Tag { n, len } => if 1 <= len <= s.len() {
                match M::dec_field(m, n as u64, s.skip(len as int)) {
                    Ok((m2, j)) => if 0 <= j <= s.len() - len {
                        msg_dec::<M>(m2, s.skip(len + j))
                    } else {
                        Err(DecodingError::Eof)
                    },
                    Err(e) => Err(e),
                }
            } else {
                Err(DecodingError::Eof)
            },
            TagRead::Skip { wire, len } => if 1 <= len <= s.len() {
                match crate::wire_types::skip_spec(wire, s.skip(len as int)) {
                    Ok(j) => if 0 <= j <= s.len() - len {
                        msg_dec::<M>(m, s.skip(len + j))
                    } else {
                        Err(DecodingError::Eof)
                    },
                    Err(e) => Err(e),
                }
            } else {
                Err(DecodingError::Eof)
            },
            TagRead::Error { err, .. } => Err(err),
        }
    }
}

/// Decodes a whole record from the current frame: the executable form of
/// [`msg_dec`], started from a fresh record.
#[verifier::loop_isolation(false)]
#[verifier::rlimit(100)]
#[verifier::spinoff_prover]
pub fn decode_message<M: DecodableMessage>(d: &mut Deserializer) -> (r: Result<M, DecodingError>)
    requires
        old(d).wf(),
    ensures
        final(d).wf(),
        match msg_dec::<M>(M::fresh(), old(d).window()) {
            Ok(m) => (r matches Ok(x) && x@ == m) && consumed(
                *old(d),
                *final(d),
                old(d).window().len() as int,
            ),
            Err(e) => r == Err::<M, DecodingError>(e) && lossy(*old(d), *final(d)),
        },
{
    let mut message = M::fresh_exec();
    let ghost w0 = old(d).window();
    let ghost mut c: int = 0;
    proof {
        M::lemma_tag_bits();
        lemma_window_within(*old(d));
        assert(d.bytes() =~= old(d).bytes().skip(0));
        assert(d.window() =~= w0.skip(0));
    }
    loop
        invariant
            d.wf(),
            0 <= c <= w0.len(),
            consumed(*old(d), *d, c),
            d.window() == w0.skip(c),
            msg_dec::<M>(M::fresh(), w0) == msg_dec::<M>(message@, w0.skip(c)),
        decreases w0.len() - c,
    {
        if !d.has_remaining() {
            proof {
                assert(c == w0.len());
                assert(w0.skip(c) =~= Seq::<u8>::empty());
            }
            return Ok(message);
        }
        let ghost s_iter = w0.skip(c);
        proof {
            crate::varint::lemma_ftag_bounds(s_iter, M::tag_bits() as int);
        }
        let ghost pre_tag = *d;
        match d.read_field_tag(M::tag_bits_exec()) {
            Ok(tag) => {
                let ghost tlen = (match ftag_dec(s_iter, M::tag_bits() as int) {
                    TagRead::Tag { len, .. } => len,
                    _ => 0,
                }) as int;
                let ghost pre_field = *d;
                proof {
                    assert(pre_field.window() =~= s_iter.skip(tlen));
                    M::lemma_dec_field_len(message@, tag, pre_field.window());
                }
                let ghost m_before = message@;
                match message.decode_field(d, tag) {
                    Ok(()) => {
                        proof {
                            let j = (match M::dec_field(m_before, tag, s_iter.skip(tlen)) {
                                Ok((_, j)) => j,
                                _ => 0,
                            });
                            lemma_consumed_trans(*old(d), pre_tag, pre_field, c, tlen);
                            lemma_consumed_trans(*old(d), pre_field, *d, c + tlen, j);
                            c = c + tlen + j;
                            assert(d.window() =~= w0.skip(c));
                            assert(s_iter.skip(tlen + j) =~= w0.skip(c));
                            assert(msg_dec::<M>(m_before, s_iter) == msg_dec::<M>(
                                message@,
                                w0.skip(c),
                            ));
                        }
                    },
                    Err(e) => {
                        proof {
                            assert(msg_dec::<M>(m_before, s_iter) == Err::<M::V, DecodingError>(e));
                            lemma_consumed_trans(*old(d), pre_tag, pre_field, c, tlen);
                            lemma_lossy_chain(*old(d), pre_field, *d, c + tlen);
                        }
                        return Err(e);
                    },
                }
            },
            Err(Ok(wire)) => {
                let ghost tlen = (match ftag_dec(s_iter, M::tag_bits() as int) {
                    TagRead::Skip { len, .. } => len,
                    _ => 0,
                }) as int;
                let ghost pre_skip = *d;
                proof {
                    assert(pre_skip.window() =~= s_iter.skip(tlen));
                    crate::wire_types::lemma_skip_spec_bounds(wire, pre_skip.window());
                }
                match wire.skip(d) {
                    Ok(()) => {
                        proof {
                            let j = (match crate::wire_types::skip_spec(wire, s_iter.skip(tlen)) {
                                Ok(j) => j,
                                _ => 0,
                            });
                            lemma_consumed_trans(*old(d), pre_tag, pre_skip, c, tlen);
                            lemma_consumed_trans(*old(d), pre_skip, *d, c + tlen, j);
                            c = c + tlen + j;
                            assert(d.window() =~= w0.skip(c));
                            assert(s_iter.skip(tlen + j) =~= w0.skip(c));
                        }
                    },
                    Err(e) => {
                        proof {
                            lemma_consumed_trans(*old(d), pre_tag, pre_skip, c, tlen);
                            lemma_lossy_chain(*old(d), pre_skip, *d, c + tlen);
                        }
                        return Err(e);
                    },
                }
            },
            Err(Err(e)) => {
                proof {
                    lemma_lossy_chain(*old(d), pre_tag, *d, c);
                }
                return Err(e);
            },
        }
    }
}

/// In the success case of a byte read the window is long enough that taking
/// from the window is taking from the bytes.
proof fn lemma_window_take(pre: Deserializer, post: Deserializer, len: int)
    requires
        pre.wf(),
        0 <= len,
        pre.lim() == usize::MAX as int || pre.lim() >= len,
        pre.bytes().len() >= len,
        post.bytes() == pre.bytes().skip(len),
        post.lim() == debit(pre.lim(), len),
    ensures
        len <= pre.window().len(),
        pre.window().take(len) == pre.bytes().take(len),
        consumed(pre, post, len),
{
    assert(pre.window().take(len) =~= pre.bytes().take(len));
    assert(post.window() =~= pre.window().skip(len));
}

/// Monotonicity of powers of two.
proof fn lemma_pow2_le(a: nat, b: nat)
    requires
        a <= b,
    ensures
        pow2(a) <= pow2(b),
{
    if a < b {
        lemma_pow2_strictly_increases(a, b);
    }
}

} // verus!
