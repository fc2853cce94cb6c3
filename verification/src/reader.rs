//! Bit-level reading: consumes bits most-significant-first from a byte source,
//! pulling one new byte only when the cached partial byte is exhausted.

use crate::bits::{
    bits_int, bytes_bits, exec_pow2, lemma_bits_int_bound, lemma_bits_int_concat,
    lemma_bytes_bits_len, lemma_bytes_bits_skip, lemma_low_bits_int, lemma_low_bits_mod,
    lemma_low_bits_skip, lemma_low_bits_take, lemma_pow2_64_max, lemma_pow2_mul_bound, low_bits,
};
use crate::stream::{BitError, ByteSource, SeekFrom, SeekableByteSource};
use vstd::arithmetic::div_mod::lemma_small_mod;
use vstd::arithmetic::power2::{
    lemma2_to64, lemma_pow2_adds, lemma_pow2_pos, lemma_pow2_strictly_increases, pow2,
};
use vstd::prelude::*;

verus! {

/// Adds bit-level reading on top of any byte source.
///
/// The most significant still-unconsumed bit of the current byte is always the
/// next bit read; a fresh byte is fetched only when the cached bits run out.
#[derive(Debug)]
pub struct BitReader<R: ByteSource> {
    inner: R,
    buffer: u8,
    unused: u8,
}

impl<R: ByteSource> BitReader<R> {
    /// The cache holds `unused` still-unread bits, in the low end of `buffer`.
    pub closed spec fn wf(&self) -> bool {
        self.unused <= 8 && (self.buffer as nat) < pow2(self.unused as nat)
    }

    /// The source behind this reader.
    pub closed spec fn source(&self) -> &R {
        &self.inner
    }

    /// The bytes the source still holds, from its cursor on.
    pub closed spec fn source_bytes(&self) -> Seq<u8> {
        if 0 <= self.inner.pos() <= self.inner.data().len() {
            self.inner.data().skip(self.inner.pos())
        } else {
            Seq::empty()
        }
    }

    /// Every bit still to be read: the cached bits, then the source's bytes.
    pub closed spec fn remaining(&self) -> Seq<bool> {
        low_bits(self.buffer as nat, self.unused as nat) + bytes_bits(self.source_bytes())
    }

    /// How many still-unread bits the cache holds, in `0..=8`; 0 means the
    /// next read must fetch a byte from the source.
    pub closed spec fn cached(&self) -> u8 {
        self.unused
    }

    /// Wraps the given source; nothing is cached yet, so the bits to come are
    /// exactly the source's bytes from its current position on.
    pub fn new(inner: R) -> (r: Self)
        ensures
            r.wf(),
            *r.source() == inner,
            r.cached() == 0,
            r.remaining() == bytes_bits(r.source_bytes()),
            0 <= inner.pos() <= inner.data().len() ==> r.remaining() == bytes_bits(
                inner.data().skip(inner.pos()),
            ),
    {
        let r = BitReader { inner, buffer: 0, unused: 0 };
        proof {
            lemma2_to64();
            assert(low_bits(0, 0) =~= Seq::<bool>::empty());
            assert(r.remaining() =~= bytes_bits(r.source_bytes()));
        }
        r
    }

    /// Discards the cached bits; the next read fetches a fresh byte from the
    /// source's current position. The source itself is not touched.
    pub fn reset(&mut self)
        ensures
            final(self).wf(),
            *final(self).source() == *old(self).source(),
            final(self).cached() == 0,
            final(self).remaining() == bytes_bits(final(self).source_bytes()),
            0 <= old(self).source().pos() <= old(self).source().data().len()
                ==> final(self).remaining() == bytes_bits(
                old(self).source().data().skip(old(self).source().pos()),
            ),
    {
        self.buffer = 0;
        self.unused = 0;
        proof {
            lemma2_to64();
            assert(low_bits(0, 0) =~= Seq::<bool>::empty());
            assert(self.remaining() =~= bytes_bits(self.source_bytes()));
        }
    }

    /// Reads the next `nbits` bits as an unsigned value whose top `64 - nbits`
    /// bits are zero; the earliest bit read lands in the most significant of
    /// the requested bits. A bit count above 64 is a caller bug and is
    /// excluded by precondition; a source that runs out of bytes first is an
    /// end-of-stream failure. The refill is lazy: cached bits are served
    /// first, and on success exactly enough whole bytes are fetched to cover
    /// the rest — none at all when the cache suffices.
    pub fn read_bits(&mut self, nbits: u8) -> (r: Result<u64, BitError>)
        requires
            old(self).wf(),
            nbits <= 64,
        ensures
            final(self).wf(),
            final(self).source().data() == old(self).source().data(),
            nbits as nat <= old(self).remaining().len() ==> r is Ok
                && (r->Ok_0 as nat) == bits_int(old(self).remaining().take(nbits as int))
                && final(self).remaining() == old(self).remaining().skip(nbits as int),
            nbits as nat <= old(self).remaining().len() && nbits <= old(self).cached()
                ==> *final(self).source() == *old(self).source() && final(self).cached()
                == old(self).cached() - nbits,
            nbits as nat <= old(self).remaining().len() && nbits > old(self).cached()
                ==> final(self).source().pos() == old(self).source().pos() + (nbits - old(
                self).cached() + 7) / 8 && final(self).cached() as int == (8 - (nbits - old(
                self).cached()) % 8) % 8,
            nbits as nat > old(self).remaining().len() ==> r == Err::<u64, BitError>(
                BitError::EndOfStream,
            ),
    {
        let ghost orig = old(self).remaining();
        let ghost u0 = old(self).unused;
        let ghost mut nread: int = 0;
        let mut ret: u64 = 0;
        let mut rbits: u8 = nbits;
        proof {
            assert(orig.take(0) =~= Seq::<bool>::empty());
            lemma2_to64();
            assert(bits_int(orig.take(0)) * pow2(nbits as nat) == 0) by (nonlinear_arith)
                requires
                    bits_int(orig.take(0)) == 0,
            ;
            assert(orig.skip(0) =~= orig);
        }
        while rbits > self.unused
            invariant
                self.wf(),
                rbits <= nbits,
                nbits <= 64,
                self.inner.data() == old(self).inner.data(),
                nbits - rbits <= orig.len(),
                self.remaining() == orig.skip((nbits - rbits) as int),
                ret as nat == bits_int(orig.take((nbits - rbits) as int)) * pow2(rbits as nat),
                orig == old(self).remaining(),
                u0 == old(self).unused,
                nread >= 0,
                self.inner.pos() == old(self).inner.pos() + nread,
                nread == 0 ==> *self == *old(self) && rbits == nbits,
                nread >= 1 ==> self.unused == 8 && 1 <= rbits && nbits - rbits == u0 + 8 * (nread
                    - 1),
            decreases rbits as int, 8 - self.unused as int,
        {
            let ghost cons = (nbits - rbits) as int;
            let ghost buf0 = self.buffer;
            let u = self.unused;
            if u > 0 {
                let shift = rbits - u;
                proof {
                    lemma_pow2_adds(u as nat, shift as nat);
                    lemma_pow2_pos(shift as nat);
                    lemma_pow2_mul_bound(self.buffer as nat, 0, u as nat, shift as nat);
                    lemma_bits_int_bound(orig.take(cons));
                    lemma_pow2_mul_bound(
                        bits_int(orig.take(cons)),
                        (self.buffer as nat) * pow2(shift as nat),
                        cons as nat,
                        rbits as nat,
                    );
                    lemma_pow2_64_max();
                }
                let t = (self.buffer as u64) * exec_pow2(shift);
                ret = ret + t;
                rbits = rbits - u;
                proof {
                    assert(orig.skip(cons).len() == u + bytes_bits(self.source_bytes()).len());
                    assert(cons + u <= orig.len());
                    assert(orig.skip(cons).take(u as int) =~= low_bits(buf0 as nat, u as nat));
                    assert(orig.take(cons + u) =~= orig.take(cons) + orig.skip(cons).take(
                        u as int,
                    ));
                    lemma_bits_int_concat(orig.take(cons), low_bits(buf0 as nat, u as nat));
                    lemma_low_bits_int(buf0 as nat, u as nat);
                    lemma_small_mod(buf0 as nat, pow2(u as nat));
                    assert((bits_int(orig.take(cons)) * pow2(u as nat) + buf0 as nat) * pow2(
                        shift as nat,
                    ) == bits_int(orig.take(cons)) * (pow2(u as nat) * pow2(shift as nat)) + (
                    buf0 as nat) * pow2(shift as nat)) by (nonlinear_arith);
                    assert(ret as nat == bits_int(orig.take(cons + u)) * pow2(rbits as nat));
                }
            }
            let ghost sb0 = self.source_bytes();
            let b = match self.inner.read_byte() {
                Ok(b) => b,
                Err(_) => {
                    proof {
                        assert(self.source_bytes() =~= Seq::<u8>::empty());
                        assert(self.remaining().len() == u as nat);
                        assert(orig.len() < nbits as nat);
                    }
                    return Err(BitError::EndOfStream);
                },
            };
            proof {
                assert(sb0.len() > 0);
                assert(b == sb0[0]);
            }
            self.buffer = b;
            self.unused = 8;
            proof {
                nread = nread + 1;
                lemma2_to64();
                assert(self.source_bytes() =~= sb0.skip(1));
                assert(orig.skip(cons) == low_bits(buf0 as nat, u as nat) + bytes_bits(sb0));
                assert(orig.skip(cons + u) =~= orig.skip(cons).skip(u as int));
                assert(orig.skip(cons).skip(u as int) =~= bytes_bits(sb0));
                assert(orig.skip(cons + u) =~= bytes_bits(sb0));
                assert(self.remaining() =~= bytes_bits(sb0));
                assert(orig.len() - (cons + u) == self.remaining().len());
            }
        }
        let ghost cons = (nbits - rbits) as int;
        proof {
            assert(orig.len() >= nbits as nat);
            if nread >= 1 {
                assert(1 <= rbits <= 8);
                assert(nbits - u0 == 8 * (nread - 1) + rbits);
                assert((nbits - u0 + 7) / 8 == nread);
                assert((8 - (nbits - u0) % 8) % 8 == 8 - rbits);
            } else {
                assert(rbits == nbits && nbits <= u0);
            }
        }
        if rbits > 0 {
            let ghost buf0 = self.buffer;
            let u = self.unused;
            let shift = u - rbits;
            proof {
                lemma2_to64();
                lemma_pow2_strictly_increases(shift as nat, 8);
                lemma_pow2_adds(rbits as nat, shift as nat);
                assert((buf0 as nat) / pow2(shift as nat) < pow2(rbits as nat)) by (nonlinear_arith)
                    requires
                        (buf0 as nat) < pow2(u as nat),
                        pow2(u as nat) == pow2(rbits as nat) * pow2(shift as nat),
                        pow2(shift as nat) > 0,
                        pow2(rbits as nat) > 0,
                ;
            }
            let p = exec_pow2(shift);
            let q = (self.buffer as u64) / p;
            proof {
                lemma_bits_int_bound(orig.take(cons));
                lemma_pow2_mul_bound(bits_int(orig.take(cons)), q as nat, cons as nat,
                    rbits as nat);
                lemma_pow2_64_max();
            }
            ret = ret + q;
            self.buffer = self.buffer % (p as u8);
            self.unused = u - rbits;
            proof {
                assert(orig.take(nbits as int) =~= orig.take(cons) + orig.skip(cons).take(
                    rbits as int,
                ));
                assert(orig.skip(cons).take(rbits as int) =~= low_bits(buf0 as nat, u as nat).take(
                    rbits as int,
                ));
                lemma_low_bits_take(buf0 as nat, u as nat, rbits as nat);
                lemma_bits_int_concat(orig.take(cons), low_bits(q as nat, rbits as nat));
                lemma_low_bits_int(q as nat, rbits as nat);
                lemma_small_mod(q as nat, pow2(rbits as nat));
                assert(ret as nat == bits_int(orig.take(nbits as int)));
                assert(orig.skip(nbits as int) =~= orig.skip(cons).skip(rbits as int));
                assert(orig.skip(cons).skip(rbits as int) =~= low_bits(buf0 as nat, u as nat).skip(
                    rbits as int,
                ) + bytes_bits(self.source_bytes()));
                lemma_low_bits_skip(buf0 as nat, u as nat, rbits as nat);
                lemma_low_bits_mod(buf0 as nat, shift as nat, shift as nat);
                assert(low_bits(self.buffer as nat, shift as nat) == low_bits(
                    buf0 as nat,
                    shift as nat,
                ));
                assert(self.remaining() == orig.skip(nbits as int));
            }
        } else {
            proof {
                lemma2_to64();
                assert(ret as nat == bits_int(orig.take(nbits as int))) by (nonlinear_arith)
                    requires
                        ret as nat == bits_int(orig.take(nbits as int)) * pow2(0),
                        pow2(0) == 1,
                ;
            }
        }
        Ok(ret)
    }

    /// Reads a single bit: 1 when the next bit is set, else 0.
    pub fn read_bit(&mut self) -> (r: Result<u8, BitError>)
        requires
            old(self).wf(),
        ensures
            final(self).wf(),
            final(self).source().data() == old(self).source().data(),
            old(self).remaining().len() >= 1 ==> r is Ok && r->Ok_0 == (if old(self).remaining()[0] {
                1u8
            } else {
                0u8
            }) && final(self).remaining() == old(self).remaining().skip(1),
            old(self).remaining().len() == 0 ==> r == Err::<u8, BitError>(BitError::EndOfStream),
    {
        let ghost orig = old(self).remaining();
        match self.read_bits(1) {
            Ok(v) => {
                proof {
                    if orig.len() >= 1 {
                        assert(orig.take(1).drop_last() =~= Seq::<bool>::empty());
                        assert(bits_int(Seq::<bool>::empty()) == 0);
                        assert(orig.take(1).last() == orig[0]);
                        assert(bits_int(orig.take(1)) == (if orig[0] {
                            1nat
                        } else {
                            0nat
                        }));
                    }
                }
                Ok(v as u8)
            },
            Err(e) => Err(e),
        }
    }

    /// A reference to the source.
    pub fn get_ref(&self) -> (r: &R)
        ensures
            r == self.source(),
    {
        &self.inner
    }

    /// A mutable reference to the source. Call `reset` afterwards if its
    /// position was moved or it was otherwise mutated, or stale cached bits
    /// will be served first.
    pub fn get_mut(&mut self) -> (r: &mut R)
        ensures
            *r == *old(self).source(),
            *final(self).source() == *final(r),
            final(self).wf() == old(self).wf(),
            final(r).data() == old(self).source().data() && final(r).pos() == old(
                self,
            ).source().pos() ==> final(self).remaining() == old(self).remaining(),
    {
        &mut self.inner
    }

    /// Unwraps the reader, returning the source and discarding cached bits.
    pub fn into_inner(self) -> (r: R)
        ensures
            r == *self.source(),
    {
        self.inner
    }
}

impl<R: SeekableByteSource> BitReader<R> {
    /// Moves the cursor to the given bit position: `Start(p)` puts it `p` bits
    /// after the start of the stream, `End(e)` with negative `e` puts it `-e`
    /// bits before its end, and the absolute bit position reached is returned.
    /// `End` with a non-negative offset and `Current` are unsupported.
    pub fn seek(&mut self, pos: SeekFrom) -> (r: Result<u64, BitError>)
        requires
            old(self).wf(),
            old(self).source().data().len() * 8 <= u64::MAX,
        ensures
            final(self).wf(),
            final(self).source().data() == old(self).source().data(),
            pos matches SeekFrom::Start(p) ==> {
                let total = 8 * old(self).source().data().len();
                &&& p as nat <= total ==> r == Ok::<u64, BitError>(p) && final(self).remaining()
                    == bytes_bits(old(self).source().data()).skip(p as int)
                &&& p as nat > total && p % 8 == 0 ==> r == Ok::<u64, BitError>(p) && final(self).remaining() == Seq::<bool>::empty()
                &&& p as nat > total && p % 8 != 0 ==> r == Err::<u64, BitError>(
                    BitError::EndOfStream,
                )
            },
            pos matches SeekFrom::End(e) ==> {
                let total = 8 * old(self).source().data().len();
                &&& e < 0 && -(e as int) <= total ==> r == Ok::<u64, BitError>((total + e) as u64)
                    && final(self).remaining() == bytes_bits(old(self).source().data()).skip(
                    total + e,
                )
                &&& e < 0 && -(e as int) > total ==> r == Err::<u64, BitError>(
                    BitError::EndOfStream,
                )
                &&& e >= 0 ==> r == Err::<u64, BitError>(BitError::UnsupportedSeek)
                    && *final(self).source() == *old(self).source()
            },
            pos matches SeekFrom::Current(_) ==> r == Err::<u64, BitError>(
                BitError::UnsupportedSeek,
            ) && *final(self) == *old(self),
    {
        let ghost data = old(self).inner.data();
        match pos {
            SeekFrom::Start(p) => {
                self.reset();
                self.inner.seek_to(p / 8);
                proof {
                    lemma2_to64();
                    assert(low_bits(0, 0) =~= Seq::<bool>::empty());
                    assert(self.remaining() =~= bytes_bits(self.source_bytes()));
                    lemma_bytes_bits_len(self.source_bytes());
                    lemma_bytes_bits_len(data);
                    if p as nat <= 8 * data.len() {
                        lemma_bytes_bits_skip(data, (p / 8) as int);
                    } else {
                        assert(self.source_bytes() =~= Seq::<u8>::empty());
                    }
                }
                match self.read_bits((p % 8) as u8) {
                    Ok(_) => {
                        proof {
                            if p as nat <= 8 * data.len() {
                                assert(bytes_bits(data).skip(8 * ((p / 8) as int)).skip(
                                    (p % 8) as int,
                                ) =~= bytes_bits(data).skip(p as int));
                            } else {
                                assert(final(self).remaining() =~= Seq::<bool>::empty());
                            }
                        }
                        Ok(p)
                    },
                    Err(e) => Err(e),
                }
            },
            SeekFrom::End(e) => {
                self.reset();
                if e < 0 {
                    let kw: i128 = -(e as i128);
                    let k: u64 = kw as u64;
                    let m: u64 = k / 8 + (if k % 8 == 0 {
                        0
                    } else {
                        1
                    });
                    let d: u8 = (m * 8 - k) as u8;
                    proof {
                        lemma2_to64();
                        assert(low_bits(0, 0) =~= Seq::<bool>::empty());
                        lemma_bytes_bits_len(data);
                    }
                    match self.inner.seek_back(m) {
                        Ok(ipos) => {
                            proof {
                                assert(self.remaining() =~= bytes_bits(self.source_bytes()));
                                lemma_bytes_bits_len(self.source_bytes());
                                lemma_bytes_bits_skip(data, data.len() - m as int);
                            }
                            match self.read_bits(d) {
                                Ok(_) => {
                                    proof {
                                        assert(bytes_bits(data).skip(
                                            8 * (data.len() - m as int),
                                        ).skip(d as int) =~= bytes_bits(data).skip(
                                            8 * data.len() + e,
                                        ));
                                    }
                                    Ok(ipos * 8 + d as u64)
                                },
                                Err(err) => Err(err),
                            }
                        },
                        Err(err) => Err(err),
                    }
                } else {
                    Err(BitError::UnsupportedSeek)
                }
            },
            SeekFrom::Current(_) => Err(BitError::UnsupportedSeek),
        }
    }
}

} // verus!
