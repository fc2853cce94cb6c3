//! Bit-level writing: packs bits most-significant-first into bytes and hands
//! each completed byte to a byte sink.

use crate::bits::{
    bytes_bits, exec_pow2, lemma_bytes_bits_len, lemma_bytes_bits_push, lemma_low_bits_combine,
    lemma_low_bits_mod, lemma_low_bits_skip, lemma_low_bits_take, lemma_pow2_mul_bound, low_bits,
};
use crate::stream::{BitError, ByteSink};
use vstd::arithmetic::power2::{lemma2_to64, lemma_pow2_strictly_increases, pow2};
use vstd::prelude::*;

verus! {

/// Adds bit-level writing on top of any byte sink.
///
/// Bits accumulate most-significant-first in a partial byte; each time the
/// partial byte fills, it is emitted to the sink. `flush_bits` pads the last
/// partial byte with zero bits.
#[derive(Debug)]
pub struct BitWriter<W: ByteSink> {
    inner: W,
    buffer: u8,
    free: u8,
}

impl<W: ByteSink> BitWriter<W> {
    /// The accumulator holds `8 - free` pending bits, in the low end of `buffer`.
    pub closed spec fn wf(&self) -> bool {
        1 <= self.free <= 8 && (self.buffer as nat) < pow2((8 - self.free) as nat)
    }

    /// Every bit delivered so far: the sink's bytes, then the pending bits.
    pub closed spec fn bits_written(&self) -> Seq<bool> {
        bytes_bits(self.inner.written()) + low_bits(self.buffer as nat, (8 - self.free) as nat)
    }

    /// The sink behind this writer.
    pub closed spec fn sink(&self) -> &W {
        &self.inner
    }

    /// Wraps the given sink; no bits are pending.
    pub fn new(inner: W) -> (r: Self)
        ensures
            r.wf(),
            *r.sink() == inner,
            r.free() == 8,
            r.bits_written() == bytes_bits(inner.written()),
    {
        let r = BitWriter { inner, buffer: 0, free: 8 };
        proof {
            lemma2_to64();
            assert(low_bits(0, 0) =~= Seq::<bool>::empty());
            assert(bytes_bits(r.inner.written()) + Seq::<bool>::empty() =~= bytes_bits(
                r.inner.written(),
            ));
        }
        r
    }

    /// Writes the low `nbits` bits of `value`, most significant of those first,
    /// and reports how many bits were consumed. A bit count above 64 is a
    /// caller bug and is excluded by precondition.
    #[verifier::rlimit(30)]
    pub fn write_bits(&mut self, nbits: u8, value: u64) -> (r: Result<usize, BitError>)
        requires
            old(self).wf(),
            nbits <= 64,
        ensures
            final(self).wf(),
            final(self).sink().reliable() == old(self).sink().reliable(),
            r is Ok ==> r == Ok::<usize, BitError>(nbits as usize) && final(self).bits_written()
                == old(self).bits_written() + low_bits(value as nat, nbits as nat),
            r is Ok ==> bytes_bits(final(self).sink().written())
                == final(self).bits_written().take(8 * final(self).sink().written().len() as int),
            r is Err ==> r == Err::<usize, BitError>(BitError::WriteFailure),
            old(self).sink().reliable() ==> r is Ok,
            nbits == 0 ==> r == Ok::<usize, BitError>(0) && *final(self) == *old(self),
    {
        let ghost orig = old(self).bits_written();
        let ghost vbits = low_bits(value as nat, nbits as nat);
        if nbits == 0 {
            proof {
                assert(vbits =~= Seq::<bool>::empty());
                assert(orig + vbits =~= orig);
                lemma_bytes_bits_len(self.inner.written());
                assert(bytes_bits(self.inner.written()) =~= self.bits_written().take(
                    8 * self.inner.written().len() as int,
                ));
            }
            return Ok(0);
        }
        let mut rem: u8 = nbits;

        // Complete the current partial byte when the request can fill it.
        if rem >= self.free && self.free < 8 {
            let f = self.free;
            let excess = rem - f;
            let pf = exec_pow2(f);
            proof {
                lemma2_to64();
                lemma_pow2_strictly_increases(f as nat, 8);
            }
            let top = ((value / exec_pow2(excess)) % pf) as u8;
            proof {
                lemma_pow2_mul_bound(self.buffer as nat, top as nat, (8 - f) as nat, f as nat);
            }
            let byte = self.buffer * (pf as u8) + top;
            match self.inner.write_byte(byte) {
                Ok(_) => {},
                Err(_) => {
                    return Err(BitError::WriteFailure);
                },
            }
            proof {
                lemma_bytes_bits_push(old(self).inner.written(), byte);
                lemma_low_bits_combine(
                    self.buffer as nat,
                    top as nat,
                    (8 - f) as nat,
                    f as nat,
                );
                lemma_low_bits_mod((value as nat) / pow2(excess as nat), f as nat, f as nat);
                lemma_low_bits_take(value as nat, nbits as nat, f as nat);
                assert(low_bits(byte as nat, 8) == low_bits(self.buffer as nat, (8 - f) as nat)
                    + vbits.take(f as int));
                assert(bytes_bits(self.inner.written()) =~= (orig + vbits.take(f as int)));
                assert(low_bits(0, 0) =~= Seq::<bool>::empty());
            }
            rem = excess;
            self.free = 8;
            self.buffer = 0;
            proof {
                assert(self.bits_written() =~= orig + vbits.take((nbits - rem) as int));
            }
        }

        // Emit whole bytes straight from the value.
        while rem >= 8
            invariant
                self.wf(),
                rem <= nbits <= 64,
                rem >= 8 ==> self.free == 8,
                self.free == 8 || rem < self.free,
                self.inner.reliable() == old(self).sink().reliable(),
                self.bits_written() == orig + low_bits(value as nat, nbits as nat).take(
                    (nbits - rem) as int,
                ),
                vbits == low_bits(value as nat, nbits as nat),
                orig == old(self).bits_written(),
            decreases rem,
        {
            let ghost cons = (nbits - rem) as int;
            let ghost w0 = self.inner.written();
            rem = rem - 8;
            let byte = ((value / exec_pow2(rem)) % 256) as u8;
            match self.inner.write_byte(byte) {
                Ok(_) => {},
                Err(_) => {
                    return Err(BitError::WriteFailure);
                },
            }
            proof {
                lemma_bytes_bits_push(w0, byte);
                lemma2_to64();
                lemma_low_bits_mod((value as nat) / pow2(rem as nat), 8, 8);
                lemma_low_bits_skip(value as nat, nbits as nat, cons as nat);
                lemma_low_bits_take(value as nat, (nbits - cons) as nat, 8);
                assert(low_bits(byte as nat, 8) == vbits.skip(cons).take(8));
                assert(vbits.take(cons + 8) =~= vbits.take(cons) + vbits.skip(cons).take(8));
                assert(self.buffer == 0);
                assert(low_bits(self.buffer as nat, (8 - self.free) as nat) =~= Seq::<
                    bool,
                >::empty());
                assert(bytes_bits(w0) =~= orig + vbits.take(cons));
                assert(self.bits_written() =~= orig + vbits.take(cons + 8));
            }
        }

        // Keep what is left as the new partial byte.
        if rem > 0 {
            let ghost cons = (nbits - rem) as int;
            let ghost oldbuf = self.buffer as nat;
            let ghost oldfree = self.free;
            let pr = exec_pow2(rem);
            proof {
                lemma2_to64();
                lemma_pow2_mul_bound(
                    self.buffer as nat,
                    ((value as nat) % pow2(rem as nat)),
                    (8 - self.free) as nat,
                    rem as nat,
                );
            }
            let low = (value % pr) as u8;
            self.buffer = self.buffer * (pr as u8) + low;
            self.free = self.free - rem;
            proof {
                lemma_low_bits_combine(
                    oldbuf,
                    low as nat,
                    (8 - oldfree) as nat,
                    rem as nat,
                );
                lemma_low_bits_mod(value as nat, rem as nat, rem as nat);
                lemma_low_bits_skip(value as nat, nbits as nat, cons as nat);
                assert(low_bits(self.buffer as nat, (8 - self.free) as nat) == low_bits(
                    oldbuf,
                    (8 - oldfree) as nat,
                ) + vbits.skip(cons));
                assert(self.bits_written() =~= orig + vbits.take(cons) + vbits.skip(cons));
                assert(orig + vbits.take(cons) + vbits.skip(cons) =~= orig + vbits);
            }
        } else {
            proof {
                assert(vbits.take(nbits as int) =~= vbits);
            }
        }
        proof {
            lemma_bytes_bits_len(self.inner.written());
            assert(bytes_bits(self.inner.written()) =~= self.bits_written().take(
                8 * self.inner.written().len() as int,
            ));
        }
        Ok(nbits as usize)
    }

    /// Writes a single bit, exactly as `write_bits(1, bit)` does. A bit value
    /// above 1 is a caller bug and is excluded by precondition.
    pub fn write_bit(&mut self, bit: u8) -> (r: Result<(), BitError>)
        requires
            old(self).wf(),
            bit <= 1,
        ensures
            final(self).wf(),
            final(self).sink().reliable() == old(self).sink().reliable(),
            r is Ok ==> final(self).bits_written() == old(self).bits_written() + low_bits(
                bit as nat,
                1,
            ),
            r is Ok ==> bytes_bits(final(self).sink().written())
                == final(self).bits_written().take(8 * final(self).sink().written().len() as int),
            r is Err ==> r == Err::<(), BitError>(BitError::WriteFailure),
            old(self).sink().reliable() ==> r is Ok,
    {
        match self.write_bits(1, bit as u64) {
            Ok(_) => Ok(()),
            Err(e) => Err(e),
        }
    }

    /// Emits the pending bits, padded with zero bits up to a whole byte, and
    /// reports how many padding bits were added; zero when already aligned.
    /// The count of bits written so far plus the padding is a multiple of 8.
    /// Does not flush the sink itself.
    pub fn flush_bits(&mut self) -> (r: Result<usize, BitError>)
        requires
            old(self).wf(),
        ensures
            final(self).wf(),
            final(self).sink().reliable() == old(self).sink().reliable(),
            r is Ok ==> ({
                let k = if old(self).free() == 8 {
                    0int
                } else {
                    old(self).free() as int
                };
                &&& r == Ok::<usize, BitError>(k as usize)
                &&& 0 <= k < 8
                &&& final(self).free() == 8
                &&& final(self).bits_written() == old(self).bits_written() + low_bits(0, k as nat)
                &&& (old(self).bits_written().len() + k) % 8 == 0
                &&& bytes_bits(final(self).sink().written()) == final(self).bits_written()
            }),
            r is Err ==> r == Err::<usize, BitError>(BitError::WriteFailure),
            old(self).sink().reliable() ==> r is Ok,
            old(self).free() == 8 ==> r == Ok::<usize, BitError>(0) && *final(self) == *old(self),
    {
        if self.free != 8 {
            let f = self.free;
            let pf = exec_pow2(f);
            proof {
                lemma2_to64();
                lemma_pow2_mul_bound(self.buffer as nat, 0, (8 - f) as nat, f as nat);
            }
            let byte = self.buffer * (pf as u8);
            match self.inner.write_byte(byte) {
                Ok(_) => {},
                Err(_) => {
                    return Err(BitError::WriteFailure);
                },
            }
            self.free = 8;
            self.buffer = 0;
            proof {
                lemma_bytes_bits_push(old(self).inner.written(), byte);
                lemma_low_bits_combine(old(self).buffer as nat, 0, (8 - f) as nat, f as nat);
                lemma_low_bits_mod(0, f as nat, f as nat);
                assert(low_bits(0, 0) =~= Seq::<bool>::empty());
                assert(self.bits_written() =~= old(self).bits_written() + low_bits(0, f as nat));
                assert(bytes_bits(self.inner.written()) =~= self.bits_written());
                lemma_bytes_bits_len(old(self).inner.written());
            }
            Ok(f as usize)
        } else {
            proof {
                lemma2_to64();
                assert(self.buffer == 0);
                assert(low_bits(0, 0) =~= Seq::<bool>::empty());
                assert(old(self).bits_written() + low_bits(0, 0) =~= old(self).bits_written());
                assert(bytes_bits(self.inner.written()) =~= self.bits_written());
                lemma_bytes_bits_len(old(self).inner.written());
            }
            Ok(0)
        }
    }

    /// As `flush_bits`, then also flushes the sink itself.
    pub fn flush(&mut self) -> (r: Result<usize, BitError>)
        requires
            old(self).wf(),
        ensures
            final(self).wf(),
            final(self).sink().reliable() == old(self).sink().reliable(),
            r is Ok ==> ({
                let k = if old(self).free() == 8 {
                    0int
                } else {
                    old(self).free() as int
                };
                &&& r == Ok::<usize, BitError>(k as usize)
                &&& 0 <= k < 8
                &&& final(self).free() == 8
                &&& final(self).bits_written() == old(self).bits_written() + low_bits(0, k as nat)
                &&& (old(self).bits_written().len() + k) % 8 == 0
                &&& bytes_bits(final(self).sink().written()) == final(self).bits_written()
            }),
            r is Err ==> r == Err::<usize, BitError>(BitError::WriteFailure),
            old(self).sink().reliable() ==> r is Ok,
            old(self).free() == 8 && r is Ok ==> r == Ok::<usize, BitError>(0),
            old(self).free() == 8 ==> final(self).bits_written() == old(self).bits_written()
                && final(self).sink().written() == old(self).sink().written(),
    {
        let written = match self.flush_bits() {
            Ok(k) => k,
            Err(e) => {
                return Err(e);
            },
        };
        match self.inner.flush() {
            Ok(_) => Ok(written),
            Err(e) => Err(e),
        }
    }

    /// How many bits the current partial byte still has room for, in `1..=8`;
    /// 8 means no bit is pending.
    pub closed spec fn free(&self) -> u8 {
        self.free
    }

    /// A reference to the sink.
    pub fn get_ref(&self) -> (r: &W)
        ensures
            r == self.sink(),
    {
        &self.inner
    }

    /// A mutable reference to the sink. Flush first if pending bits must not
    /// end up after bytes written through this reference.
    pub fn get_mut(&mut self) -> (r: &mut W)
        ensures
            *r == *old(self).sink(),
            *final(self).sink() == *final(r),
            final(self).free() == old(self).free(),
            final(self).wf() == old(self).wf(),
            old(self).wf() && final(r).written() == old(self).sink().written()
                && final(r).reliable() == old(self).sink().reliable() ==> final(self).bits_written()
                == old(self).bits_written() && final(self).sink().reliable() == old(
                self).sink().reliable(),
    {
        &mut self.inner
    }

    /// Unwraps the writer, returning the sink and discarding pending bits that
    /// were not flushed.
    pub fn into_inner(self) -> (r: W)
        ensures
            r == *self.sink(),
    {
        self.inner
    }
}

} // verus!
