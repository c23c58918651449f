//! A bit-level reader over an in-memory byte stream.  Bits are handed out
//! most-significant-bit first; up to seven bits left over from the last byte
//! pulled are kept in a sub-byte cache, so that reads of any width from one
//! to thirty-two bits cross byte boundaries without losing bits.
use vstd::prelude::*;
use vstd::arithmetic::power2::*;
use vstd::arithmetic::div_mod::*;
use vstd::arithmetic::mul::*;
use vstd::bits::*;

use crate::EndOfStream;
use crate::peeker::Peeker;
use crate::bits::bits_of;
use crate::bits::bits_value;
use crate::bits::bytes_to_bits;
use crate::bits::lemma_bits_of_concat;
use crate::bits::lemma_bits_of_inverse;
use crate::bits::lemma_bits_of_len;
use crate::bits::lemma_bits_of_mod;
use crate::bits::lemma_bits_of_skip;
use crate::bits::lemma_bits_of_take;
use crate::bits::lemma_bits_of_value;
use crate::bits::lemma_bits_value_append;
use crate::bits::lemma_bytes_to_bits_append;
use crate::bits::lemma_bytes_to_bits_len;
use crate::bits::lemma_bytes_to_bits_push;

verus! {

/// A sequential bit reader with a sub-byte cache, over a byte stream held
/// in memory.
pub struct BitReader {
    cache: u8,
    cache_length: u32,
    data: Vec<u8>,
    pos: usize,
}

impl BitReader {
    /// The whole underlying byte stream.
    pub closed spec fn stream(self) -> Seq<u8> {
        self.data@
    }

    /// The byte position up to which bytes have been pulled from the stream.
    pub closed spec fn byte_pos(self) -> nat {
        self.pos as nat
    }

    /// Bits pulled from the stream but not yet read, most significant first.
    pub closed spec fn cached_bits(self) -> Seq<bool> {
        bits_of(self.cache as nat, self.cache_length as nat)
    }

    /// How many bits the cache holds.
    pub closed spec fn cache_len(self) -> nat {
        self.cache_length as nat
    }

    /// The reader stands on a byte boundary: no partial byte is cached.
    pub closed spec fn aligned(self) -> bool {
        self.cache_length == 0
    }

    pub closed spec fn wf(self) -> bool {
        &&& self.cache_length < 8
        &&& (self.cache as nat) < pow2(self.cache_length as nat)
        &&& self.pos <= self.data@.len()
    }

    /// The unread bits of the stream: the cached bits followed by the bits
    /// of the bytes not yet pulled.
    pub open spec fn bits(self) -> Seq<bool> {
        self.cached_bits() + bytes_to_bits(self.stream().skip(self.byte_pos() as int))
    }

    /// What well-formedness gives a caller: the position stays inside the
    /// stream, the unread bits count the cached bits plus the bytes ahead,
    /// and an aligned reader's bits are exactly the bits of those bytes.
    pub proof fn lemma_bits_len(self)
        requires
            self.wf(),
        ensures
            self.byte_pos() <= self.stream().len(),
            self.bits().len() == self.cache_len() + 8 * (self.stream().len()
                - self.byte_pos()),
            self.cache_len() < 8,
            self.aligned() ==> self.bits() == bytes_to_bits(self.stream().skip(
                self.byte_pos() as int,
            )),
    {
        lemma_bits_of_len(self.cache as nat, self.cache_length as nat);
        lemma_bytes_to_bits_len(self.stream().skip(self.byte_pos() as int));
        if self.aligned() {
            assert(self.cached_bits() =~= Seq::<bool>::empty());
            assert(self.bits() =~= bytes_to_bits(self.stream().skip(self.byte_pos() as int)));
        }
    }

    /// Opens a reader over the given bytes, standing at the start with an
    /// empty cache.
    pub fn new(data: Vec<u8>) -> (r: BitReader)
        ensures
            r.wf(),
            r.aligned(),
            r.stream() == data@,
            r.byte_pos() == 0,
            r.bits() == bytes_to_bits(data@),
    {
        let r = BitReader { cache: 0, cache_length: 0, data, pos: 0 };
        proof {
            lemma2_to64();
            assert(r.cached_bits() =~= Seq::<bool>::empty());
            assert(r.stream().skip(0) =~= r.stream());
            assert(r.bits() =~= bytes_to_bits(r.stream()));
        }
        r
    }

    /// Pulls the next `n` bytes from the stream as one big-endian value.
    fn read_bytes(&mut self, n: usize) -> (r: Result<u64, EndOfStream>)
        requires
            old(self).wf(),
            n <= 8,
        ensures
            final(self).wf(),
            final(self).stream() == old(self).stream(),
            final(self).cached_bits() == old(self).cached_bits(),
            final(self).cache_len() == old(self).cache_len(),
            r is Ok <==> old(self).byte_pos() + n <= old(self).stream().len(),
            r matches Ok(v) ==> {
                &&& final(self).byte_pos() == old(self).byte_pos() + n
                &&& (v as nat) < pow2((8 * n) as nat)
                &&& v as nat == bits_value(
                    bytes_to_bits(
                        old(self).stream().subrange(
                            old(self).byte_pos() as int,
                            old(self).byte_pos() + n,
                        ),
                    ),
                )
            },
            r is Err ==> *final(self) == *old(self),
    {
        if n > self.data.len() - self.pos {
            return Err(EndOfStream);
        }
        let ghost start = self.pos as int;
        let stream_len: usize = self.data.len();
        let mut acc: u64 = 0;
        let mut i: usize = 0;
        proof {
            lemma2_to64();
            assert(self.data@.subrange(start, start) =~= Seq::<u8>::empty());
        }
        while i < n
            invariant
                i <= n,
                n <= 8,
                self.cache == old(self).cache,
                self.cache_length == old(self).cache_length,
                self.data == old(self).data,
                old(self).wf(),
                0 <= start,
                self.pos == start + i,
                start + n <= self.data@.len(),
                self.data@.len() == stream_len,
                acc as nat == bits_value(bytes_to_bits(self.data@.subrange(start, start + i))),
                (acc as nat) < pow2((8 * i) as nat),
            decreases n - i,
        {
            let b: u8 = self.data[self.pos];
            proof {
                let prefix = self.data@.subrange(start, start + i);
                assert(self.data@.subrange(start, start + i + 1) =~= prefix.push(b));
                lemma_bytes_to_bits_push(prefix, b);
                lemma_bytes_to_bits_len(prefix);
                lemma_bits_of_len(b as nat, 8);
                lemma_bits_value_append(bytes_to_bits(prefix), bits_of(b as nat, 8));
                lemma_bits_of_value(b as nat, 8);
                lemma2_to64();
                lemma_small_mod(b as nat, 256);
                // acc * 256 + b stays below pow2(8 * (i + 1)).
                lemma_pow2_adds((8 * i) as nat, 8);
                lemma_mul_inequality(
                    acc as int + 1,
                    pow2((8 * i) as nat) as int,
                    256,
                );
                lemma_mul_is_distributive_add_other_way(256, acc as int, 1);
                lemma_pow2_strictly_increases((8 * i) as nat, 64);
                lemma2_to64_rest();
            }
            acc = acc * 256 + (b as u64);
            self.pos = self.pos + 1;
            i = i + 1;
        }
        Ok(acc)
    }

    /// Reads the next `n` bits of the stream, most-significant-bit first,
    /// right-aligned in the result.  Fails with `EndOfStream`, leaving the
    /// reader exhausted, when fewer than `n` bits remain; a request is
    /// served from the cache when it suffices, and otherwise whole bytes
    /// are pulled to cover the remainder, the bits left over staying cached.
    pub fn read_bits(&mut self, n: u32) -> (r: Result<u32, EndOfStream>)
        requires
            old(self).wf(),
            1 <= n <= 32,
        ensures
            final(self).wf(),
            final(self).stream() == old(self).stream(),
            r is Ok <==> (n as nat) <= old(self).bits().len(),
            r matches Ok(v) ==> {
                &&& v as nat == bits_value(old(self).bits().take(n as int))
                &&& final(self).bits() == old(self).bits().skip(n as int)
                &&& final(self).bits().len() == old(self).bits().len() - n
            },
            r is Err ==> {
                &&& final(self).bits().len() == 0
                &&& final(self).aligned()
                &&& final(self).byte_pos() == old(self).stream().len()
            },
    {
        proof {
            self.lemma_bits_len();
            lemma_bits_of_len(self.cache as nat, self.cache_length as nat);
            lemma_bytes_to_bits_len(self.data@.skip(self.pos as int));
        }
        if n <= self.cache_length {
            let keep: u32 = self.cache_length - n;
            let divisor: u64 = power_of_two(keep);
            let result: u64 = (self.cache as u64) / divisor;
            proof {
                let c = self.cache as nat;
                let cl = self.cache_length as nat;
                let k = keep as nat;
                lemma_pow2_pos(k);
                lemma_bits_of_take(c, cl, n as nat);
                lemma_bits_of_value(c / pow2(k), n as nat);
                lemma_pow2_adds(k, n as nat);
                lemma_multiply_divide_lt(c as int, pow2(k) as int, pow2(n as nat) as int);
                lemma_small_mod(c / pow2(k), pow2(n as nat));
                assert(old(self).bits().take(n as int) =~= bits_of(c, cl).take(n as int));
                // the new cache is the low `keep` bits of the old cache
                lemma_mod_bound(c as int, pow2(k) as int);
                lemma_bits_of_mod(c, k);
                lemma_bits_of_skip(c, cl, n as nat);
                lemma_pow2_strictly_increases(k, 8);
                lemma2_to64();
            }
            self.cache = ((self.cache as u64) % divisor) as u8;
            self.cache_length = keep;
            proof {
                lemma_bits_of_len(self.cache as nat, keep as nat);
                assert(final(self).bits() =~= old(self).bits().skip(n as int));
                final(self).lemma_bits_len();
            }
            Ok(result as u32)
        } else {
            let n_to_read: u32 = n - self.cache_length;
            let whole: u32 = n_to_read / 8;
            let b_to_read: u32 = whole + if n_to_read % 8 > 0 {
                1u32
            } else {
                0u32
            };
            proof {
                lemma_fundamental_div_mod(n_to_read as int, 8);
            }
            let read: u64 = match self.read_bytes(b_to_read as usize) {
                Ok(v) => v,
                Err(e) => {
                    self.pos = self.data.len();
                    self.cache = 0;
                    self.cache_length = 0;
                    proof {
                        lemma2_to64();
                        assert(final(self).cached_bits() =~= Seq::<bool>::empty());
                        assert(final(self).stream().skip(final(self).byte_pos() as int)
                            =~= Seq::<u8>::empty());
                        final(self).lemma_bits_len();
                    }
                    return Err(e);
                },
            };
            let total_low: u32 = 8 * b_to_read;
            let factor: u64 = power_of_two(total_low);
            proof {
                let c = self.cache as nat;
                let cl = self.cache_length as nat;
                lemma_pow2_strictly_increases(cl, 8);
                lemma_pow2_strictly_increases(total_low as nat, 40);
                lemma2_to64();
                lemma2_to64_rest();
                lemma_mul_inequality(c as int, 255, pow2(total_low as nat) as int);
                lemma_mul_is_commutative(c as int, pow2(total_low as nat) as int);
                lemma_mul_is_commutative(255, pow2(total_low as nat) as int);
            }
            let sum: u64 = (self.cache as u64) * factor + read;
            let keep: u32 = total_low - n_to_read;
            let divisor: u64 = power_of_two(keep);
            let result: u64 = sum / divisor;
            proof {
                let c = self.cache as nat;
                let cl = self.cache_length as nat;
                let b = b_to_read as nat;
                let w = (cl + 8 * b) as nat;
                let k = keep as nat;
                let taken = old(self).stream().subrange(
                    old(self).byte_pos() as int,
                    old(self).byte_pos() + b as int,
                );
                // the combined value holds the cached bits over the bytes read
                lemma_bits_of_concat(c, read as nat, cl, (8 * b) as nat);
                lemma_bytes_to_bits_len(taken);
                lemma_bits_of_inverse(bytes_to_bits(taken));
                assert(bits_of(read as nat, (8 * b) as nat) == bytes_to_bits(taken));
                assert(old(self).stream().skip(old(self).byte_pos() as int) =~= taken
                    + old(self).stream().skip(old(self).byte_pos() + b as int));
                lemma_bytes_to_bits_append(
                    taken,
                    old(self).stream().skip(old(self).byte_pos() + b as int),
                );
                assert(old(self).bits() =~= bits_of((sum as nat), w) + bytes_to_bits(
                    old(self).stream().skip(old(self).byte_pos() + b as int),
                ));
                // sum fits in w bits
                assert((sum as nat) < pow2(w)) by {
                    lemma_mul_inequality(
                        c as int,
                        pow2(cl) as int - 1,
                        pow2((8 * b) as nat) as int,
                    );
                    lemma_mul_is_distributive_sub_other_way(
                        pow2((8 * b) as nat) as int,
                        pow2(cl) as int,
                        1,
                    );
                    lemma_pow2_adds(cl, (8 * b) as nat);
                }
                lemma_pow2_pos(k);
                lemma_bits_of_take(sum as nat, w, n as nat);
                lemma_bits_of_value(sum as nat / pow2(k), n as nat);
                lemma_pow2_adds(k, n as nat);
                lemma_multiply_divide_lt(sum as int, pow2(k) as int, pow2(n as nat) as int);
                lemma_small_mod(sum as nat / pow2(k), pow2(n as nat));
                lemma_bits_of_len(sum as nat, w);
                assert(old(self).bits().take(n as int) =~= bits_of(sum as nat, w).take(n as int));
                lemma_pow2_strictly_increases(n as nat, 33);
                // the new cache keeps the low `keep` bits of the combination
                lemma_mod_bound(sum as int, pow2(k) as int);
                lemma_bits_of_mod(sum as nat, k);
                lemma_bits_of_skip(sum as nat, w, n as nat);
                lemma_pow2_strictly_increases(k, 8);
            }
            self.cache = (sum % divisor) as u8;
            self.cache_length = keep;
            proof {
                lemma_bits_of_len(self.cache as nat, keep as nat);
                assert(final(self).bits() =~= old(self).bits().skip(n as int));
                final(self).lemma_bits_len();
            }
            Ok(result as u32)
        }
    }
}

impl Peeker for BitReader {
    open spec fn inv(&self) -> bool {
        self.wf()
    }

    open spec fn peek_window(&self) -> Seq<u8> {
        self.stream().skip(self.byte_pos() as int)
    }

    fn peek_be_u32(&mut self) -> (r: Result<u32, EndOfStream>) {
        if self.data.len() - self.pos < 4 {
            return Err(EndOfStream);
        }
        let b0: u8 = self.data[self.pos];
        let b1: u8 = self.data[self.pos + 1];
        let b2: u8 = self.data[self.pos + 2];
        let b3: u8 = self.data[self.pos + 3];
        Ok((b0 as u32) * 0x1000000 + (b1 as u32) * 0x10000 + (b2 as u32) * 0x100 + (b3 as u32))
    }
}

impl BitReader {
    /// Moves the read position `n` bytes forward, stopping at the end of
    /// the stream.
    pub fn skip_bytes(&mut self, n: usize)
        requires
            old(self).wf(),
            old(self).aligned(),
        ensures
            final(self).wf(),
            final(self).aligned(),
            final(self).stream() == old(self).stream(),
            final(self).byte_pos() == if old(self).byte_pos() + n <= old(self).stream().len() {
                old(self).byte_pos() + n
            } else {
                old(self).stream().len() as int
            },
    {
        let room: usize = self.data.len() - self.pos;
        if n <= room {
            self.pos = self.pos + n;
        } else {
            self.pos = self.data.len();
        }
    }

    /// The current byte position in the stream.
    pub fn position(&self) -> (r: usize)
        ensures
            r == self.byte_pos(),
    {
        self.pos
    }

    /// Whether the reader stands on a byte boundary.
    pub fn is_aligned(&self) -> (r: bool)
        ensures
            r == self.aligned(),
    {
        self.cache_length == 0
    }

    /// Drops the cached sub-byte remainder, returning the reader to the
    /// byte boundary it last pulled a byte at.
    pub fn align_to_byte(&mut self)
        requires
            old(self).wf(),
        ensures
            final(self).wf(),
            final(self).aligned(),
            final(self).stream() == old(self).stream(),
            final(self).byte_pos() == old(self).byte_pos(),
    {
        self.cache = 0;
        self.cache_length = 0;
        proof {
            lemma2_to64();
        }
    }
}

/// Two to the power `k`, as a machine word.
fn power_of_two(k: u32) -> (r: u64)
    requires
        k < 64,
    ensures
        r as nat == pow2(k as nat),
        r >= 1,
{
    proof {
        lemma_u64_pow2_no_overflow(k as nat);
        lemma_u64_shl_is_mul(1u64, k as u64);
        lemma_mul_basics(pow2(k as nat) as int);
        lemma_pow2_pos(k as nat);
    }
    1u64 << (k as u64)
}

} // verus!
