//! Bit strings as mathematical objects: the value of a bit string read
//! most-significant-bit first, the bit string of an integer, and the bit
//! string of a byte string.  The bit reader's contracts are stated over
//! these functions.
use vstd::prelude::*;
use vstd::arithmetic::power2::*;
use vstd::arithmetic::div_mod::*;
use vstd::arithmetic::mul::*;

verus! {

/// The value of a bit string, read most-significant-bit first.
pub open spec fn bits_value(s: Seq<bool>) -> nat
    decreases s.len(),
{
    if s.len() == 0 {
        0
    } else {
        bits_value(s.drop_last()) * 2 + (if s.last() {
            1nat
        } else {
            0nat
        })
    }
}

/// The low `w` bits of `v`, most significant bit first.
pub open spec fn bits_of(v: nat, w: nat) -> Seq<bool>
    decreases w,
{
    if w == 0 {
        Seq::<bool>::empty()
    } else {
        bits_of(v / 2, (w - 1) as nat).push(v % 2 == 1)
    }
}

/// The bits of a byte string, each byte most significant bit first.
pub open spec fn bytes_to_bits(s: Seq<u8>) -> Seq<bool>
    decreases s.len(),
{
    if s.len() == 0 {
        Seq::<bool>::empty()
    } else {
        bits_of(s.first() as nat, 8) + bytes_to_bits(s.drop_first())
    }
}

pub proof fn lemma_bits_of_len(v: nat, w: nat)
    ensures
        bits_of(v, w).len() == w,
    decreases w,
{
    if w > 0 {
        lemma_bits_of_len(v / 2, (w - 1) as nat);
    }
}

pub proof fn lemma_bits_value_bound(s: Seq<bool>)
    ensures
        bits_value(s) < pow2(s.len()),
    decreases s.len(),
{
    if s.len() == 0 {
        lemma2_to64();
    } else {
        lemma_bits_value_bound(s.drop_last());
        lemma_pow2_unfold(s.len());
    }
}

pub proof fn lemma_bits_value_append(a: Seq<bool>, b: Seq<bool>)
    ensures
        bits_value(a + b) == bits_value(a) * pow2(b.len()) + bits_value(b),
    decreases b.len(),
{
    if b.len() == 0 {
        assert(a + b =~= a);
        lemma2_to64();
    } else {
        let last: nat = if b.last() {
            1nat
        } else {
            0nat
        };
        lemma_bits_value_append(a, b.drop_last());
        assert((a + b).drop_last() =~= a + b.drop_last());
        assert((a + b).last() == b.last());
        assert((a + b).len() == a.len() + b.len());
        assert(bits_value(a + b) == bits_value(a + b.drop_last()) * 2 + last);
        lemma_pow2_unfold(b.len());
        lemma_mul_is_associative(
            bits_value(a) as int,
            pow2((b.len() - 1) as nat) as int,
            2,
        );
        assert(bits_value(a + b) == (bits_value(a) * pow2((b.len() - 1) as nat) + bits_value(
            b.drop_last(),
        )) * 2 + last);
        assert(bits_value(a + b) == bits_value(a) * (pow2((b.len() - 1) as nat) * 2) + (bits_value(
            b.drop_last(),
        ) * 2 + last));
    }
}

/// Splitting a bit string at any point splits its value: the high part is
/// scaled by a power of two and the low part is added.  This is the step by
/// which consecutive reads reassemble into the value of the whole.
pub proof fn lemma_bits_value_split(s: Seq<bool>, n: int)
    requires
        0 <= n <= s.len(),
    ensures
        bits_value(s) == bits_value(s.take(n)) * pow2((s.len() - n) as nat) + bits_value(
            s.skip(n),
        ),
{
    assert(s =~= s.take(n) + s.skip(n));
    lemma_bits_value_append(s.take(n), s.skip(n));
}

pub proof fn lemma_bits_of_value(v: nat, w: nat)
    ensures
        bits_value(bits_of(v, w)) == v % pow2(w),
    decreases w,
{
    if w == 0 {
        lemma2_to64();
    } else {
        let s = bits_of(v, w);
        let inner = bits_of(v / 2, (w - 1) as nat);
        assert(s.drop_last() =~= inner);
        lemma_bits_of_value(v / 2, (w - 1) as nat);
        lemma_pow2_unfold(w);
        lemma_pow2_pos((w - 1) as nat);
        lemma_mod_breakdown(v as int, 2, pow2((w - 1) as nat) as int);
    }
}

/// A bit string is recovered exactly from its value and its length.
pub proof fn lemma_bits_of_inverse(s: Seq<bool>)
    ensures
        bits_of(bits_value(s), s.len()) == s,
    decreases s.len(),
{
    if s.len() == 0 {
        assert(bits_of(bits_value(s), s.len()) =~= s);
    } else {
        let v = bits_value(s);
        let q = bits_value(s.drop_last());
        let r: nat = if s.last() {
            1nat
        } else {
            0nat
        };
        lemma_fundamental_div_mod_converse(v as int, 2, q as int, r as int);
        lemma_bits_of_inverse(s.drop_last());
        assert(bits_of(v, s.len()) =~= s);
    }
}

/// Two bit strings of one length with one value are the same string: the
/// value of a whole number of reads determines the bits read, so a buffer
/// can be reconstructed from what `read_bits` returned.
pub proof fn lemma_bits_value_injective(s1: Seq<bool>, s2: Seq<bool>)
    requires
        s1.len() == s2.len(),
        bits_value(s1) == bits_value(s2),
    ensures
        s1 == s2,
{
    lemma_bits_of_inverse(s1);
    lemma_bits_of_inverse(s2);
}

/// Stacking a high part over a low part concatenates their bit strings.
pub proof fn lemma_bits_of_concat(hi: nat, lo: nat, wh: nat, wl: nat)
    requires
        lo < pow2(wl),
    ensures
        bits_of(hi * pow2(wl) + lo, wh + wl) == bits_of(hi, wh) + bits_of(lo, wl),
    decreases wl,
{
    lemma_bits_of_len(hi, wh);
    if wl == 0 {
        lemma2_to64();
        assert(pow2(0) == 1);
        assert(lo == 0);
        assert(hi * pow2(0) + lo == hi) by {
            lemma_mul_basics(hi as int);
        }
        assert(bits_of(hi * pow2(wl) + lo, wh + wl) =~= bits_of(hi, wh) + bits_of(lo, wl));
    } else {
        let v = hi * pow2(wl) + lo;
        lemma_pow2_unfold(wl);
        lemma_mul_is_associative(hi as int, pow2((wl - 1) as nat) as int, 2);
        lemma_fundamental_div_mod(lo as int, 2);
        assert(v == (hi * pow2((wl - 1) as nat) + lo / 2) * 2 + lo % 2) by {
            lemma_mul_is_distributive_add_other_way(
                2,
                (hi * pow2((wl - 1) as nat)) as int,
                (lo / 2) as int,
            );
            lemma_mul_is_associative(hi as int, pow2((wl - 1) as nat) as int, 2);
            lemma_pow2_unfold(wl);
            lemma_fundamental_div_mod(lo as int, 2);
        }
        lemma_fundamental_div_mod_converse(
            v as int,
            2,
            (hi * pow2((wl - 1) as nat) + lo / 2) as int,
            (lo % 2) as int,
        );
        assert(lo / 2 < pow2((wl - 1) as nat)) by {
            lemma_pow2_pos((wl - 1) as nat);
            lemma_multiply_divide_lt(lo as int, 2, pow2((wl - 1) as nat) as int);
        }
        lemma_bits_of_concat(hi, lo / 2, wh, (wl - 1) as nat);
        assert(bits_of(v, wh + wl) =~= bits_of(hi, wh) + bits_of(lo, wl));
    }
}

/// Only the low `w` bits of `v` reach its bit string.
pub proof fn lemma_bits_of_mod(v: nat, w: nat)
    ensures
        bits_of(v % pow2(w), w) == bits_of(v, w),
{
    lemma_bits_of_len(v, w);
    lemma_bits_of_value(v, w);
    lemma_bits_of_inverse(bits_of(v, w));
}

/// The first `k` of the low `w` bits of `v` are the low `k` bits of
/// `v / pow2(w - k)`.
pub proof fn lemma_bits_of_take(v: nat, w: nat, k: nat)
    requires
        v < pow2(w),
        k <= w,
    ensures
        bits_of(v, w).take(k as int) == bits_of(v / pow2((w - k) as nat), k),
{
    let wl = (w - k) as nat;
    let q = v / pow2(wl);
    let r = v % pow2(wl);
    lemma_pow2_pos(wl);
    lemma_fundamental_div_mod(v as int, pow2(wl) as int);
    lemma_mod_bound(v as int, pow2(wl) as int);
    assert(q < pow2(k)) by {
        lemma_pow2_adds(wl, k);
        lemma_multiply_divide_lt(v as int, pow2(wl) as int, pow2(k) as int);
    }
    lemma_bits_of_concat(q, r, k, wl);
    lemma_bits_of_len(q, k);
    lemma_bits_of_len(r, wl);
    assert(bits_of(v, w).take(k as int) =~= bits_of(q, k));
}

/// Dropping the first `k` of the low `w` bits of `v` leaves the low
/// `w - k` bits of `v`.
pub proof fn lemma_bits_of_skip(v: nat, w: nat, k: nat)
    requires
        v < pow2(w),
        k <= w,
    ensures
        bits_of(v, w).skip(k as int) == bits_of(v, (w - k) as nat),
{
    let wl = (w - k) as nat;
    let q = v / pow2(wl);
    let r = v % pow2(wl);
    lemma_pow2_pos(wl);
    lemma_fundamental_div_mod(v as int, pow2(wl) as int);
    lemma_mod_bound(v as int, pow2(wl) as int);
    assert(q < pow2(k)) by {
        lemma_pow2_adds(wl, k);
        lemma_multiply_divide_lt(v as int, pow2(wl) as int, pow2(k) as int);
    }
    lemma_bits_of_concat(q, r, k, wl);
    lemma_bits_of_len(q, k);
    lemma_bits_of_len(r, wl);
    assert(bits_of(v, w).skip(k as int) =~= bits_of(r, wl));
    lemma_bits_of_mod(v, wl);
}

pub proof fn lemma_bytes_to_bits_len(s: Seq<u8>)
    ensures
        bytes_to_bits(s).len() == 8 * s.len(),
    decreases s.len(),
{
    if s.len() > 0 {
        lemma_bits_of_len(s.first() as nat, 8);
        lemma_bytes_to_bits_len(s.drop_first());
    }
}

pub proof fn lemma_bytes_to_bits_append(a: Seq<u8>, b: Seq<u8>)
    ensures
        bytes_to_bits(a + b) == bytes_to_bits(a) + bytes_to_bits(b),
    decreases a.len(),
{
    if a.len() == 0 {
        assert(a + b =~= b);
        assert(bytes_to_bits(a) + bytes_to_bits(b) =~= bytes_to_bits(b));
    } else {
        assert((a + b).drop_first() =~= a.drop_first() + b);
        lemma_bytes_to_bits_append(a.drop_first(), b);
        assert(bytes_to_bits(a + b) =~= bytes_to_bits(a) + bytes_to_bits(b));
    }
}

pub proof fn lemma_bytes_to_bits_push(s: Seq<u8>, b: u8)
    ensures
        bytes_to_bits(s.push(b)) == bytes_to_bits(s) + bits_of(b as nat, 8),
{
    assert(s.push(b) =~= s + seq![b]);
    lemma_bytes_to_bits_append(s, seq![b]);
    assert(seq![b].drop_first() =~= Seq::<u8>::empty());
    assert(bits_of(b as nat, 8) + bytes_to_bits(Seq::<u8>::empty()) =~= bits_of(b as nat, 8));
}

/// Each byte occupies its own eight-bit slice of the byte string's bits.
pub proof fn lemma_bytes_to_bits_index(s: Seq<u8>, i: int)
    requires
        0 <= i < s.len(),
    ensures
        bytes_to_bits(s).subrange(8 * i, 8 * i + 8) == bits_of(s[i] as nat, 8),
    decreases i,
{
    lemma_bits_of_len(s.first() as nat, 8);
    lemma_bytes_to_bits_len(s.drop_first());
    if i == 0 {
        assert(bytes_to_bits(s).subrange(0, 8) =~= bits_of(s[0] as nat, 8));
    } else {
        lemma_bytes_to_bits_index(s.drop_first(), i - 1);
        assert(bytes_to_bits(s).subrange(8 * i, 8 * i + 8) =~= bytes_to_bits(
            s.drop_first(),
        ).subrange(8 * (i - 1), 8 * (i - 1) + 8));
    }
}

/// A byte is recovered exactly from its eight-bit slice: with the split law
/// this says that reads totalling whole bytes reconstruct the buffer.
pub proof fn lemma_byte_recovered(s: Seq<u8>, i: int)
    requires
        0 <= i < s.len(),
    ensures
        s[i] as nat == bits_value(bytes_to_bits(s).subrange(8 * i, 8 * i + 8)),
{
    lemma_bytes_to_bits_index(s, i);
    lemma_bits_of_value(s[i] as nat, 8);
    lemma2_to64();
    lemma_small_mod(s[i] as nat, 256);
}

/// The widths of a sequence of reads, summed.
pub open spec fn total_width(ws: Seq<nat>) -> nat
    decreases ws.len(),
{
    if ws.len() == 0 {
        0
    } else {
        ws.first() + total_width(ws.drop_first())
    }
}

/// The values that successive reads of the given widths return, each the
/// value of its bits read most-significant-bit first.
pub open spec fn read_values(s: Seq<bool>, ws: Seq<nat>) -> Seq<nat>
    decreases ws.len(),
{
    if ws.len() == 0 {
        Seq::<nat>::empty()
    } else {
        seq![bits_value(s.take(ws.first() as int))] + read_values(
            s.skip(ws.first() as int),
            ws.drop_first(),
        )
    }
}

/// Read values reassembled most-significant first: each value is scaled
/// past the widths of all the reads after it.
pub open spec fn reassemble(vals: Seq<nat>, ws: Seq<nat>) -> nat
    decreases ws.len(),
{
    if ws.len() == 0 || vals.len() == 0 {
        0
    } else {
        vals.first() * pow2(total_width(ws.drop_first())) + reassemble(
            vals.drop_first(),
            ws.drop_first(),
        )
    }
}

/// Law: successive reads of widths `ws`, returning values as `read_bits`
/// does, reassemble most-significant-bit first into the value of exactly
/// the bits covered.  When the widths total `8 * m`, the value of those
/// bits gives back the `m` bytes read, byte by byte, by
/// `lemma_byte_recovered` and `lemma_bits_value_injective`: the reads
/// reconstruct the buffer exactly.
pub proof fn lemma_reads_reassemble(s: Seq<bool>, ws: Seq<nat>)
    requires
        total_width(ws) <= s.len(),
    ensures
        reassemble(read_values(s, ws), ws) == bits_value(s.take(total_width(ws) as int)),
    decreases ws.len(),
{
    if ws.len() == 0 {
        assert(s.take(0) =~= Seq::<bool>::empty());
    } else {
        let w1 = ws.first() as int;
        let rest = ws.drop_first();
        let t = total_width(rest) as int;
        lemma_reads_reassemble(s.skip(w1), rest);
        let vals = read_values(s, ws);
        assert(vals.drop_first() =~= read_values(s.skip(w1), rest));
        assert(vals.first() == bits_value(s.take(w1)));
        lemma_bits_value_split(s.take(w1 + t), w1);
        assert(s.take(w1 + t).take(w1) =~= s.take(w1));
        assert(s.take(w1 + t).skip(w1) =~= s.skip(w1).take(t));
    }
}

/// Law: reads totalling a whole number of bytes, `8 * m`, reassemble
/// most-significant-bit first into the value of exactly the first `m`
/// bytes of the buffer, and each of those bytes is recovered from its
/// own slice of that value: the reads reconstruct the buffer.
pub proof fn lemma_reads_reconstruct_buffer(data: Seq<u8>, ws: Seq<nat>, m: int)
    requires
        total_width(ws) == 8 * m,
        0 <= m <= data.len(),
    ensures
        reassemble(read_values(bytes_to_bits(data), ws), ws) == bits_value(
            bytes_to_bits(data.take(m)),
        ),
        forall|j: int|
            0 <= j < m ==> (data[j] as nat) == bits_value(
                bytes_to_bits(data.take(m)).subrange(8 * j, 8 * j + 8),
            ),
{
    lemma_bytes_to_bits_len(data);
    lemma_reads_reassemble(bytes_to_bits(data), ws);
    assert(data =~= data.take(m) + data.skip(m));
    lemma_bytes_to_bits_append(data.take(m), data.skip(m));
    lemma_bytes_to_bits_len(data.take(m));
    assert(bytes_to_bits(data).take(8 * m) =~= bytes_to_bits(data.take(m)));
    assert forall|j: int| 0 <= j < m implies (data[j] as nat) == bits_value(
        bytes_to_bits(data.take(m)).subrange(8 * j, 8 * j + 8),
    ) by {
        lemma_byte_recovered(data.take(m), j);
    }
}

} // verus!
