//! The bit-span operations: write, copy, clean, read, plus the range
//! validator and the max-value helper.

use vstd::prelude::*;
use vstd::arithmetic::power2::{pow2, lemma_pow2_pos, lemma2_to64};
use vstd::bits::lemma_u32_shl_is_mul;
use crate::model::{
    bit_at, buf_value, byte_bit, chunk_shifted, clean_rel, copy_rel, fits_in_bits,
    lemma_and_keep_mask, lemma_bit_position, lemma_byte_zero_iff_bits_zero, lemma_div_mod8,
    lemma_or_chunk, lemma_top_mask, shl8, shr8, span_mask,
};
use crate::laws::lemma_fits_iff_value_lt;

verus! {

/// Left shift of a byte that returns zero when the shift distance reaches
/// the byte width, instead of overflowing.
pub fn shl_saturating(x: u8, k: u8) -> (r: u8)
    ensures
        r == shl8(x, k),
{
    if k >= 8 {
        0
    } else {
        x << k
    }
}

/// Right shift of a byte that returns zero when the shift distance reaches
/// the byte width, instead of overflowing.
pub fn shr_saturating(x: u8, k: u8) -> (r: u8)
    ensures
        r == shr8(x, k),
{
    if k >= 8 {
        0
    } else {
        x >> k
    }
}

/// The largest unsigned value representable in `bit_size` bits,
/// `2^bit_size - 1`.
pub fn bits_to_max_hold(bit_size: u32) -> (r: u32)
    requires
        bit_size <= 31,
    ensures
        r == pow2(bit_size as nat) - 1,
{
    proof {
        lemma2_to64();
        lemma_pow2_pos(bit_size as nat);
        lemma_u32_shl_is_mul(1, bit_size);
    }
    (1u32 << bit_size) - 1
}

/// Checks that the value stored in the first `source_len` bytes of
/// `source` does not exceed the `bit_size` range: true exactly when every
/// bit above the low `bit_size` bits is zero, that is, when the stored
/// big-endian value is below `2^bit_size`. A `bit_size` of zero is always
/// in range.
pub fn is_in_range(bit_size: usize, source: &Vec<u8>, source_len: usize) -> (r: bool)
    requires
        bit_size <= 8 * source_len,
        source_len <= source@.len(),
        8 * source_len <= usize::MAX,
    ensures
        r == (bit_size == 0 || fits_in_bits(source@.take(source_len as int), bit_size as int)),
        bit_size > 0 ==> r == (buf_value(source@.take(source_len as int)) < pow2(bit_size as nat)),
{
    let ghost s = source@.take(source_len as int);
    if bit_size == 0 {
        return true;
    }
    // The leading bits that must be empty for the value to fit.
    let ahead_empty_bits = source_len * 8 - bit_size;
    // The partially required byte, and how many of its leading bits must
    // be zero; every byte before it must be zero entirely, every byte
    // after it is meaningful and unconstrained.
    let pf_byte_index = ahead_empty_bits / 8;
    let empty_in_pf = (ahead_empty_bits % 8) as u8;
    proof {
        lemma_div_mod8(ahead_empty_bits as int);
    }
    let mut index: usize = 0;
    while index < pf_byte_index
        invariant
            index <= pf_byte_index,
            1 <= bit_size <= 8 * source_len,
            source_len <= source@.len(),
            s == source@.take(source_len as int),
            ahead_empty_bits == 8 * source_len - bit_size,
            8 * (pf_byte_index as int) + empty_in_pf as int == ahead_empty_bits,
            empty_in_pf < 8,
            pf_byte_index < source_len,
            forall|k: int| 0 <= k < index ==> s[k] == 0,
        decreases pf_byte_index - index,
    {
        if source[index] != 0 {
            proof {
                lemma_byte_zero_iff_bits_zero(s[index as int]);
                let j = choose|j: int| 0 <= j < 8 && #[trigger] byte_bit(s[index as int], j);
                lemma_bit_position(s, index as int, j);
                assert(bit_at(s, 8 * (index as int) + j));
                assert(8 * (index as int) + j < 8 * s.len() - bit_size);
                assert(!fits_in_bits(s, bit_size as int));
                lemma_fits_iff_value_lt(s, bit_size as int);
            }
            return false;
        }
        index += 1;
    }
    let b = source[pf_byte_index];
    let mask = shl_saturating(0xFF, 8 - empty_in_pf);
    let r = (b & mask) == 0;
    proof {
        lemma_top_mask(b, empty_in_pf);
        let n = bit_size as int;
        if r {
            assert forall|i: int| 0 <= i < 8 * s.len() - n implies !(#[trigger] bit_at(s, i)) by {
                lemma_div_mod8(i);
                let bi = i / 8;
                let j = i % 8;
                lemma_bit_position(s, bi, j);
                if bi < pf_byte_index as int {
                    lemma_byte_zero_iff_bits_zero(s[bi]);
                } else {
                    assert(bi == pf_byte_index as int);
                    assert(j < empty_in_pf as int);
                    assert(!byte_bit(b, j));
                }
            }
            assert(fits_in_bits(s, n));
        } else {
            if fits_in_bits(s, n) {
                assert forall|j: int| 0 <= j < empty_in_pf implies !(#[trigger] byte_bit(b, j)) by {
                    lemma_bit_position(s, pf_byte_index as int, j);
                    assert(!bit_at(s, 8 * (pf_byte_index as int) + j));
                }
                assert(b & mask == 0);
                assert(false);
            }
        }
        lemma_fits_iff_value_lt(s, n);
    }
    r
}

/// Copies `bit_size` bits starting at bit `source_bit_offset` of `source`
/// into `target` starting at bit `target_bit_offset`, OR-ing them over the
/// bits already there (the destination span is assumed pre-cleared by the
/// caller); bits outside the destination span are untouched.
pub fn membitcpy(
    target: &mut Vec<u8>,
    target_bit_offset: usize,
    bit_size: usize,
    source: &Vec<u8>,
    source_bit_offset: usize,
)
    requires
        target_bit_offset + bit_size <= 8 * old(target)@.len(),
        source_bit_offset + bit_size <= 8 * source@.len(),
    ensures
        copy_rel(
            old(target)@,
            final(target)@,
            target_bit_offset as int,
            bit_size as int,
            source@,
            source_bit_offset as int,
        ),
{
    if bit_size == 0 {
        return ;
    }
    let mut si: usize = source_bit_offset / 8;
    let mut sf: u8 = (source_bit_offset % 8) as u8;
    let mut ti: usize = target_bit_offset / 8;
    let mut tf: u8 = (target_bit_offset % 8) as u8;
    let mut aw: usize = 0;
    proof {
        lemma_div_mod8(source_bit_offset as int);
        lemma_div_mod8(target_bit_offset as int);
    }
    while aw < bit_size
        invariant
            aw <= bit_size,
            target_bit_offset + bit_size <= 8 * old(target)@.len(),
            source_bit_offset + bit_size <= 8 * source@.len(),
            target@.len() == old(target)@.len(),
            sf < 8,
            tf < 8,
            8 * (si as int) + sf as int == source_bit_offset + aw,
            8 * (ti as int) + tf as int == target_bit_offset + aw,
            forall|i: int|
                0 <= i < 8 * old(target)@.len() && !(target_bit_offset <= i < target_bit_offset
                    + aw) ==> #[trigger] bit_at(target@, i) == bit_at(old(target)@, i),
            forall|i: int|
                target_bit_offset <= i < target_bit_offset + aw ==> #[trigger] bit_at(target@, i)
                    == (bit_at(old(target)@, i) || bit_at(
                    source@,
                    source_bit_offset + (i - target_bit_offset),
                )),
        decreases bit_size - aw,
    {
        let rem = bit_size - aw;
        let mut w: u8 = 8 - tf;
        if 8 - sf < w {
            w = 8 - sf;
        }
        if rem < w as usize {
            w = rem as u8;
        }
        let sb = source[si];
        let ob = target[ti];
        let mask = shr_saturating(0xFF, sf) & shl_saturating(0xFF, 8 - sf - w);
        let picked = sb & mask;
        let nb = if tf >= sf {
            ob | (picked >> (tf - sf))
        } else {
            ob | (picked << (sf - tf))
        };
        let ghost t_prev = target@;
        target.set(ti, nb);
        proof {
            let toff = target_bit_offset as int;
            let soff = source_bit_offset as int;
            let len8 = 8 * old(target)@.len() as int;
            assert(mask == span_mask(sf, w));
            assert(nb == ob | chunk_shifted(sb, sf, tf, w));
            lemma_or_chunk(ob, sb, sf, tf, w, nb);
            // Bits outside the span written so far are still the original bits.
            assert forall|i: int|
                0 <= i < len8 && !(toff <= i < toff + (aw + w)) implies #[trigger] bit_at(
                target@,
                i,
            ) == bit_at(old(target)@, i) by {
                lemma_div_mod8(i);
                let b = i / 8;
                let j = i % 8;
                lemma_bit_position(target@, b, j);
                lemma_bit_position(t_prev, b, j);
                if b == ti as int {
                    // Inside the byte just written, but outside the chunk.
                    assert(i == 8 * (ti as int) + j);
                    assert(!(tf <= j < tf + w));
                    assert(byte_bit(nb, j) == byte_bit(ob, j));
                } else {
                    assert(target@[b] == t_prev[b]);
                }
                assert(bit_at(target@, i) == bit_at(t_prev, i));
            }
            // Bits of the span written so far carry the OR of old and source.
            assert forall|i: int| toff <= i < toff + (aw + w) implies #[trigger] bit_at(target@, i)
                == (bit_at(old(target)@, i) || bit_at(source@, soff + (i - toff))) by {
                if i < toff + aw {
                    lemma_div_mod8(i);
                    let b = i / 8;
                    let j = i % 8;
                    lemma_bit_position(target@, b, j);
                    lemma_bit_position(t_prev, b, j);
                    if b == ti as int {
                        assert(i == 8 * (ti as int) + j);
                        assert(!(tf <= j < tf + w));
                        assert(byte_bit(nb, j) == byte_bit(ob, j));
                    } else {
                        assert(target@[b] == t_prev[b]);
                    }
                    assert(bit_at(target@, i) == bit_at(t_prev, i));
                } else {
                    // A bit of the chunk written in this step.
                    let u = i - (toff + aw);
                    let j = tf + u;
                    lemma_bit_position(target@, ti as int, j);
                    lemma_bit_position(t_prev, ti as int, j);
                    assert(i == 8 * (ti as int) + j);
                    assert(bit_at(target@, i) == byte_bit(nb, j));
                    assert(byte_bit(nb, j) == (byte_bit(ob, j) || byte_bit(sb, j - tf as int
                        + sf as int)));
                    // The old target bit at this position is untouched so far.
                    assert(bit_at(t_prev, i) == bit_at(old(target)@, i));
                    assert(byte_bit(ob, j) == bit_at(old(target)@, i));
                    // The matching source bit lives in byte si at offset sf + u.
                    lemma_bit_position(source@, si as int, sf as int + u);
                    assert(soff + (i - toff) == 8 * (si as int) + (sf as int + u));
                    assert(bit_at(source@, soff + (i - toff)) == byte_bit(source@[si as int],
                        sf as int + u));
                    assert(byte_bit(sb, j - tf as int + sf as int) == byte_bit(source@[si as int],
                        sf as int + u));
                }
            }
        }
        aw = aw + w as usize;
        sf = sf + w;
        if sf == 8 {
            sf = 0;
            si = si + 1;
        }
        tf = tf + w;
        if tf == 8 {
            tf = 0;
            ti = ti + 1;
        }
    }
}

/// Writes the low `bit_size` bits of `source` (a `source_len`-byte
/// big-endian value) into `target` starting at `target_bit_offset`,
/// OR-ing them over the bits already there (the destination span is
/// assumed pre-cleared by the caller). The source span is anchored at the
/// right end of the source buffer: it is the copier with
/// `source_bit_offset == 8 * source_len - bit_size`.
pub fn bit_write(
    target: &mut Vec<u8>,
    target_bit_offset: usize,
    bit_size: usize,
    source: &Vec<u8>,
    source_len: usize,
)
    requires
        bit_size <= 8 * source_len,
        source_len <= source@.len(),
        8 * source_len <= usize::MAX,
        target_bit_offset + bit_size <= 8 * old(target)@.len(),
    ensures
        copy_rel(
            old(target)@,
            final(target)@,
            target_bit_offset as int,
            bit_size as int,
            source@,
            8 * source_len - bit_size,
        ),
{
    let source_bit_offset = source_len * 8 - bit_size;
    membitcpy(target, target_bit_offset, bit_size, source, source_bit_offset);
}

/// Extracts `bit_size` bits starting at `source_bit_offset` of `source`
/// and writes them, right-aligned, into the trailing bits of the first
/// `target_len` bytes of `target` — the same byte-buffer encoding that the
/// writer consumes. The destination span is assumed pre-cleared by the
/// caller; it is the copier with the roles of the offsets swapped.
pub fn bit_read(
    source: &Vec<u8>,
    source_bit_offset: usize,
    bit_size: usize,
    target: &mut Vec<u8>,
    target_len: usize,
)
    requires
        bit_size <= 8 * target_len,
        target_len <= old(target)@.len(),
        8 * target_len <= usize::MAX,
        source_bit_offset + bit_size <= 8 * source@.len(),
    ensures
        copy_rel(
            old(target)@,
            final(target)@,
            8 * target_len - bit_size,
            bit_size as int,
            source@,
            source_bit_offset as int,
        ),
{
    let target_bit_offset = target_len * 8 - bit_size;
    membitcpy(target, target_bit_offset, bit_size, source, source_bit_offset);
}

/// Zeroes exactly the bits `[bit_offset, bit_offset + bit_size)` of
/// `target`, leaving all other bits untouched.
pub fn bit_clean(target: &mut Vec<u8>, bit_offset: usize, bit_size: usize)
    requires
        bit_offset + bit_size <= 8 * old(target)@.len(),
    ensures
        clean_rel(old(target)@, final(target)@, bit_offset as int, bit_size as int),
{
    if bit_size == 0 {
        return ;
    }
    let mut ti: usize = bit_offset / 8;
    let mut tf: u8 = (bit_offset % 8) as u8;
    let mut aw: usize = 0;
    proof {
        lemma_div_mod8(bit_offset as int);
    }
    while aw < bit_size
        invariant
            aw <= bit_size,
            bit_offset + bit_size <= 8 * old(target)@.len(),
            target@.len() == old(target)@.len(),
            tf < 8,
            8 * (ti as int) + tf as int == bit_offset + aw,
            forall|i: int|
                0 <= i < 8 * old(target)@.len() && !(bit_offset <= i < bit_offset + aw)
                    ==> #[trigger] bit_at(target@, i) == bit_at(old(target)@, i),
            forall|i: int| bit_offset <= i < bit_offset + aw ==> !(#[trigger] bit_at(target@, i)),
        decreases bit_size - aw,
    {
        let rem = bit_size - aw;
        let mut w: u8 = 8 - tf;
        if rem < w as usize {
            w = rem as u8;
        }
        let ob = target[ti];
        let keep = shl_saturating(0xFF, 8 - tf) | shr_saturating(0xFF, tf + w);
        let nb = ob & keep;
        let ghost t_prev = target@;
        target.set(ti, nb);
        proof {
            let off = bit_offset as int;
            let len8 = 8 * old(target)@.len() as int;
            lemma_and_keep_mask(ob, tf, w, nb);
            // Bits outside the span cleaned so far are still the original bits.
            assert forall|i: int|
                0 <= i < len8 && !(off <= i < off + (aw + w)) implies #[trigger] bit_at(target@, i)
                == bit_at(old(target)@, i) by {
                lemma_div_mod8(i);
                let b = i / 8;
                let j = i % 8;
                lemma_bit_position(target@, b, j);
                lemma_bit_position(t_prev, b, j);
                if b == ti as int {
                    assert(i == 8 * (ti as int) + j);
                    assert(!(tf <= j < tf + w));
                    assert(byte_bit(nb, j) == byte_bit(ob, j));
                } else {
                    assert(target@[b] == t_prev[b]);
                }
                assert(bit_at(target@, i) == bit_at(t_prev, i));
            }
            // Bits of the span cleaned so far are zero.
            assert forall|i: int| off <= i < off + (aw + w) implies !(#[trigger] bit_at(
                target@,
                i,
            )) by {
                if i < off + aw {
                    lemma_div_mod8(i);
                    let b = i / 8;
                    let j = i % 8;
                    lemma_bit_position(target@, b, j);
                    lemma_bit_position(t_prev, b, j);
                    if b == ti as int {
                        assert(i == 8 * (ti as int) + j);
                        assert(!(tf <= j < tf + w));
                        assert(byte_bit(nb, j) == byte_bit(ob, j));
                    } else {
                        assert(target@[b] == t_prev[b]);
                    }
                    assert(bit_at(target@, i) == bit_at(t_prev, i));
                } else {
                    // A bit of the chunk cleaned in this step.
                    let j = tf + (i - (off + aw));
                    lemma_bit_position(target@, ti as int, j);
                    assert(i == 8 * (ti as int) + j);
                    assert(!byte_bit(nb, j));
                }
            }
        }
        aw = aw + w as usize;
        tf = tf + w;
        if tf == 8 {
            tf = 0;
            ti = ti + 1;
        }
    }
}

} // verus!
