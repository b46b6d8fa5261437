//! Mathematical model of bit-addressed byte buffers.
//!
//! A buffer is a `Seq<u8>`; bit 0 is the most significant bit of byte 0,
//! bit 8 the most significant bit of byte 1, and so on (MSB-first packing).

use vstd::prelude::*;
use vstd::arithmetic::div_mod::{lemma_fundamental_div_mod, lemma_fundamental_div_mod_converse};

verus! {

/// Bit `j` of a single byte, counting from the most significant bit
/// (`j == 0` is the MSB, `j == 7` the LSB).
pub open spec fn byte_bit(b: u8, j: int) -> bool
    recommends
        0 <= j < 8,
{
    (b >> ((7 - j) as u8)) & 1 == 1
}

/// Bit `i` of a buffer, MSB-first: bit 0 is the most significant bit of byte 0.
pub open spec fn bit_at(s: Seq<u8>, i: int) -> bool
    recommends
        0 <= i < 8 * s.len(),
{
    byte_bit(s[i / 8], i % 8)
}

/// The unsigned integer value of a buffer read as a big-endian number.
pub open spec fn buf_value(s: Seq<u8>) -> nat
    decreases s.len(),
{
    if s.len() == 0 {
        0
    } else {
        (buf_value(s.drop_last()) * 256 + s.last()) as nat
    }
}

/// All bits above the low `n` bits of the buffer are zero: the stored
/// value fits in `n` bits.
pub open spec fn fits_in_bits(s: Seq<u8>, n: int) -> bool {
    forall|i: int| 0 <= i < 8 * s.len() - n ==> !(#[trigger] bit_at(s, i))
}

/// How `t1` relates to `t0` after `n` source bits starting at `soff` have
/// been OR-ed into the span starting at `toff`: bits outside the span are
/// untouched, each bit inside is the OR of the old target bit and the
/// corresponding source bit.
pub open spec fn copy_rel(t0: Seq<u8>, t1: Seq<u8>, toff: int, n: int, s: Seq<u8>, soff: int) -> bool {
    &&& t1.len() == t0.len()
    &&& forall|i: int|
        0 <= i < 8 * t0.len() && !(toff <= i < toff + n) ==> #[trigger] bit_at(t1, i) == bit_at(
            t0,
            i,
        )
    &&& forall|i: int|
        toff <= i < toff + n ==> #[trigger] bit_at(t1, i) == (bit_at(t0, i) || bit_at(
            s,
            soff + (i - toff),
        ))
}

/// How `t1` relates to `t0` after the span of `n` bits starting at `off`
/// has been zeroed: bits outside the span are untouched, bits inside are 0.
pub open spec fn clean_rel(t0: Seq<u8>, t1: Seq<u8>, off: int, n: int) -> bool {
    &&& t1.len() == t0.len()
    &&& forall|i: int|
        0 <= i < 8 * t0.len() && !(off <= i < off + n) ==> #[trigger] bit_at(t1, i) == bit_at(
            t0,
            i,
        )
    &&& forall|i: int| off <= i < off + n ==> !(#[trigger] bit_at(t1, i))
}

/// Left shift of a byte that is zero once every bit is shifted out,
/// instead of being undefined.
pub open spec fn shl8(x: u8, k: u8) -> u8 {
    if k < 8 {
        x << k
    } else {
        0
    }
}

/// Right shift of a byte that is zero once every bit is shifted out,
/// instead of being undefined.
pub open spec fn shr8(x: u8, k: u8) -> u8 {
    if k < 8 {
        x >> k
    } else {
        0
    }
}

/// Mask that is 1 exactly on the bits `[a, a + w)` of a byte
/// (MSB-first positions).
pub open spec fn span_mask(a: u8, w: u8) -> u8
    recommends
        a + w <= 8,
{
    shr8(0xFF, a) & shl8(0xFF, ((8 - a - w) as u8))
}

/// The bits `[sf, sf + w)` of `sb`, isolated and repositioned to the bit
/// positions `[tf, tf + w)`.
pub open spec fn chunk_shifted(sb: u8, sf: u8, tf: u8, w: u8) -> u8
    recommends
        sf + w <= 8,
        tf + w <= 8,
{
    if tf >= sf {
        (sb & span_mask(sf, w)) >> ((tf - sf) as u8)
    } else {
        (sb & span_mask(sf, w)) << ((sf - tf) as u8)
    }
}

/// Two bytes that agree on all eight bits are equal.
pub proof fn lemma_byte_bits_extensional(a: u8, b: u8)
    requires
        forall|j: int| 0 <= j < 8 ==> byte_bit(a, j) == byte_bit(b, j),
    ensures
        a == b,
{
    assert(a == b) by (bit_vector)
        requires
            byte_bit(a, 0) == byte_bit(b, 0),
            byte_bit(a, 1) == byte_bit(b, 1),
            byte_bit(a, 2) == byte_bit(b, 2),
            byte_bit(a, 3) == byte_bit(b, 3),
            byte_bit(a, 4) == byte_bit(b, 4),
            byte_bit(a, 5) == byte_bit(b, 5),
            byte_bit(a, 6) == byte_bit(b, 6),
            byte_bit(a, 7) == byte_bit(b, 7),
    ;
}

/// A byte is zero exactly when all eight of its bits are zero.
pub proof fn lemma_byte_zero_iff_bits_zero(b: u8)
    ensures
        (b == 0) <==> (forall|j: int| 0 <= j < 8 ==> !byte_bit(b, j)),
        b != 0 ==> exists|j: int| 0 <= j < 8 && #[trigger] byte_bit(b, j),
{
    if b == 0 {
        assert(forall|j: u8| j < 8 ==> !byte_bit(0u8, j as int)) by (bit_vector);
        assert forall|j: int| 0 <= j < 8 implies !byte_bit(b, j) by {
            assert(!byte_bit(0u8, (j as u8) as int));
        }
    } else {
        assert(byte_bit(b, 0) || byte_bit(b, 1) || byte_bit(b, 2) || byte_bit(b, 3) || byte_bit(
            b,
            4,
        ) || byte_bit(b, 5) || byte_bit(b, 6) || byte_bit(b, 7)) by (bit_vector)
            requires
                b != 0,
        ;
    }
}

/// A byte AND-ed with the mask of its top `e` bits is zero exactly when
/// those `e` leading bits are all zero.
pub proof fn lemma_top_mask(b: u8, e: u8)
    requires
        e < 8,
    ensures
        ((b & shl8(0xFF, ((8 - e) as u8))) == 0) <==> (forall|j: int|
            0 <= j < e ==> !(#[trigger] byte_bit(b, j))),
{
    if b & shl8(0xFF, ((8 - e) as u8)) == 0 {
        assert(forall|j: u8| j < e ==> !byte_bit(b, j as int)) by (bit_vector)
            requires
                e < 8,
                b & shl8(0xFF, ((8 - e) as u8)) == 0,
        ;
        assert forall|j: int| 0 <= j < e implies !(#[trigger] byte_bit(b, j)) by {
            let ju = j as u8;
            assert(!byte_bit(b, ju as int));
        }
    } else {
        assert((0 < e && byte_bit(b, 0)) || (1 < e && byte_bit(b, 1)) || (2 < e && byte_bit(b, 2))
            || (3 < e && byte_bit(b, 3)) || (4 < e && byte_bit(b, 4)) || (5 < e && byte_bit(b, 5))
            || (6 < e && byte_bit(b, 6)) || (7 < e && byte_bit(b, 7))) by (bit_vector)
            requires
                e < 8,
                b & shl8(0xFF, ((8 - e) as u8)) != 0,
        ;
    }
}

/// A non-negative number splits into eight times its byte part plus its
/// intra-byte part.
pub proof fn lemma_div_mod8(x: int)
    requires
        0 <= x,
    ensures
        x == 8 * (x / 8) + x % 8,
        0 <= x % 8 < 8,
        0 <= x / 8,
{
    lemma_fundamental_div_mod(x, 8);
}

/// The bit position `8 * b + j` lies in byte `b` at intra-byte offset `j`.
pub proof fn lemma_bit_position(s: Seq<u8>, b: int, j: int)
    requires
        0 <= b,
        0 <= j < 8,
    ensures
        (8 * b + j) / 8 == b,
        (8 * b + j) % 8 == j,
        bit_at(s, 8 * b + j) == byte_bit(s[b], j),
{
    lemma_fundamental_div_mod_converse(8 * b + j, 8, b, j);
}

/// OR-ing `chunk_shifted(sb, sf, tf, w)` into a byte sets exactly the bits
/// `[tf, tf + w)` to the OR of the old bit and the matching source bit
/// `[sf, sf + w)`, and leaves every other bit unchanged.
pub proof fn lemma_or_chunk(ob: u8, sb: u8, sf: u8, tf: u8, w: u8, nb: u8)
    requires
        sf < 8,
        tf < 8,
        1 <= w,
        sf + w <= 8,
        tf + w <= 8,
        nb == ob | chunk_shifted(sb, sf, tf, w),
    ensures
        forall|j: int|
            tf <= j < tf + w ==> #[trigger] byte_bit(nb, j) == (byte_bit(ob, j) || byte_bit(
                sb,
                j - tf + sf,
            )),
        forall|j: int| 0 <= j < 8 && !(tf <= j < tf + w) ==> #[trigger] byte_bit(nb, j) == byte_bit(
            ob,
            j,
        ),
{
    assert(forall|j: u8|
        j < 8 ==> #[trigger] byte_bit(nb, j as int) == (if tf <= j < tf + w {
            byte_bit(ob, j as int) || byte_bit(sb, j - tf + sf)
        } else {
            byte_bit(ob, j as int)
        })) by (bit_vector)
        requires
            sf < 8,
            tf < 8,
            1 <= w,
            sf + w <= 8,
            tf + w <= 8,
            nb == ob | chunk_shifted(sb, sf, tf, w),
    ;
    assert forall|j: int| tf <= j < tf + w implies #[trigger] byte_bit(nb, j) == (byte_bit(ob, j)
        || byte_bit(sb, j - tf + sf)) by {
        let ju = j as u8;
        assert(byte_bit(nb, ju as int) == (byte_bit(ob, ju as int) || byte_bit(sb, ju - tf + sf)));
    }
    assert forall|j: int| 0 <= j < 8 && !(tf <= j < tf + w) implies #[trigger] byte_bit(nb, j)
        == byte_bit(ob, j) by {
        let ju = j as u8;
        assert(byte_bit(nb, ju as int) == byte_bit(ob, ju as int));
    }
}

/// AND-ing a byte with the complement mask of the span `[tf, tf + w)`
/// zeroes exactly that span and leaves every other bit unchanged.
pub proof fn lemma_and_keep_mask(ob: u8, tf: u8, w: u8, nb: u8)
    requires
        tf < 8,
        1 <= w,
        tf + w <= 8,
        nb == ob & (shl8(0xFF, ((8 - tf) as u8)) | shr8(0xFF, ((tf + w) as u8))),
    ensures
        forall|j: int| tf <= j < tf + w ==> !(#[trigger] byte_bit(nb, j)),
        forall|j: int| 0 <= j < 8 && !(tf <= j < tf + w) ==> #[trigger] byte_bit(nb, j) == byte_bit(
            ob,
            j,
        ),
{
    assert(forall|j: u8|
        j < 8 ==> #[trigger] byte_bit(nb, j as int) == (if tf <= j < tf + w {
            false
        } else {
            byte_bit(ob, j as int)
        })) by (bit_vector)
        requires
            tf < 8,
            1 <= w,
            tf + w <= 8,
            nb == ob & (shl8(0xFF, ((8 - tf) as u8)) | shr8(0xFF, ((tf + w) as u8))),
    ;
    assert forall|j: int| tf <= j < tf + w implies !(#[trigger] byte_bit(nb, j)) by {
        let ju = j as u8;
        assert(byte_bit(nb, ju as int) == false);
    }
    assert forall|j: int| 0 <= j < 8 && !(tf <= j < tf + w) implies #[trigger] byte_bit(nb, j)
        == byte_bit(ob, j) by {
        let ju = j as u8;
        assert(byte_bit(nb, ju as int) == byte_bit(ob, ju as int));
    }
}

} // verus!
