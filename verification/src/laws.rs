//! The general laws of the engine: the value reading of the range check,
//! the round trip between writer and reader, idempotence of cleaning, and
//! the agreement of writer and copier.

use vstd::prelude::*;
use vstd::arithmetic::power2::{pow2, lemma_pow2_adds, lemma_pow2_pos, lemma_pow2_strictly_increases,
    lemma2_to64};
use vstd::bits::lemma_u8_shl_is_mul;
use crate::model::{
    bit_at, buf_value, byte_bit, clean_rel, copy_rel, fits_in_bits, lemma_bit_position,
    lemma_byte_bits_extensional, lemma_div_mod8,
};

verus! {

/// A byte is below `2^m` exactly when its `8 - m` leading bits are zero.
proof fn lemma_byte_fits(b: u8, m: u8)
    requires
        m <= 8,
    ensures
        ((b as nat) < pow2(m as nat)) <==> (forall|j: int|
            0 <= j < 8 - m ==> !(#[trigger] byte_bit(b, j))),
{
    lemma2_to64();
    if m == 8 {
        // Every byte is below 2^8 and the range of leading bits is empty.
    } else {
        if m < 7 {
            lemma_pow2_strictly_increases(m as nat, 7);
        }
        lemma_u8_shl_is_mul(1, m);
        if b < (1u8 << m) {
            assert(forall|j: u8| j + m < 8 ==> !byte_bit(b, j as int)) by (bit_vector)
                requires
                    m < 8,
                    b < (1u8 << m),
            ;
            assert forall|j: int| 0 <= j < 8 - m implies !(#[trigger] byte_bit(b, j)) by {
                let ju = j as u8;
                assert(!byte_bit(b, ju as int));
            }
        } else {
            assert((0 + m < 8 && byte_bit(b, 0)) || (1 + m < 8 && byte_bit(b, 1)) || (2 + m < 8
                && byte_bit(b, 2)) || (3 + m < 8 && byte_bit(b, 3)) || (4 + m < 8 && byte_bit(b, 4))
                || (5 + m < 8 && byte_bit(b, 5)) || (6 + m < 8 && byte_bit(b, 6)) || (7 + m < 8
                && byte_bit(b, 7))) by (bit_vector)
                requires
                    m < 8,
                    b >= (1u8 << m),
            ;
        }
    }
}

/// The value reading of the range check: all bits above the low `n` bits
/// of a buffer are zero exactly when the buffer's big-endian unsigned
/// value is below `2^n`.
pub proof fn lemma_fits_iff_value_lt(s: Seq<u8>, n: int)
    requires
        0 <= n <= 8 * s.len(),
    ensures
        fits_in_bits(s, n) <==> (buf_value(s) < pow2(n as nat)),
    decreases s.len(),
{
    lemma_pow2_pos(n as nat);
    if s.len() == 0 {
        // The value is zero and no bit exists.
    } else if n >= 8 {
        let t = s.drop_last();
        let c = s.last();
        lemma_fits_iff_value_lt(t, n - 8);
        lemma_pow2_adds((n - 8) as nat, 8);
        lemma2_to64();
        assert(pow2(n as nat) == pow2((n - 8) as nat) * 256);
        // The spans of leading bits coincide, bit for bit.
        assert(8 * t.len() - (n - 8) == 8 * s.len() - n);
        assert forall|i: int| 0 <= i < 8 * s.len() - n implies #[trigger] bit_at(s, i) == bit_at(
            t,
            i,
        ) by {
            lemma_div_mod8(i);
            lemma_bit_position(s, i / 8, i % 8);
            lemma_bit_position(t, i / 8, i % 8);
            assert(t[i / 8] == s[i / 8]);
        }
        assert(fits_in_bits(s, n) <==> fits_in_bits(t, n - 8)) by {
            if fits_in_bits(t, n - 8) {
                assert forall|i: int| 0 <= i < 8 * s.len() - n implies !(#[trigger] bit_at(
                    s,
                    i,
                )) by {
                    assert(!bit_at(t, i));
                }
            }
            if fits_in_bits(s, n) {
                assert forall|i: int| 0 <= i < 8 * t.len() - (n - 8) implies !(#[trigger] bit_at(
                    t,
                    i,
                )) by {
                    assert(!bit_at(s, i));
                }
            }
        }
        // And so do the value bounds.
        assert(buf_value(s) == buf_value(t) * 256 + c);
        assert(buf_value(t) < pow2((n - 8) as nat) ==> buf_value(s) < pow2(n as nat)) by {
            if buf_value(t) < pow2((n - 8) as nat) {
                assert(buf_value(t) * 256 <= (pow2((n - 8) as nat) - 1) * 256) by (nonlinear_arith)
                    requires
                        buf_value(t) <= pow2((n - 8) as nat) - 1,
                ;
            }
        }
        assert(buf_value(s) < pow2(n as nat) ==> buf_value(t) < pow2((n - 8) as nat)) by {
            if buf_value(s) < pow2(n as nat) {
                assert(buf_value(t) * 256 < pow2((n - 8) as nat) * 256);
                assert(buf_value(t) < pow2((n - 8) as nat)) by (nonlinear_arith)
                    requires
                        buf_value(t) * 256 < pow2((n - 8) as nat) * 256,
                ;
            }
        }
    } else {
        let t = s.drop_last();
        let c = s.last();
        lemma_fits_iff_value_lt(t, 0);
        lemma_byte_fits(c, n as u8);
        lemma2_to64();
        if n < 7 {
            lemma_pow2_strictly_increases(n as nat, 8);
        } else {
            lemma_pow2_strictly_increases(7, 8);
        }
        assert(pow2(n as nat) <= 256);
        assert(buf_value(s) == buf_value(t) * 256 + c);
        // The leading bits of `s` are all of `t`'s bits plus the leading
        // `8 - n` bits of the last byte.
        assert forall|i: int| 0 <= i < 8 * t.len() implies #[trigger] bit_at(s, i) == bit_at(
            t,
            i,
        ) by {
            lemma_div_mod8(i);
            lemma_bit_position(s, i / 8, i % 8);
            lemma_bit_position(t, i / 8, i % 8);
            assert(t[i / 8] == s[i / 8]);
        }
        assert forall|j: int| 0 <= j < 8 implies #[trigger] bit_at(s, 8 * t.len() + j) == byte_bit(
            c,
            j,
        ) by {
            lemma_bit_position(s, t.len() as int, j);
        }
        if fits_in_bits(s, n) {
            assert forall|i: int| 0 <= i < 8 * t.len() implies !(#[trigger] bit_at(t, i)) by {
                assert(!bit_at(s, i));
            }
            assert(buf_value(t) == 0);
            assert forall|j: int| 0 <= j < 8 - n implies !(#[trigger] byte_bit(c, j)) by {
                assert(!bit_at(s, 8 * t.len() + j));
            }
            assert((c as nat) < pow2(n as nat));
            assert(buf_value(s) < pow2(n as nat));
        }
        if buf_value(s) < pow2(n as nat) {
            assert(buf_value(t) == 0) by {
                if buf_value(t) > 0 {
                    assert(buf_value(t) * 256 >= 256) by (nonlinear_arith)
                        requires
                            buf_value(t) >= 1,
                    ;
                }
            }
            assert((c as nat) < pow2(n as nat));
            assert forall|i: int| 0 <= i < 8 * s.len() - n implies !(#[trigger] bit_at(s, i)) by {
                if i < 8 * t.len() {
                    assert(!bit_at(t, i));
                } else {
                    let j = i - 8 * t.len();
                    assert(0 <= j < 8 - n);
                    assert(!byte_bit(c, j));
                    assert(bit_at(s, 8 * t.len() + j) == byte_bit(c, j));
                }
            }
        }
    }
}

/// Buffers of equal length that agree on every bit are equal.
pub proof fn lemma_bitwise_eq(a: Seq<u8>, b: Seq<u8>)
    requires
        a.len() == b.len(),
        forall|i: int| 0 <= i < 8 * a.len() ==> #[trigger] bit_at(a, i) == bit_at(b, i),
    ensures
        a == b,
{
    assert forall|k: int| 0 <= k < a.len() implies a[k] == b[k] by {
        assert forall|j: int| 0 <= j < 8 implies byte_bit(a[k], j) == byte_bit(b[k], j) by {
            lemma_bit_position(a, k, j);
            lemma_bit_position(b, k, j);
            assert(bit_at(a, 8 * k + j) == bit_at(b, 8 * k + j));
        }
        lemma_byte_bits_extensional(a[k], b[k]);
    }
    assert(a =~= b);
}

/// Cleaning a span twice equals cleaning it once: the second clean leaves
/// the buffer bit-for-bit unchanged, inside and outside the span.
pub proof fn lemma_clean_idempotent(t0: Seq<u8>, t1: Seq<u8>, t2: Seq<u8>, off: int, n: int)
    requires
        0 <= off,
        0 <= n,
        off + n <= 8 * t0.len(),
        clean_rel(t0, t1, off, n),
        clean_rel(t1, t2, off, n),
    ensures
        t2 == t1,
{
    assert forall|i: int| 0 <= i < 8 * t2.len() implies #[trigger] bit_at(t2, i) == bit_at(
        t1,
        i,
    ) by {
        if off <= i < off + n {
            assert(!bit_at(t1, i));
            assert(!bit_at(t2, i));
        }
    }
    lemma_bitwise_eq(t2, t1);
}

/// The copy relation pins the result down: two buffers that both arise by
/// OR-copying the same source span onto the same original are equal. In
/// particular, the copier called with the writer's anchored source offset
/// `8 * source_len - bit_size` produces output identical to the writer's.
pub proof fn lemma_copy_rel_determines(
    t0: Seq<u8>,
    t1: Seq<u8>,
    t2: Seq<u8>,
    toff: int,
    n: int,
    s: Seq<u8>,
    soff: int,
)
    requires
        0 <= toff,
        0 <= n,
        toff + n <= 8 * t0.len(),
        copy_rel(t0, t1, toff, n, s, soff),
        copy_rel(t0, t2, toff, n, s, soff),
    ensures
        t1 == t2,
{
    assert forall|i: int| 0 <= i < 8 * t1.len() implies #[trigger] bit_at(t1, i) == bit_at(
        t2,
        i,
    ) by {
        if toff <= i < toff + n {
            assert(bit_at(t1, i) == (bit_at(t0, i) || bit_at(s, soff + (i - toff))));
            assert(bit_at(t2, i) == (bit_at(t0, i) || bit_at(s, soff + (i - toff))));
        }
    }
    lemma_bitwise_eq(t1, t2);
}

/// Round trip: writing the low `n` bits of `v` at `off` into a target
/// whose destination span is pre-cleared, then reading the same span back
/// into an `out` buffer whose own destination span is pre-cleared, leaves
/// the low `n` bits of `v` unchanged in `out`.
pub proof fn lemma_write_read_round_trip(
    t0: Seq<u8>,
    t1: Seq<u8>,
    out0: Seq<u8>,
    out1: Seq<u8>,
    v: Seq<u8>,
    off: int,
    n: int,
    len: int,
)
    requires
        0 <= n,
        0 <= off,
        n <= 8 * len,
        len <= v.len(),
        len <= out0.len(),
        off + n <= 8 * t0.len(),
        forall|k: int| off <= k < off + n ==> !(#[trigger] bit_at(t0, k)),
        forall|k: int| 8 * len - n <= k < 8 * len ==> !(#[trigger] bit_at(out0, k)),
        copy_rel(t0, t1, off, n, v, 8 * len - n),
        copy_rel(out0, out1, 8 * len - n, n, t1, off),
    ensures
        forall|k: int| 8 * len - n <= k < 8 * len ==> #[trigger] bit_at(out1, k) == bit_at(v, k),
{
    assert forall|k: int| 8 * len - n <= k < 8 * len implies #[trigger] bit_at(out1, k) == bit_at(
        v,
        k,
    ) by {
        let u = k - (8 * len - n);
        assert(bit_at(out1, k) == (bit_at(out0, k) || bit_at(t1, off + u)));
        assert(bit_at(t1, off + u) == (bit_at(t0, off + u) || bit_at(v, (8 * len - n) + u)));
        assert(!bit_at(out0, k));
        assert(!bit_at(t0, off + u));
        assert((8 * len - n) + u == k);
    }
}

/// Round trip, exact form: when `out` starts all-zero and both `v` and
/// `out` are exactly `len` bytes with the value of `v` fitting in `n`
/// bits, reading back after writing returns `v` itself.
pub proof fn lemma_write_read_round_trip_exact(
    t0: Seq<u8>,
    t1: Seq<u8>,
    out0: Seq<u8>,
    out1: Seq<u8>,
    v: Seq<u8>,
    off: int,
    n: int,
    len: int,
)
    requires
        0 <= n,
        0 <= off,
        n <= 8 * len,
        v.len() == len,
        out0.len() == len,
        off + n <= 8 * t0.len(),
        forall|k: int| off <= k < off + n ==> !(#[trigger] bit_at(t0, k)),
        forall|k: int| 0 <= k < 8 * len ==> !(#[trigger] bit_at(out0, k)),
        fits_in_bits(v, n),
        copy_rel(t0, t1, off, n, v, 8 * len - n),
        copy_rel(out0, out1, 8 * len - n, n, t1, off),
    ensures
        out1 == v,
{
    lemma_write_read_round_trip(t0, t1, out0, out1, v, off, n, len);
    assert forall|i: int| 0 <= i < 8 * out1.len() implies #[trigger] bit_at(out1, i) == bit_at(
        v,
        i,
    ) by {
        if i < 8 * len - n {
            assert(bit_at(out1, i) == bit_at(out0, i));
            assert(!bit_at(out0, i));
            assert(!bit_at(v, i));
        }
    }
    lemma_bitwise_eq(out1, v);
}

} // verus!
