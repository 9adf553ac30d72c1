//! Word-level bit operations used by the index builder, together with the
//! spec-level vocabulary (`bit64`) that the rest of the crate states its
//! contracts in.

#![allow(non_snake_case)]

use vstd::prelude::*;
use vstd::std_specs::bits::{
    axiom_u64_leading_zeros, axiom_u64_trailing_zeros, u64_leading_zeros, u64_trailing_zeros,
};

verus! {

/// True when bit `k` of `x` is set; bit 0 is the least significant bit.
pub open spec fn bit64(x: u64, k: u64) -> bool
    recommends
        k < 64,
{
    (x >> k) & 1u64 == 1u64
}

/// The index of the lowest set bit of `x` (64 when `x == 0`).
pub open spec fn tz64(x: u64) -> u64 {
    u64_trailing_zeros(x) as u64
}

/// The number of leading zero bits of `x` (64 when `x == 0`).
pub open spec fn lz64(x: u64) -> u64 {
    u64_leading_zeros(x) as u64
}

/// Per-bit reading of the four boolean word operations.
pub proof fn lemma_bit_ops(a: u64, b: u64, k: u64)
    requires
        k < 64,
    ensures
        bit64(a & b, k) == (bit64(a, k) && bit64(b, k)),
        bit64(a | b, k) == (bit64(a, k) || bit64(b, k)),
        bit64(a ^ b, k) == (bit64(a, k) != bit64(b, k)),
        bit64(!a, k) == !bit64(a, k),
{
    assert((((a & b) >> k) & 1u64 == 1u64) == (((a >> k) & 1u64 == 1u64) && ((b >> k) & 1u64
        == 1u64)) && (((a | b) >> k) & 1u64 == 1u64) == (((a >> k) & 1u64 == 1u64) || ((b >> k)
        & 1u64 == 1u64)) && (((a ^ b) >> k) & 1u64 == 1u64) == (((a >> k) & 1u64 == 1u64) != ((b
        >> k) & 1u64 == 1u64)) && ((((!a) >> k) & 1u64 == 1u64) == !((a >> k) & 1u64 == 1u64)))
        by (bit_vector)
        requires
            k < 64u64,
    ;
}

/// Per-bit reading of a left shift.
pub proof fn lemma_bit_shl(a: u64, s: u64, k: u64)
    requires
        s < 64,
        k < 64,
    ensures
        bit64(a << s, k) == (s <= k && bit64(a, (k - s) as u64)),
{
    if s <= k {
        assert((((a << s) >> k) & 1u64) == ((a >> ((k - s) as u64)) & 1u64)) by (bit_vector)
            requires
                s <= k < 64u64,
        ;
    } else {
        assert((((a << s) >> k) & 1u64) == 0u64) by (bit_vector)
            requires
                k < s < 64u64,
        ;
    }
}

/// Per-bit reading of a right shift.
pub proof fn lemma_bit_shr(a: u64, s: u64, k: u64)
    requires
        s < 64,
        k < 64,
    ensures
        bit64(a >> s, k) == (k + s < 64 && bit64(a, (k + s) as u64)),
{
    if k + s < 64 {
        assert((((a >> s) >> k) & 1u64) == ((a >> ((k + s) as u64)) & 1u64)) by (bit_vector)
            requires
                k + s < 64,
        ;
    } else {
        assert((((a >> s) >> k) & 1u64) == 0u64) by (bit_vector)
            requires
                k < 64u64,
                s < 64u64,
                k + s >= 64,
        ;
    }
}

/// A one-bit word `1 << t` has exactly bit `t` set.
pub proof fn lemma_single_bit(t: u64, k: u64)
    requires
        t < 64,
        k < 64,
    ensures
        bit64(1u64 << t, k) == (k == t),
{
    assert((((1u64 << t) >> k) & 1u64 == 1u64) == (k == t)) by (bit_vector)
        requires
            t < 64u64,
            k < 64u64,
    ;
}

/// The zero word has no set bit.
pub proof fn lemma_zero_word(k: u64)
    requires
        k < 64,
    ensures
        !bit64(0u64, k),
{
    assert((0u64 >> k) & 1u64 == 0u64) by (bit_vector);
}

/// Facts about the lowest set bit of a non-zero word: its index is below 64,
/// the bit is set, and every bit below it is clear (also in mask form).
pub proof fn lemma_tz(x: u64)
    ensures
        x == 0 <==> tz64(x) == 64,
        tz64(x) <= 64,
        x != 0 ==> tz64(x) < 64 && bit64(x, tz64(x)) && x & (((1u64 << tz64(x)) - 1) as u64) == 0,
        forall|j: u64| j < tz64(x) ==> !bit64(x, j),
{
    axiom_u64_trailing_zeros(x);
    let t = tz64(x);
    if x != 0 {
        assert(x << ((64 - t) as u64) == 0);
        assert(x & (((1u64 << t) - 1) as u64) == 0) by (bit_vector)
            requires
                t < 64u64,
                x << ((64 - t) as u64) == 0,
        ;
    }
}

/// Facts about the highest set bit of a non-zero word, at index `63 - lz64`.
pub proof fn lemma_lz(x: u64)
    ensures
        x == 0 <==> lz64(x) == 64,
        lz64(x) <= 64,
        x != 0 ==> lz64(x) < 64 && bit64(x, (63 - lz64(x)) as u64),
        forall|j: u64| j < 64 && j + lz64(x) >= 64 ==> !bit64(x, j),
{
    axiom_u64_leading_zeros(x);
    let h = (63 - lz64(x)) as u64;
    if x != 0 {
        assert((x >> h) & 1u64 != 0u64);
        assert((x >> h) & 1u64 != 0u64 ==> (x >> h) & 1u64 == 1u64) by (bit_vector);
    }
}

/// Remove the rightmost 1 in `x`.
pub fn R(x: u64) -> (r: u64)
    ensures
        forall|k: u64| k < 64 ==> bit64(r, k) == (bit64(x, k) && k != tz64(x)),
        x != 0 ==> r < x,
{
    if x == 0 {
        proof {
            lemma_tz(x);
            assert forall|k: u64| k < 64 implies !bit64(0u64, k) by {
                lemma_zero_word(k);
            }
        }
        0
    } else {
        let y = x - 1;
        proof {
            lemma_tz(x);
            let t = tz64(x);
            assert forall|k: u64| k < 64 implies bit64(x & y, k) == (bit64(x, k) && k != t) by {
                if k < t {
                    lemma_bit_ops(x, y, k);
                } else if k == t {
                    assert(((x & y) >> k) & 1u64 == 0u64) by (bit_vector)
                        requires
                            t == k < 64u64,
                            x >= 1,
                            y == x - 1,
                            (x >> t) & 1u64 == 1u64,
                            x & (((1u64 << t) - 1) as u64) == 0u64,
                    ;
                } else {
                    assert(((x & y) >> k) & 1u64 == (x >> k) & 1u64) by (bit_vector)
                        requires
                            t < k < 64u64,
                            x >= 1,
                            y == x - 1,
                            (x >> t) & 1u64 == 1u64,
                            x & (((1u64 << t) - 1) as u64) == 0u64,
                    ;
                }
            }
            assert(x & y < x) by (bit_vector)
                requires
                    x >= 1,
                    y == x - 1,
            ;
        }
        x & y
    }
}

/// Remove the leftmost 1 in `x`.
pub fn L(x: u64) -> (r: u64)
    requires
        x != 0,
    ensures
        forall|k: u64| k < 64 ==> bit64(r, k) == (bit64(x, k) && k != 63 - lz64(x)),
        r < x,
{
    proof {
        lemma_lz(x);
    }
    let lz = x.leading_zeros();
    let m = 1u64 << ((63 - lz) as u64);
    let r = x & !m;
    proof {
        let h = (63 - lz64(x)) as u64;
        assert forall|k: u64| k < 64 implies bit64(r, k) == (bit64(x, k) && k != h) by {
            lemma_bit_ops(x, !m, k);
            lemma_bit_ops(m, m, k);
            lemma_single_bit(h, k);
        }
        assert(x & !(1u64 << h) < x) by (bit_vector)
            requires
                h < 64u64,
                (x >> h) & 1u64 == 1u64,
        ;
    }
    r
}

/// The one-bit word holding only the lowest set bit of `x` (0 when `x == 0`).
pub open spec fn lowest_bit(x: u64) -> u64 {
    if x == 0 {
        0u64
    } else {
        1u64 << tz64(x)
    }
}

/// Extract the rightmost 1 in `x`.
pub fn E(x: u64) -> (r: u64)
    ensures
        r == lowest_bit(x),
        x == 0 ==> r == 0,
        x != 0 ==> r == 1u64 << tz64(x),
        forall|k: u64| k < 64 ==> bit64(r, k) == (bit64(x, k) && k == tz64(x)),
{
    if x == 0 {
        proof {
            assert forall|k: u64| k < 64 implies !bit64(0u64, k) by {
                lemma_zero_word(k);
            }
        }
        0
    } else {
        proof {
            assert(!x < 0xffff_ffff_ffff_ffffu64) by (bit_vector)
                requires
                    x >= 1,
            ;
        }
        let y = !x + 1;
        let r = x & y;
        proof {
            lemma_tz(x);
            let t = tz64(x);
            assert(x & y == 1u64 << t) by (bit_vector)
                requires
                    t < 64u64,
                    x >= 1,
                    y == !x + 1,
                    (x >> t) & 1u64 == 1u64,
                    x & (((1u64 << t) - 1) as u64) == 0u64,
            ;
            assert forall|k: u64| k < 64 implies bit64(r, k) == (bit64(x, k) && k == t) by {
                lemma_single_bit(t, k);
            }
        }
        r
    }
}

/// Extract the rightmost 1 in `x` and smear it to the right.
pub fn S(x: u64) -> (r: u64)
    ensures
        forall|k: u64| k < 64 ==> bit64(r, k) == (x != 0 && k <= tz64(x)),
{
    if x == 0 {
        proof {
            assert forall|k: u64| k < 64 implies !bit64(0u64, k) by {
                lemma_zero_word(k);
            }
        }
        0
    } else {
        let y = x - 1;
        let r = x ^ y;
        proof {
            lemma_tz(x);
            let t = tz64(x);
            assert forall|k: u64| k < 64 implies bit64(r, k) == (k <= t) by {
                assert((((x ^ y) >> k) & 1u64 == 1u64) == (k <= t)) by (bit_vector)
                    requires
                        t < 64u64,
                        k < 64u64,
                        x >= 1,
                        y == x - 1,
                        (x >> t) & 1u64 == 1u64,
                        x & (((1u64 << t) - 1) as u64) == 0u64,
                ;
            }
        }
        r
    }
}

/// The length of the run of consecutive ones in `x` that ends at bit
/// `pos - 1`, read toward lower bit indices.
pub open spec fn run_ones(x: u64, pos: int) -> nat
    decreases pos,
{
    if pos <= 0 {
        0
    } else if bit64(x, (pos - 1) as u64) {
        1 + run_ones(x, pos - 1)
    } else {
        0
    }
}

/// Return the number of consecutive ones in the binary representation of `x`,
/// starting just below bit `pos` and counting downward.
pub fn leading_ones(x: u64, pos: u32) -> (r: u32)
    requires
        1 <= pos <= 64,
    ensures
        r == run_ones(x, pos as int),
        r <= pos,
{
    let mut r: u32 = 0;
    let mut p: u32 = pos;
    while p > 0 && (x >> ((p - 1) as u64)) & 1u64 == 1u64
        invariant
            p <= pos <= 64,
            r == pos - p,
            run_ones(x, pos as int) == r + run_ones(x, p as int),
        decreases p,
    {
        p = p - 1;
        r = r + 1;
    }
    r
}


/// Two words with the same bits are the same word.
pub proof fn lemma_bit_ext(a: u64, b: u64)
    requires
        forall|k: u64| k < 64 ==> bit64(a, k) == bit64(b, k),
    ensures
        a == b,
{
    if a != b {
        assert(a ^ b != 0) by (bit_vector)
            requires
                a != b,
        ;
        lemma_tz(a ^ b);
        let t = tz64(a ^ b);
        assert(bit64(a ^ b, t));
        lemma_bit_ops(a, b, t);
    }
}

} // verus!
