//! Character-comparison backends: given record bytes and a chunk offset they
//! produce one `Bitmap` for the 64-byte window at that offset, one bit per
//! byte and one field per structural character.

#![allow(non_camel_case_types)]

use vstd::prelude::*;

use crate::bit::{bit64, lemma_bit_ops, lemma_bit_shl};
use crate::model::{BACKSLASH, COLON, COMMA, LEFT_BRACE, LEFT_BRACKET, QUOTE, RIGHT_BRACE,
    RIGHT_BRACKET};

verus! {

/// Byte lane `j` of a word, as a value below 256 (lane 0 is the least
/// significant byte).
pub open spec fn byte_of(x: u64, j: u64) -> u64
    recommends
        j < 8,
{
    (x >> ((8 * j) as u64)) & 0xffu64
}

/// Structural character bitmaps for one 64-byte chunk. Bit `k` of a field is
/// set exactly when the byte at (chunk base + `k`) is that character; bit 0
/// is the lowest-address byte.
#[derive(Clone, Copy, Debug, PartialEq, Eq, Structural)]
pub struct Bitmap {
    pub backslash: u64,
    pub quote: u64,
    pub colon: u64,
    pub comma: u64,
    pub left_brace: u64,
    pub right_brace: u64,
    pub left_bracket: u64,
    pub right_bracket: u64,
}

/// Bit `k` of `m` is set exactly when byte `base + k` of `s` exists and
/// equals `c`.
pub open spec fn mask_ok(m: u64, s: Seq<u8>, base: int, c: u8) -> bool {
    forall|k: u64|
        k < 64 ==> #[trigger] bit64(m, k) == (base + k < s.len() && s[base + k] == c)
}

/// All eight fields of `b` describe the 64-byte window of `s` at `base`.
pub open spec fn bitmap_ok(b: Bitmap, s: Seq<u8>, base: int) -> bool {
    &&& mask_ok(b.backslash, s, base, BACKSLASH)
    &&& mask_ok(b.quote, s, base, QUOTE)
    &&& mask_ok(b.colon, s, base, COLON)
    &&& mask_ok(b.comma, s, base, COMMA)
    &&& mask_ok(b.left_brace, s, base, LEFT_BRACE)
    &&& mask_ok(b.right_brace, s, base, RIGHT_BRACE)
    &&& mask_ok(b.left_bracket, s, base, LEFT_BRACKET)
    &&& mask_ok(b.right_bracket, s, base, RIGHT_BRACKET)
}

/// The contract every character-comparison backend satisfies. `full` may
/// assume a whole 64-byte window; `partial` pads the window with zero bytes,
/// which match no structural character.
pub trait Backend {
    /// Create a bitmap for the complete 64-byte window of `s` at `offset`.
    fn create_full_bitmap(&self, s: &[u8], offset: usize) -> (b: Bitmap)
        requires
            offset + 64 <= s@.len(),
        ensures
            bitmap_ok(b, s@, offset as int),
    ;

    /// Create a bitmap for a window that may run past the end of `s`.
    fn create_partial_bitmap(&self, s: &[u8], offset: usize) -> (b: Bitmap)
        requires
            offset < s@.len(),
            s@.len() <= offset + 64,
        ensures
            bitmap_ok(b, s@, offset as int),
    ;
}

/// A 256-bit vector held as four words; window byte 0 sits in the most
/// significant lane of the first word.
#[derive(Clone, Copy, Debug)]
pub struct m256i(pub u64, pub u64, pub u64, pub u64);

/// Word `i` of the vector.
pub open spec fn vec_word(v: m256i, i: int) -> u64
    recommends
        0 <= i < 4,
{
    if i == 0 {
        v.0
    } else if i == 1 {
        v.1
    } else if i == 2 {
        v.2
    } else {
        v.3
    }
}

/// Byte `k` of the 32-byte window the vector holds.
pub open spec fn vec_byte(v: m256i, k: int) -> u64
    recommends
        0 <= k < 32,
{
    byte_of(vec_word(v, k / 8), (7 - (k % 8)) as u64)
}

/// The bytes of the window are those of `s` at `base`, zero past the end.
pub open spec fn window_loaded(v: m256i, s: Seq<u8>, base: int) -> bool {
    forall|k: int|
        0 <= k < 32 ==> #[trigger] vec_byte(v, k) == (if base + k < s.len() {
            s[base + k] as u64
        } else {
            0u64
        })
}

/// Read eight bytes of `s` into one word, first byte into the most
/// significant lane.
fn slice_to_u64(s: &[u8], offset: usize) -> (r: u64)
    requires
        offset + 8 <= s@.len(),
    ensures
        forall|i: int| 0 <= i < 8 ==> #[trigger] byte_of(r, (7 - i) as u64) == s@[offset + i] as u64,
{
    let b0 = s[offset] as u64;
    let b1 = s[offset + 1] as u64;
    let b2 = s[offset + 2] as u64;
    let b3 = s[offset + 3] as u64;
    let b4 = s[offset + 4] as u64;
    let b5 = s[offset + 5] as u64;
    let b6 = s[offset + 6] as u64;
    let b7 = s[offset + 7] as u64;
    let r = b0 << 56u64 | b1 << 48u64 | b2 << 40u64 | b3 << 32u64 | b4 << 24u64 | b5 << 16u64 | b6
        << 8u64 | b7;
    proof {
        assert forall|i: int| 0 <= i < 8 implies #[trigger] byte_of(r, (7 - i) as u64) == s@[offset
            + i] as u64 by {
            let j = (7 - i) as u64;
            let sh = (8 * j) as u64;
            assert(((b0 << 56u64 | b1 << 48u64 | b2 << 40u64 | b3 << 32u64 | b4 << 24u64 | b5
                << 16u64 | b6 << 8u64 | b7) >> sh) & 0xffu64 == (if j == 7 {
                b0
            } else if j == 6 {
                b1
            } else if j == 5 {
                b2
            } else if j == 4 {
                b3
            } else if j == 3 {
                b4
            } else if j == 2 {
                b5
            } else if j == 1 {
                b6
            } else {
                b7
            })) by (bit_vector)
                requires
                    j < 8,
                    sh == 8 * j,
                    b0 < 256,
                    b1 < 256,
                    b2 < 256,
                    b3 < 256,
                    b4 < 256,
                    b5 < 256,
                    b6 < 256,
                    b7 < 256,
            ;
        }
    }
    r
}

/// One lane of `0x01` for each byte lane where `x` and `y` agree, `0x00`
/// elsewhere (the SWAR bytewise-equality idiom).
fn bytewise_equal(x: u64, y: u64) -> (r: u64)
    ensures
        forall|j: u64|
            j < 8 ==> #[trigger] byte_of(r, j) == (if byte_of(x, j) == byte_of(y, j) {
                1u64
            } else {
                0u64
            }),
        r & 0xfefe_fefe_fefe_fefeu64 == 0,
{
    let z = x ^ y;
    proof {
        assert((z & 0x7f7f_7f7f_7f7f_7f7fu64) <= 0x7f7f_7f7f_7f7f_7f7fu64) by (bit_vector);
    }
    let t = (z & 0x7f7f_7f7f_7f7f_7f7fu64) + 0x7f7f_7f7f_7f7f_7f7fu64;
    let r = !((t | z) >> 7u64) & 0x0101_0101_0101_0101u64;
    proof {
        assert((!((t | (x ^ y)) >> 7u64) & 0x0101_0101_0101_0101u64) & 0xfefe_fefe_fefe_fefeu64
            == 0) by (bit_vector);
        assert forall|j: u64| j < 8 implies #[trigger] byte_of(r, j) == (if byte_of(x, j)
            == byte_of(y, j) {
            1u64
        } else {
            0u64
        }) by {
            let sh = (8 * j) as u64;
            assert(((!((t | (x ^ y)) >> 7u64) & 0x0101_0101_0101_0101u64) >> sh) & 0xffu64 == (if ((
            x >> sh) & 0xffu64) == ((y >> sh) & 0xffu64) {
                1u64
            } else {
                0u64
            })) by (bit_vector)
                requires
                    j < 8,
                    sh == 8 * j,
                    t == ((x ^ y) & 0x7f7f_7f7f_7f7f_7f7fu64) + 0x7f7f_7f7f_7f7f_7f7fu64,
            ;
        }
    }
    r
}

impl m256i {
    /// Broadcast one byte into every lane.
    fn splat(x: u8) -> (v: m256i)
        ensures
            forall|k: int| 0 <= k < 32 ==> #[trigger] vec_byte(v, k) == x as u64,
    {
        let w = (x as u64) * 0x0101_0101_0101_0101u64;
        proof {
            let xx = x as u64;
            assert forall|j: u64| j < 8 implies #[trigger] byte_of(w, j) == xx by {
                let sh = (8 * j) as u64;
                assert((((xx * 0x0101_0101_0101_0101u64) as u64) >> sh) & 0xffu64 == xx)
                    by (bit_vector)
                    requires
                        j < 8,
                        sh == 8 * j,
                        xx < 256,
                ;
            }
        }
        m256i(w, w, w, w)
    }

    /// Load 32 bytes of `s` starting at `i`.
    fn load(s: &[u8], i: usize) -> (v: m256i)
        requires
            i + 32 <= s@.len(),
        ensures
            window_loaded(v, s@, i as int),
    {
        let n = s.len();
        assert(i + 32 <= n);
        let v = m256i(
            slice_to_u64(s, i),
            slice_to_u64(s, i + 8),
            slice_to_u64(s, i + 16),
            slice_to_u64(s, i + 24),
        );
        proof {
            assert forall|k: int|
                0 <= k < 32 implies #[trigger] vec_byte(v, k) == (if i + k < s@.len() {
                s@[i + k] as u64
            } else {
                0u64
            }) by {
                assert(8 * (k / 8) + (k % 8) == k);
                assert(byte_of(vec_word(v, k / 8), (7 - (k % 8)) as u64) == s@[i + 8 * (k / 8) + (k
                    % 8)] as u64);
            }
        }
        v
    }

    /// Load the bytes of `s` from `i` to its end (at most 32 of them) and pad
    /// the rest of the window with zero bytes.
    fn load_partial(s: &[u8], i: usize) -> (v: m256i)
        requires
            i <= s@.len(),
            s@.len() <= i + 32,
        ensures
            window_loaded(v, s@, i as int),
    {
        let mut buf: Vec<u8> = Vec::new();
        let mut j: usize = 0;
        while j < 32
            invariant
                j <= 32,
                buf@.len() == j,
                i <= s@.len() <= i + 32,
                forall|t: int|
                    0 <= t < j ==> buf@[t] == (if i + t < s@.len() {
                        s@[i + t]
                    } else {
                        0u8
                    }),
            decreases 32 - j,
        {
            if j < s.len() - i {
                buf.push(s[i + j]);
            } else {
                buf.push(0u8);
            }
            j = j + 1;
        }
        let v = m256i(
            slice_to_u64(buf.as_slice(), 0),
            slice_to_u64(buf.as_slice(), 8),
            slice_to_u64(buf.as_slice(), 16),
            slice_to_u64(buf.as_slice(), 24),
        );
        proof {
            assert forall|k: int|
                0 <= k < 32 implies #[trigger] vec_byte(v, k) == (if i + k < s@.len() {
                s@[i + k] as u64
            } else {
                0u64
            }) by {
                assert(8 * (k / 8) + (k % 8) == k);
                assert(byte_of(vec_word(v, k / 8), (7 - (k % 8)) as u64) == buf@[8 * (k / 8) + (k
                    % 8)] as u64);
            }
        }
        v
    }

    /// Compare lanewise with `other`: `0x01` where the lanes agree.
    fn eq(self, other: m256i) -> (v: m256i)
        ensures
            forall|k: int|
                0 <= k < 32 ==> #[trigger] vec_byte(v, k) == (if vec_byte(self, k) == vec_byte(
                    other,
                    k,
                ) {
                    1u64
                } else {
                    0u64
                }),
            vec_word(v, 0) & 0xfefe_fefe_fefe_fefeu64 == 0,
            vec_word(v, 1) & 0xfefe_fefe_fefe_fefeu64 == 0,
            vec_word(v, 2) & 0xfefe_fefe_fefe_fefeu64 == 0,
            vec_word(v, 3) & 0xfefe_fefe_fefe_fefeu64 == 0,
    {
        m256i(
            bytewise_equal(self.0, other.0),
            bytewise_equal(self.1, other.1),
            bytewise_equal(self.2, other.2),
            bytewise_equal(self.3, other.3),
        )
    }

    /// Gather the low bit of every lane into one 32-bit mask; window byte `k`
    /// becomes bit `k`.
    fn move_mask(self) -> (r: u64)
        requires
            vec_word(self, 0) & 0xfefe_fefe_fefe_fefeu64 == 0,
            vec_word(self, 1) & 0xfefe_fefe_fefe_fefeu64 == 0,
            vec_word(self, 2) & 0xfefe_fefe_fefe_fefeu64 == 0,
            vec_word(self, 3) & 0xfefe_fefe_fefe_fefeu64 == 0,
        ensures
            forall|k: u64| k < 32 ==> #[trigger] bit64(r, k) == (vec_byte(self, k as int) == 1),
            forall|k: u64| 32 <= k < 64 ==> !#[trigger] bit64(r, k),
    {
        let r0 = gather_lanes(self.0);
        let r1 = gather_lanes(self.1);
        let r2 = gather_lanes(self.2);
        let r3 = gather_lanes(self.3);
        let r = r0 | r1 << 8u64 | r2 << 16u64 | r3 << 24u64;
        proof {
            assert forall|k: u64| k < 64 implies #[trigger] bit64(r, k) == (k < 32 && vec_byte(
                self,
                k as int,
            ) == 1) by {
                lemma_bit_ops(r0 | r1 << 8u64 | r2 << 16u64, r3 << 24u64, k);
                lemma_bit_ops(r0 | r1 << 8u64, r2 << 16u64, k);
                lemma_bit_ops(r0, r1 << 8u64, k);
                lemma_bit_shl(r1, 8u64, k);
                lemma_bit_shl(r2, 16u64, k);
                lemma_bit_shl(r3, 24u64, k);
                if k < 32 {
                    let kk = k % 8;
                    assert(vec_byte(self, k as int) == byte_of(
                        vec_word(self, k as int / 8),
                        (7 - kk) as u64,
                    ));
                }
            }
        }
        r
    }
}

/// Collect the low bit of each of the eight lanes of `w` into the low byte
/// of the result: lane 7 becomes bit 0, lane 0 becomes bit 7.
fn gather_lanes(w: u64) -> (r: u64)
    requires
        w & 0xfefe_fefe_fefe_fefeu64 == 0,
    ensures
        forall|j: u64| j < 8 ==> #[trigger] bit64(r, j) == (byte_of(w, (7 - j) as u64) == 1),
        forall|j: u64| 8 <= j < 64 ==> !#[trigger] bit64(r, j),
{
    let r = (w >> 56u64) & 0x01u64 | (w >> 47u64) & 0x02u64 | (w >> 38u64) & 0x04u64 | (w >> 29u64)
        & 0x08u64 | (w >> 20u64) & 0x10u64 | (w >> 11u64) & 0x20u64 | (w >> 2u64) & 0x40u64 | (w
        << 7u64) & 0x80u64;
    proof {
        assert forall|j: u64| j < 64 implies #[trigger] bit64(r, j) == (j < 8 && byte_of(
            w,
            (7 - (j % 8)) as u64,
        ) == 1) by {
            let jj = j % 8;
            let sh = (8 * (7 - jj)) as u64;
            assert((((w >> 56u64) & 0x01u64 | (w >> 47u64) & 0x02u64 | (w >> 38u64) & 0x04u64 | (w
                >> 29u64) & 0x08u64 | (w >> 20u64) & 0x10u64 | (w >> 11u64) & 0x20u64 | (w
                >> 2u64) & 0x40u64 | (w << 7u64) & 0x80u64) >> j) & 1u64 == (if j < 8 && (w >> sh)
                & 0xffu64 == 1u64 {
                1u64
            } else {
                0u64
            })) by (bit_vector)
                requires
                    j < 64,
                    jj == j % 8,
                    sh == 8 * (7 - jj),
                    w & 0xfefe_fefe_fefe_fefeu64 == 0,
            ;
        }
    }
    r
}

/// Compare one loaded vector against a broadcast character: a 32-bit match
/// mask in the low bits.
fn cmp1(b: m256i, b0: m256i) -> (r: u64)
    ensures
        forall|k: u64|
            k < 32 ==> #[trigger] bit64(r, k) == (vec_byte(b, k as int) == vec_byte(b0, k as int)),
        forall|k: u64| 32 <= k < 64 ==> !#[trigger] bit64(r, k),
{
    b.eq(b0).move_mask()
}

/// Compare two loaded vectors against a broadcast character: a full 64-bit
/// match mask.
fn cmp2(b: m256i, b0: m256i, b1: m256i) -> (r: u64)
    ensures
        forall|k: u64|
            k < 32 ==> #[trigger] bit64(r, k) == (vec_byte(b, k as int) == vec_byte(b0, k as int)),
        forall|k: u64|
            32 <= k < 64 ==> #[trigger] bit64(r, k) == (vec_byte(b, (k - 32) as int) == vec_byte(
                b1,
                (k - 32) as int,
            )),
{
    let lo = cmp1(b, b0);
    let hi = cmp1(b, b1);
    let r = lo | hi << 32u64;
    proof {
        assert forall|k: u64| k < 64 implies #[trigger] bit64(r, k) == (if k < 32 {
            bit64(lo, k)
        } else {
            bit64(hi, (k - 32) as u64)
        }) by {
            lemma_bit_ops(lo, hi << 32u64, k);
            lemma_bit_shl(hi, 32u64, k);
        }
    }
    r
}

/// From the two loaded half-windows, one structural character's match mask
/// meets `mask_ok`.
proof fn lemma_mask_from_cmp(m: u64, c: u8, cv: m256i, b0: m256i, b1: m256i, s: Seq<u8>, base: int)
    requires
        c != 0,
        base >= 0,
        forall|k: int| 0 <= k < 32 ==> #[trigger] vec_byte(cv, k) == c as u64,
        window_loaded(b0, s, base),
        window_loaded(b1, s, base + 32),
        forall|k: u64|
            k < 32 ==> #[trigger] bit64(m, k) == (vec_byte(cv, k as int) == vec_byte(b0, k as int)),
        forall|k: u64|
            32 <= k < 64 ==> #[trigger] bit64(m, k) == (vec_byte(cv, (k - 32) as int) == vec_byte(
                b1,
                (k - 32) as int,
            )),
    ensures
        mask_ok(m, s, base, c),
{
    assert forall|k: u64| k < 64 implies #[trigger] bit64(m, k) == (base + k < s.len() && s[base
        + k] == c) by {
        if k < 32 {
            assert(vec_byte(b0, k as int) == (if base + k < s.len() {
                s[base + k] as u64
            } else {
                0u64
            }));
        } else {
            let kk = (k - 32) as int;
            assert(vec_byte(b1, kk) == (if base + 32 + kk < s.len() {
                s[base + 32 + kk] as u64
            } else {
                0u64
            }));
        }
    }
}

/// Build all eight masks from the two loaded half-windows.
fn window_bitmap(s: &[u8], offset: usize, b0: m256i, b1: m256i) -> (b: Bitmap)
    requires
        window_loaded(b0, s@, offset as int),
        window_loaded(b1, s@, offset + 32),
    ensures
        bitmap_ok(b, s@, offset as int),
{
    let backslash = m256i::splat(BACKSLASH);
    let quote = m256i::splat(QUOTE);
    let colon = m256i::splat(COLON);
    let comma = m256i::splat(COMMA);
    let left_brace = m256i::splat(LEFT_BRACE);
    let right_brace = m256i::splat(RIGHT_BRACE);
    let left_bracket = m256i::splat(LEFT_BRACKET);
    let right_bracket = m256i::splat(RIGHT_BRACKET);
    let b = Bitmap {
        backslash: cmp2(backslash, b0, b1),
        quote: cmp2(quote, b0, b1),
        colon: cmp2(colon, b0, b1),
        comma: cmp2(comma, b0, b1),
        left_brace: cmp2(left_brace, b0, b1),
        right_brace: cmp2(right_brace, b0, b1),
        left_bracket: cmp2(left_bracket, b0, b1),
        right_bracket: cmp2(right_bracket, b0, b1),
    };
    proof {
        lemma_mask_from_cmp(b.backslash, BACKSLASH, backslash, b0, b1, s@, offset as int);
        lemma_mask_from_cmp(b.quote, QUOTE, quote, b0, b1, s@, offset as int);
        lemma_mask_from_cmp(b.colon, COLON, colon, b0, b1, s@, offset as int);
        lemma_mask_from_cmp(b.comma, COMMA, comma, b0, b1, s@, offset as int);
        lemma_mask_from_cmp(b.left_brace, LEFT_BRACE, left_brace, b0, b1, s@, offset as int);
        lemma_mask_from_cmp(b.right_brace, RIGHT_BRACE, right_brace, b0, b1, s@, offset as int);
        lemma_mask_from_cmp(b.left_bracket, LEFT_BRACKET, left_bracket, b0, b1, s@, offset as int);
        lemma_mask_from_cmp(
            b.right_bracket,
            RIGHT_BRACKET,
            right_bracket,
            b0,
            b1,
            s@,
            offset as int,
        );
    }
    b
}

/// The portable backend: SWAR comparisons on four words per half-window.
#[derive(Debug, Default)]
pub struct FallbackBackend;

impl Backend for FallbackBackend {
    fn create_full_bitmap(&self, s: &[u8], offset: usize) -> (b: Bitmap) {
        let n = s.len();
        assert(offset + 64 <= n);
        let b0 = m256i::load(s, offset);
        let b1 = m256i::load(s, offset + 32);
        window_bitmap(s, offset, b0, b1)
    }

    fn create_partial_bitmap(&self, s: &[u8], offset: usize) -> (b: Bitmap) {
        let rem = s.len() - offset;
        let b0 = if rem >= 32 {
            m256i::load(s, offset)
        } else {
            m256i::load_partial(s, offset)
        };
        let b1 = if rem > 32 {
            m256i::load_partial(s, offset + 32)
        } else {
            let z = m256i::splat(0u8);
            proof {
                assert(window_loaded(z, s@, offset + 32));
            }
            z
        };
        window_bitmap(s, offset, b0, b1)
    }
}

} // verus!
