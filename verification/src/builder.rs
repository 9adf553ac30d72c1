//! The index builder: four bit-level passes that turn raw record bytes into
//! a `StructuralIndex`.

use vstd::prelude::*;
use vstd::arithmetic::div_mod::lemma_fundamental_div_mod;

use crate::backend::{bitmap_ok, mask_ok, Backend, Bitmap};
use crate::bit::{bit64, lemma_bit_ops, lemma_bit_shl, lemma_bit_shr, lemma_single_bit, run_ones,
    tz64, E, R, S};
use crate::errors::Error;
use crate::model::{bs_run, chunk_count, cleared_upto, close_clears, colon_at_level,
    comma_at_level, delim_stack, delims_balanced, esc_mark, escaped, in_string, is_char,
    is_close_delim, is_open_delim, lemma_bs_run_le, lemma_cleared_upto_all, lemma_sq_count_le,
    lemma_sq_count_mono, lemma_sq_count_same, lemma_stack_none, lemma_stack_skip, sq_count,
    stack_ok, struct_char, struct_quote, the_stack, BACKSLASH, COLON, COMMA, LEFT_BRACE,
    LEFT_BRACKET, QUOTE, RIGHT_BRACE, RIGHT_BRACKET};

verus! {

/// Every chunk's bitmap reports exactly the bytes of its window.
pub open spec fn raw_exact(bms: Seq<Bitmap>, s: Seq<u8>) -> bool {
    forall|w: int| 0 <= w < bms.len() ==> bitmap_ok(#[trigger] bms[w], s, 64 * w)
}

/// The two bitmaps agree on every field but `quote`.
pub open spec fn same_except_quote(a: Bitmap, b: Bitmap) -> bool {
    &&& a.backslash == b.backslash
    &&& a.colon == b.colon
    &&& a.comma == b.comma
    &&& a.left_brace == b.left_brace
    &&& a.right_brace == b.right_brace
    &&& a.left_bracket == b.left_bracket
    &&& a.right_bracket == b.right_bracket
}

/// The quote bitmaps keep exactly the structural quotes.
pub open spec fn quotes_structural(bms: Seq<Bitmap>, s: Seq<u8>) -> bool {
    forall|w: int, k: u64|
        0 <= w < bms.len() && k < 64 ==> #[trigger] bit64(bms[w].quote, k) == struct_quote(
            s,
            64 * w + k,
        )
}

/// Arithmetic facts about how many chunks cover `n` bytes.
pub proof fn lemma_chunk_count(n: int)
    requires
        n >= 0,
    ensures
        chunk_count(n) >= 0,
        64 * chunk_count(n) >= n,
        n > 0 ==> chunk_count(n) >= 1 && 64 * (chunk_count(n) - 1) < n,
        n % 64 == 0 ==> chunk_count(n) == n / 64,
        n % 64 != 0 ==> chunk_count(n) == n / 64 + 1,
{
    lemma_fundamental_div_mod(n + 63, 64);
    lemma_fundamental_div_mod(n, 64);
}

/// Pass 1: fill one bitmap per 64-byte chunk, a full window for every chunk
/// but possibly the last.
fn build_structural_character_bitmaps<B: Backend>(
    bitmaps: &mut Vec<Bitmap>,
    s: &[u8],
    backend: &B,
)
    requires
        old(bitmaps)@.len() == 0,
    ensures
        final(bitmaps)@.len() == chunk_count(s@.len() as int),
        raw_exact(final(bitmaps)@, s@),
{
    let n = s.len();
    proof {
        lemma_chunk_count(n as int);
        lemma_fundamental_div_mod(n as int, 64);
    }
    let full = n / 64;
    let mut i: usize = 0;
    while i < full
        invariant
            i <= full,
            full == n / 64,
            n == s@.len(),
            64 * full <= n,
            bitmaps@.len() == i,
            forall|w: int| 0 <= w < i ==> bitmap_ok(#[trigger] bitmaps@[w], s@, 64 * w),
        decreases full - i,
    {
        proof {
            assert(64 * (i + 1) <= 64 * full);
        }
        bitmaps.push(backend.create_full_bitmap(s, i * 64));
        i = i + 1;
    }
    if n % 64 != 0 {
        proof {
            lemma_fundamental_div_mod(n as int, 64);
        }
        bitmaps.push(backend.create_partial_bitmap(s, full * 64));
    }
    proof {
        lemma_chunk_count(n as int);
    }
}

/// The run of set bits ending at bit `pos - 1` of one backslash bitmap is
/// the backslash run of the record ending there; a full run continues into
/// the previous chunk.
proof fn lemma_run_to_bs_run(s: Seq<u8>, x: u64, j: int, pos: int)
    requires
        0 <= j,
        0 <= pos <= 64,
        mask_ok(x, s, 64 * j, BACKSLASH),
    ensures
        run_ones(x, pos) <= pos,
        run_ones(x, pos) < pos ==> bs_run(s, 64 * j + pos) == run_ones(x, pos),
        run_ones(x, pos) == pos ==> bs_run(s, 64 * j + pos) == pos + bs_run(s, 64 * j),
    decreases pos,
{
    if pos > 0 {
        let p = 64 * j + pos;
        assert(bit64(x, (pos - 1) as u64) == (64 * j + (pos - 1) < s.len() && s[64 * j + (pos - 1)]
            == BACKSLASH));
        lemma_run_to_bs_run(s, x, j, pos - 1);
        if bit64(x, (pos - 1) as u64) {
            assert(bs_run(s, p) == 1 + bs_run(s, p - 1));
        } else {
            assert(bs_run(s, p) == 0);
        }
    }
}

/// Count the backslash run that ends at bit `pos - 1` of chunk `upto - 1`,
/// following it backward across chunks.
fn consecutive_ones(
    bitmaps: &Vec<Bitmap>,
    upto: usize,
    pos: u32,
    Ghost(s): Ghost<Seq<u8>>,
) -> (r: u64)
    requires
        1 <= upto <= bitmaps@.len(),
        1 <= pos <= 64,
        s.len() <= 0xffff_ffff_ffff_ffff,
        forall|w: int|
            0 <= w < upto ==> mask_ok(#[trigger] bitmaps@[w].backslash, s, 64 * w, BACKSLASH),
    ensures
        r == bs_run(s, 64 * (upto - 1) + pos),
{
    let ghost target = 64 * (upto - 1) + pos as int;
    let ones0 = crate::bit::leading_ones(bitmaps[upto - 1].backslash, pos);
    proof {
        lemma_run_to_bs_run(s, bitmaps@[upto - 1].backslash, upto - 1, pos as int);
    }
    if ones0 < pos {
        return ones0 as u64;
    }
    let mut total: u64 = pos as u64;
    let mut j: usize = upto - 1;
    proof {
        lemma_bs_run_le(s, target);
    }
    while j > 0
        invariant
            j < upto <= bitmaps@.len(),
            s.len() <= 0xffff_ffff_ffff_ffff,
            forall|w: int|
                0 <= w < upto ==> mask_ok(#[trigger] bitmaps@[w].backslash, s, 64 * w, BACKSLASH),
            bs_run(s, target) == total + bs_run(s, 64 * j),
            bs_run(s, target) <= s.len(),
            target == 64 * (upto - 1) + pos as int,
        decreases j,
    {
        let l = crate::bit::leading_ones(bitmaps[j - 1].backslash, 64);
        proof {
            lemma_run_to_bs_run(s, bitmaps@[j - 1].backslash, j - 1, 64);
            lemma_bs_run_le(s, 64 * (j as int));
            assert(64 * (j - 1) + 64 == 64 * (j as int));
        }
        if l < 64 {
            return total + l as u64;
        }
        total = total + 64;
        j = j - 1;
    }
    total
}

/// Pass 2: clear every escaped quote — one preceded by an odd-length
/// backslash run — from the quote bitmaps, leaving the structural quotes.
fn remove_unstructural_quotes(bitmaps: &mut Vec<Bitmap>, Ghost(s): Ghost<Seq<u8>>)
    requires
        old(bitmaps)@.len() == chunk_count(s.len() as int),
        s.len() <= 0xffff_ffff_ffff_ffff,
        raw_exact(old(bitmaps)@, s),
    ensures
        final(bitmaps)@.len() == old(bitmaps)@.len(),
        forall|w: int|
            0 <= w < final(bitmaps)@.len() ==> same_except_quote(
                #[trigger] final(bitmaps)@[w],
                old(bitmaps)@[w],
            ),
        quotes_structural(final(bitmaps)@, s),
{
    let n_chunks = bitmaps.len();
    let mut uu: u64 = 0;
    let mut i: usize = 0;
    proof {
        lemma_chunk_count(s.len() as int);
        assert forall|t: u64| t < 64 implies !bit64(0u64, t) by {
            crate::bit::lemma_zero_word(t);
        }
    }
    while i < n_chunks
        invariant
            i <= n_chunks,
            n_chunks == bitmaps@.len(),
            bitmaps@.len() == old(bitmaps)@.len(),
            bitmaps@.len() == chunk_count(s.len() as int),
            s.len() <= 0xffff_ffff_ffff_ffff,
            64 * chunk_count(s.len() as int) >= s.len(),
            raw_exact(old(bitmaps)@, s),
            forall|w: int|
                0 <= w < bitmaps@.len() ==> same_except_quote(
                    #[trigger] bitmaps@[w],
                    old(bitmaps)@[w],
                ),
            forall|w: int|
                i <= w < bitmaps@.len() ==> #[trigger] bitmaps@[w].quote == old(
                    bitmaps,
                )@[w].quote,
            forall|w: int, k: u64|
                0 <= w < i && k < 64 ==> #[trigger] bit64(bitmaps@[w].quote, k) == struct_quote(
                    s,
                    64 * w + k,
                ),
            forall|t: u64|
                t < 64 ==> #[trigger] bit64(uu, t) == (i > 0 && esc_mark(s, 64 * (i - 1) + t)),
        decreases n_chunks - i,
    {
        let ghost base = 64 * (i as int);
        let q1 = bitmaps[i].quote;
        let q2 = if i + 1 == n_chunks {
            0u64
        } else {
            bitmaps[i + 1].quote
        };
        let bs = bitmaps[i].backslash;
        let bsq = (q1 >> 1u64 | q2 << 63u64) & bs;
        proof {
            assert(bitmap_ok(old(bitmaps)@[i as int], s, base));
            assert forall|t: u64| t < 64 implies #[trigger] bit64(bsq, t) == (is_char(
                s,
                base + t,
                BACKSLASH,
            ) && is_char(s, base + t + 1, QUOTE)) by {
                lemma_bit_ops(q1 >> 1u64 | q2 << 63u64, bs, t);
                lemma_bit_ops(q1 >> 1u64, q2 << 63u64, t);
                lemma_bit_shr(q1, 1u64, t);
                lemma_bit_shl(q2, 63u64, t);
                if t == 63 {
                    if i + 1 == n_chunks {
                        crate::bit::lemma_zero_word(0u64);
                        assert(64 * (i + 1) >= 64 * chunk_count(s.len() as int));
                        assert(base + t + 1 >= s.len());
                    } else {
                        assert(bitmap_ok(old(bitmaps)@[i + 1], s, 64 * (i + 1)));
                        assert(bit64(q2, 0u64) == is_char(s, 64 * (i + 1), QUOTE));
                    }
                }
            }
        }
        let ghost bsq0 = bsq;
        let mut bsq_cur = bsq;
        let mut u: u64 = 0;
        proof {
            assert forall|t: u64| t < 64 implies !bit64(0u64, t) by {
                crate::bit::lemma_zero_word(t);
            }
            assert forall|w: int|
                0 <= w < bitmaps@.len() implies mask_ok(
                #[trigger] bitmaps@[w].backslash,
                s,
                64 * w,
                BACKSLASH,
            ) by {
                assert(bitmap_ok(old(bitmaps)@[w], s, 64 * w));
            }
        }
        while bsq_cur != 0
            invariant
                i < n_chunks,
                n_chunks == bitmaps@.len(),
                s.len() <= 0xffff_ffff_ffff_ffff,
                base == 64 * (i as int),
                forall|w: int|
                    0 <= w < bitmaps@.len() ==> mask_ok(
                        #[trigger] bitmaps@[w].backslash,
                        s,
                        64 * w,
                        BACKSLASH,
                    ),
                forall|t: u64|
                    t < 64 ==> #[trigger] bit64(bsq0, t) == (is_char(s, base + t, BACKSLASH)
                        && is_char(s, base + t + 1, QUOTE)),
                forall|t: u64| t < 64 ==> #[trigger] bit64(bsq_cur, t) ==> bit64(bsq0, t),
                forall|t: u64|
                    t < 64 ==> #[trigger] bit64(u, t) == (bit64(bsq0, t) && !bit64(bsq_cur, t)
                        && esc_mark(s, base + t)),
            decreases bsq_cur,
        {
            let target = E(bsq_cur);
            let t32 = target.trailing_zeros();
            let ghost t = tz64(bsq_cur);
            proof {
                crate::bit::lemma_tz(bsq_cur);
                assert forall|k: u64| k < 64 implies bit64(target, k) == (k == t) by {
                    lemma_single_bit(t, k);
                }
                crate::bit::lemma_tz(target);
                assert(bit64(target, t));
                assert(tz64(target) < 64);
                assert(bit64(target, tz64(target)));
                assert(t32 == t);
            }
            let pos = t32 + 1;
            let co = consecutive_ones(bitmaps, i + 1, pos, Ghost(s));
            proof {
                assert(64 * (i as int) + pos as int == base + t + 1);
            }
            if co % 2 == 1 {
                let u2 = u | target;
                proof {
                    assert forall|k: u64| k < 64 implies #[trigger] bit64(u2, k) == (bit64(u, k)
                        || k == t) by {
                        lemma_bit_ops(u, target, k);
                        lemma_single_bit(t, k);
                    }
                    assert(esc_mark(s, base + t));
                }
                u = u2;
            } else {
                proof {
                    assert(!esc_mark(s, base + t));
                }
            }
            let next = R(bsq_cur);
            proof {
                assert forall|k: u64| k < 64 implies #[trigger] bit64(next, k) == (bit64(
                    bsq_cur,
                    k,
                ) && k != t) by {}
            }
            bsq_cur = next;
        }
        proof {
            assert forall|t: u64| t < 64 implies #[trigger] bit64(u, t) == esc_mark(
                s,
                base + t,
            ) by {
                if esc_mark(s, base + t) {
                    assert(bit64(bsq0, t));
                }
            }
        }
        // `u` now marks every escaping backslash of this chunk; clear the
        // quotes that follow one, the carry `uu` covering the chunk edge.
        let m = !(uu >> 63u64 | u << 1u64);
        let mut b = bitmaps[i];
        let new_quote = b.quote & m;
        proof {
            assert forall|k: u64| k < 64 implies #[trigger] bit64(new_quote, k) == struct_quote(
                s,
                base + k,
            ) by {
                lemma_bit_ops(q1, m, k);
                lemma_bit_ops(uu >> 63u64 | u << 1u64, 0u64, k);
                lemma_bit_ops(uu >> 63u64, u << 1u64, k);
                lemma_bit_shr(uu, 63u64, k);
                lemma_bit_shl(u, 1u64, k);
                assert(bit64(m, k) == !(bit64(uu >> 63u64, k) || bit64(u << 1u64, k)));
                assert(q1 == old(bitmaps)@[i as int].quote);
                assert(bit64(q1, k) == is_char(s, base + k, QUOTE));
                let p = base + k;
                if is_char(s, p, QUOTE) {
                    if escaped(s, p) {
                        assert(bs_run(s, p) % 2 == 1);
                        assert(bs_run(s, p) != 0);
                        assert(p >= 1 && p <= s.len() && s[p - 1] == BACKSLASH);
                        assert(is_char(s, p - 1, BACKSLASH));
                        assert(bs_run(s, p) % 2 == 1);
                        assert(esc_mark(s, p - 1));
                    }
                    if k == 0 {
                        // the escaping backslash, if any, is bit 63 of the
                        // previous chunk
                        if i > 0 {
                            assert(64 * (i - 1) + 63 == p - 1);
                        } else {
                            assert(bs_run(s, 0) == 0);
                        }
                    } else {
                        if esc_mark(s, p - 1) {
                            assert(escaped(s, p));
                        }
                    }
                }
            }
        }
        b.quote = new_quote;
        bitmaps[i] = b;
        uu = u;
        i = i + 1;
        proof {
            assert forall|w: int, k: u64|
                0 <= w < i && k < 64 implies #[trigger] bit64(bitmaps@[w].quote, k)
                == struct_quote(s, 64 * w + k) by {}
        }
    }
}

/// Each non-quote structural field of every chunk reports exactly the raw
/// occurrences of its character.
pub open spec fn fields_raw(bms: Seq<Bitmap>, s: Seq<u8>) -> bool {
    &&& forall|w: int|
        0 <= w < bms.len() ==> mask_ok(#[trigger] bms[w].colon, s, 64 * w, COLON)
    &&& forall|w: int|
        0 <= w < bms.len() ==> mask_ok(#[trigger] bms[w].comma, s, 64 * w, COMMA)
    &&& forall|w: int|
        0 <= w < bms.len() ==> mask_ok(#[trigger] bms[w].left_brace, s, 64 * w, LEFT_BRACE)
    &&& forall|w: int|
        0 <= w < bms.len() ==> mask_ok(#[trigger] bms[w].right_brace, s, 64 * w, RIGHT_BRACE)
    &&& forall|w: int|
        0 <= w < bms.len() ==> mask_ok(#[trigger] bms[w].left_bracket, s, 64 * w, LEFT_BRACKET)
    &&& forall|w: int|
        0 <= w < bms.len() ==> mask_ok(#[trigger] bms[w].right_bracket, s, 64 * w, RIGHT_BRACKET)
}

/// Each non-quote structural field keeps exactly the structural occurrences
/// of its character: raw occurrences outside every string literal.
pub open spec fn fields_cleaned(bms: Seq<Bitmap>, s: Seq<u8>) -> bool {
    &&& forall|w: int, k: u64|
        0 <= w < bms.len() && k < 64 ==> #[trigger] bit64(bms[w].colon, k) == struct_char(
            s,
            64 * w + k,
            COLON,
        )
    &&& forall|w: int, k: u64|
        0 <= w < bms.len() && k < 64 ==> #[trigger] bit64(bms[w].comma, k) == struct_char(
            s,
            64 * w + k,
            COMMA,
        )
    &&& forall|w: int, k: u64|
        0 <= w < bms.len() && k < 64 ==> #[trigger] bit64(bms[w].left_brace, k) == struct_char(
            s,
            64 * w + k,
            LEFT_BRACE,
        )
    &&& forall|w: int, k: u64|
        0 <= w < bms.len() && k < 64 ==> #[trigger] bit64(bms[w].right_brace, k) == struct_char(
            s,
            64 * w + k,
            RIGHT_BRACE,
        )
    &&& forall|w: int, k: u64|
        0 <= w < bms.len() && k < 64 ==> #[trigger] bit64(bms[w].left_bracket, k) == struct_char(
            s,
            64 * w + k,
            LEFT_BRACKET,
        )
    &&& forall|w: int, k: u64|
        0 <= w < bms.len() && k < 64 ==> #[trigger] bit64(bms[w].right_bracket, k)
            == struct_char(s, 64 * w + k, RIGHT_BRACKET)
}

/// A count and its successor have different parities.
proof fn lemma_parity_succ(a: int)
    requires
        a >= 0,
    ensures
        (a + 1) % 2 != a % 2,
{
    assert((a + 1) % 2 != a % 2) by (nonlinear_arith)
        requires
            a >= 0,
    ;
}

/// Parity of a difference of counts, against the parities of the counts.
proof fn lemma_parity_sub(a: int, b: int)
    requires
        0 <= b <= a,
    ensures
        ((a - b) % 2 == 1) == (a % 2 != b % 2),
{
    let d = a - b;
    assert(((d % 2) == 1) == ((d + b) % 2 != b % 2)) by (nonlinear_arith)
        requires
            d >= 0,
            b >= 0,
    ;
}

/// Pass 3: build the string mask of each chunk from its structural quotes
/// and clear every masked bit from the six non-quote structural fields.
#[verifier::spinoff_prover]
#[verifier::rlimit(60)]
fn remove_unstructural_characters(bitmaps: &mut Vec<Bitmap>, Ghost(s): Ghost<Seq<u8>>)
    requires
        old(bitmaps)@.len() == chunk_count(s.len() as int),
        s.len() <= 0xffff_ffff_ffff_ffff,
        quotes_structural(old(bitmaps)@, s),
        fields_raw(old(bitmaps)@, s),
    ensures
        final(bitmaps)@.len() == old(bitmaps)@.len(),
        forall|w: int|
            0 <= w < final(bitmaps)@.len() ==> #[trigger] final(bitmaps)@[w].quote == old(
                bitmaps,
            )@[w].quote && final(bitmaps)@[w].backslash == old(bitmaps)@[w].backslash,
        quotes_structural(final(bitmaps)@, s),
        fields_cleaned(final(bitmaps)@, s),
{
    let n_chunks = bitmaps.len();
    let mut n: u64 = 0;
    let mut i: usize = 0;
    proof {
        assert forall|t: u64| t < 64 implies !bit64(0u64, t) by {
            crate::bit::lemma_zero_word(t);
        }
        lemma_sq_count_le(s, 0);
    }
    while i < n_chunks
        invariant
            i <= n_chunks,
            n_chunks == bitmaps@.len(),
            bitmaps@.len() == old(bitmaps)@.len(),
            s.len() <= 0xffff_ffff_ffff_ffff,
            quotes_structural(old(bitmaps)@, s),
            fields_raw(old(bitmaps)@, s),
            n == sq_count(s, 64 * (i as int)),
            forall|w: int|
                0 <= w < bitmaps@.len() ==> #[trigger] bitmaps@[w].quote == old(bitmaps)@[w].quote
                    && bitmaps@[w].backslash == old(bitmaps)@[w].backslash,
            forall|w: int|
                i <= w < bitmaps@.len() ==> #[trigger] bitmaps@[w] == old(bitmaps)@[w],
            forall|w: int, k: u64|
                0 <= w < i && k < 64 ==> #[trigger] bit64(bitmaps@[w].colon, k) == struct_char(
                    s,
                    64 * w + k,
                    COLON,
                ),
            forall|w: int, k: u64|
                0 <= w < i && k < 64 ==> #[trigger] bit64(bitmaps@[w].comma, k) == struct_char(
                    s,
                    64 * w + k,
                    COMMA,
                ),
            forall|w: int, k: u64|
                0 <= w < i && k < 64 ==> #[trigger] bit64(bitmaps@[w].left_brace, k)
                    == struct_char(s, 64 * w + k, LEFT_BRACE),
            forall|w: int, k: u64|
                0 <= w < i && k < 64 ==> #[trigger] bit64(bitmaps@[w].right_brace, k)
                    == struct_char(s, 64 * w + k, RIGHT_BRACE),
            forall|w: int, k: u64|
                0 <= w < i && k < 64 ==> #[trigger] bit64(bitmaps@[w].left_bracket, k)
                    == struct_char(s, 64 * w + k, LEFT_BRACKET),
            forall|w: int, k: u64|
                0 <= w < i && k < 64 ==> #[trigger] bit64(bitmaps@[w].right_bracket, k)
                    == struct_char(s, 64 * w + k, RIGHT_BRACKET),
        decreases n_chunks - i,
    {
        let ghost base = 64 * (i as int);
        let b = bitmaps[i];
        let ghost mq0 = b.quote;
        let mut m_quote = b.quote;
        let mut m_string: u64 = 0;
        let ghost mut theta: int = 0;
        proof {
            assert forall|t: u64| t < 64 implies #[trigger] bit64(mq0, t) == struct_quote(
                s,
                base + t,
            ) by {
                assert(bit64(old(bitmaps)@[i as int].quote, t) == struct_quote(s, 64 * (
                i as int) + t));
            }
            assert forall|t: u64| t < 64 implies !bit64(0u64, t) by {
                crate::bit::lemma_zero_word(t);
            }
        }
        while m_quote != 0
            invariant
                0 <= theta <= 64,
                base >= 0,
                s.len() <= 0xffff_ffff_ffff_ffff,
                forall|t: u64| t < 64 ==> #[trigger] bit64(mq0, t) == struct_quote(s, base + t),
                forall|t: u64|
                    t < 64 ==> #[trigger] bit64(m_quote, t) == (bit64(mq0, t) && t >= theta),
                n == sq_count(s, base + theta),
                forall|t: u64|
                    t < 64 ==> #[trigger] bit64(m_string, t) == (t < theta && (sq_count(
                        s,
                        base + theta,
                    ) - sq_count(s, base + t)) % 2 == 1),
            decreases m_quote,
        {
            let smear = S(m_quote);
            let next_quote = R(m_quote);
            let ghost q = tz64(m_quote);
            let new_string = m_string ^ smear;
            proof {
                crate::bit::lemma_tz(m_quote);
                assert(bit64(m_quote, q));
                assert(q >= theta);
                assert(struct_quote(s, base + q));
                assert forall|p: int| base + theta <= p < base + q implies !struct_quote(
                    s,
                    p,
                ) by {
                    let t = (p - base) as u64;
                    assert(!bit64(m_quote, t));
                    assert(t >= theta);
                }
                lemma_sq_count_same(s, base + theta, base + q);
                assert(sq_count(s, base + q + 1) == sq_count(s, base + q) + 1);
                lemma_sq_count_le(s, base + q + 1);
                assert forall|t: u64|
                    t < 64 implies #[trigger] bit64(new_string, t) == (t < q + 1 && (sq_count(
                    s,
                    base + q + 1,
                ) - sq_count(s, base + t)) % 2 == 1) by {
                    lemma_bit_ops(m_string, smear, t);
                    if t < theta {
                        lemma_sq_count_mono(s, base + t, base + theta);
                        lemma_parity_sub(
                            sq_count(s, base + theta) as int,
                            sq_count(s, base + t) as int,
                        );
                        lemma_parity_sub(
                            sq_count(s, base + q + 1) as int,
                            sq_count(s, base + t) as int,
                        );
                        lemma_parity_succ(sq_count(s, base + theta) as int);
                    } else if t <= q {
                        assert forall|p: int| base + t <= p < base + q implies !struct_quote(
                            s,
                            p,
                        ) by {
                            let tt = (p - base) as u64;
                            assert(!bit64(m_quote, tt));
                        }
                        lemma_sq_count_same(s, base + t, base + q);
                    }
                }
                theta = q + 1;
            }
            m_string = new_string;
            m_quote = next_quote;
            proof {
                assert forall|t: u64|
                    t < 64 implies #[trigger] bit64(m_quote, t) == (bit64(mq0, t) && t
                    >= theta) by {}
            }
            n = n + 1;
        }
        proof {
            assert forall|p: int| base + theta <= p < base + 64 implies !struct_quote(s, p) by {
                let t = (p - base) as u64;
                assert(!bit64(m_quote, t));
            }
            lemma_sq_count_same(s, base + theta, base + 64);
            assert forall|t: u64|
                t < 64 implies #[trigger] bit64(m_string, t) == ((sq_count(s, base + 64)
                - sq_count(s, base + t)) % 2 == 1) by {
                if t >= theta {
                    assert forall|p: int| base + t <= p < base + 64 implies !struct_quote(
                        s,
                        p,
                    ) by {
                        let tt = (p - base) as u64;
                        assert(!bit64(m_quote, tt));
                    }
                    lemma_sq_count_same(s, base + t, base + 64);
                }
            }
            lemma_sq_count_le(s, base + 64);
        }
        if n % 2 == 1 {
            let flipped = !m_string;
            proof {
                assert forall|t: u64| t < 64 implies #[trigger] bit64(flipped, t) == in_string(
                    s,
                    base + t,
                ) by {
                    lemma_bit_ops(m_string, m_string, t);
                    lemma_sq_count_mono(s, base + t, base + 64);
                    lemma_parity_sub(
                        sq_count(s, base + 64) as int,
                        sq_count(s, base + t) as int,
                    );
                }
            }
            m_string = flipped;
        } else {
            proof {
                assert forall|t: u64| t < 64 implies #[trigger] bit64(m_string, t) == in_string(
                    s,
                    base + t,
                ) by {
                    lemma_sq_count_mono(s, base + t, base + 64);
                    lemma_parity_sub(
                        sq_count(s, base + 64) as int,
                        sq_count(s, base + t) as int,
                    );
                }
            }
        }
        let keep = !m_string;
        let mut nb = b;
        nb.colon = b.colon & keep;
        nb.comma = b.comma & keep;
        nb.left_brace = b.left_brace & keep;
        nb.right_brace = b.right_brace & keep;
        nb.left_bracket = b.left_bracket & keep;
        nb.right_bracket = b.right_bracket & keep;
        proof {
            assert(b == old(bitmaps)@[i as int]);
            assert forall|k: u64| k < 64 implies #[trigger] bit64(nb.colon, k) == struct_char(
                s,
                base + k,
                COLON,
            ) by {
                lemma_bit_ops(b.colon, keep, k);
                lemma_bit_ops(m_string, m_string, k);
                assert(bit64(b.colon, k) == (base + k < s.len() && s[base + k] == COLON));
            }
            assert forall|k: u64| k < 64 implies #[trigger] bit64(nb.comma, k) == struct_char(
                s,
                base + k,
                COMMA,
            ) by {
                lemma_bit_ops(b.comma, keep, k);
                lemma_bit_ops(m_string, m_string, k);
                assert(bit64(b.comma, k) == (base + k < s.len() && s[base + k] == COMMA));
            }
            assert forall|k: u64| k < 64 implies #[trigger] bit64(nb.left_brace, k)
                == struct_char(s, base + k, LEFT_BRACE) by {
                lemma_bit_ops(b.left_brace, keep, k);
                lemma_bit_ops(m_string, m_string, k);
                assert(bit64(b.left_brace, k) == (base + k < s.len() && s[base + k]
                    == LEFT_BRACE));
            }
            assert forall|k: u64| k < 64 implies #[trigger] bit64(nb.right_brace, k)
                == struct_char(s, base + k, RIGHT_BRACE) by {
                lemma_bit_ops(b.right_brace, keep, k);
                lemma_bit_ops(m_string, m_string, k);
                assert(bit64(b.right_brace, k) == (base + k < s.len() && s[base + k]
                    == RIGHT_BRACE));
            }
            assert forall|k: u64| k < 64 implies #[trigger] bit64(nb.left_bracket, k)
                == struct_char(s, base + k, LEFT_BRACKET) by {
                lemma_bit_ops(b.left_bracket, keep, k);
                lemma_bit_ops(m_string, m_string, k);
                assert(bit64(b.left_bracket, k) == (base + k < s.len() && s[base + k]
                    == LEFT_BRACKET));
            }
            assert forall|k: u64| k < 64 implies #[trigger] bit64(nb.right_bracket, k)
                == struct_char(s, base + k, RIGHT_BRACKET) by {
                lemma_bit_ops(b.right_bracket, keep, k);
                lemma_bit_ops(m_string, m_string, k);
                assert(bit64(b.right_bracket, k) == (base + k < s.len() && s[base + k]
                    == RIGHT_BRACKET));
            }
        }
        bitmaps[i] = nb;
        proof {
            assert(bitmaps@[i as int].quote == old(bitmaps)@[i as int].quote);
            assert(bitmaps@[i as int].backslash == old(bitmaps)@[i as int].backslash);
        }
        i = i + 1;
        proof {
            assert(64 * (i as int) == base + 64);
        }
    }
}

/// Of two one-bit words, the one with the lower bit index is the smaller.
proof fn lemma_single_lt(a: u64, b: u64)
    requires
        a < 64,
        b < 64,
    ensures
        ((1u64 << a) < (1u64 << b)) == (a < b),
{
    assert(((1u64 << a) < (1u64 << b)) == (a < b)) by (bit_vector)
        requires
            a < 64u64,
            b < 64u64,
    ;
}

/// The difference of two one-bit words masks the bit range between them.
proof fn lemma_range_mask(a: u64, b: u64, k: u64)
    requires
        a < b < 64,
        k < 64,
    ensures
        (1u64 << a) <= (1u64 << b),
        bit64((((1u64 << b) - (1u64 << a)) as u64), k) == (a <= k < b),
{
    assert((1u64 << a) <= (1u64 << b) && (((((1u64 << b) - (1u64 << a)) as u64) >> k) & 1u64
        == 1u64) == (a <= k && k < b)) by (bit_vector)
        requires
            a < b < 64u64,
            k < 64u64,
    ;
}

/// One below a one-bit word masks every bit under it.
proof fn lemma_low_mask(a: u64, k: u64)
    requires
        a < 64,
        k < 64,
    ensures
        bit64((((1u64 << a) - 1) as u64), k) == (k < a),
{
    assert((((((1u64 << a) - 1) as u64) >> k) & 1u64 == 1u64) == (k < a)) by (bit_vector)
        requires
            a < 64u64,
            k < 64u64,
    ;
}

/// A one-bit word meets another word exactly when that word has the bit.
proof fn lemma_single_and(w: u64, t: u64)
    requires
        t < 64,
    ensures
        (((1u64 << t) & w) != 0) == bit64(w, t),
{
    assert((((1u64 << t) & w) != 0) == ((w >> t) & 1u64 == 1u64)) by (bit_vector)
        requires
            t < 64u64,
    ;
}

/// Mask one word of one level row, leaving every other row and word as it
/// was.
fn clear_word(rows: &mut Vec<Vec<u64>>, l: usize, w: usize, mask: u64)
    requires
        l < old(rows)@.len(),
        w < old(rows)@[l as int]@.len(),
    ensures
        final(rows)@.len() == old(rows)@.len(),
        forall|l2: int|
            0 <= l2 < old(rows)@.len() && l2 != l ==> #[trigger] final(rows)@[l2] == old(
                rows,
            )@[l2],
        final(rows)@[l as int]@.len() == old(rows)@[l as int]@.len(),
        forall|w2: int|
            0 <= w2 < old(rows)@[l as int]@.len() && w2 != w ==> #[trigger] final(rows)@[
                l as int]@[w2] == old(rows)@[l as int]@[w2],
        final(rows)@[l as int]@[w as int] == old(rows)@[l as int]@[w as int] & mask,
{
    let v = rows[l][w] & mask;
    rows[l][w] = v;
}

/// The exec scan stack mirrors the model stack: entry by entry, the chunk
/// and one-bit mask encode the model position.
pub open spec fn stack_matches(
    stack: Seq<(usize, u64, bool)>,
    mst: Seq<(int, bool)>,
    n_chunks: int,
    cur: int,
) -> bool {
    &&& stack.len() == mst.len()
    &&& forall|idx: int|
        0 <= idx < stack.len() ==> {
            &&& (#[trigger] mst[idx]).0 == 64 * stack[idx].0 + tz64(stack[idx].1)
            &&& mst[idx].1 == stack[idx].2
            &&& stack[idx].1 != 0
            &&& tz64(stack[idx].1) < 64
            &&& stack[idx].1 == 1u64 << tz64(stack[idx].1)
            &&& stack[idx].0 < n_chunks
            &&& mst[idx].0 < cur
        }
}

/// The leveled bitmaps as they stand once every close before `cur` has been
/// carved out.
pub open spec fn levels_partial(
    b_colon: Seq<Vec<u64>>,
    b_comma: Seq<Vec<u64>>,
    s: Seq<u8>,
    level: int,
    n_chunks: int,
    cur: int,
) -> bool {
    &&& b_colon.len() == level
    &&& b_comma.len() == level
    &&& forall|l: int| 0 <= l < level ==> (#[trigger] b_colon[l])@.len() == n_chunks
    &&& forall|l: int| 0 <= l < level ==> (#[trigger] b_comma[l])@.len() == n_chunks
    &&& forall|l: int, w: int, k: u64|
        0 <= l < level && 0 <= w < n_chunks && k < 64 ==> #[trigger] bit64(b_colon[l]@[w], k) == (
        struct_char(s, 64 * w + k, COLON) && !cleared_upto(s, l, 64 * w + k, cur))
    &&& forall|l: int, w: int, k: u64|
        0 <= l < level && 0 <= w < n_chunks && k < 64 ==> #[trigger] bit64(b_comma[l]@[w], k) == (
        struct_char(s, 64 * w + k, COMMA) && !cleared_upto(s, l, 64 * w + k, cur))
}

/// Every bit of an open (close) mask is an open (close) delimiter of the
/// chunk at or past the scan position.
pub open spec fn open_mask_ok(m: u64, s: Seq<u8>, base: int, cur: int) -> bool {
    forall|k: u64|
        k < 64 ==> #[trigger] bit64(m, k) == (is_open_delim(s, base + k) && base + k >= cur)
}

pub open spec fn close_mask_ok(m: u64, s: Seq<u8>, base: int, cur: int) -> bool {
    forall|k: u64|
        k < 64 ==> #[trigger] bit64(m, k) == (is_close_delim(s, base + k) && base + k >= cur)
}

/// Nothing before `cur` is ever cleared at a position past `cur`.
proof fn lemma_cleared_upto_grow(s: Seq<u8>, l: int, q: int, a: int, b: int)
    requires
        a <= b,
        forall|r: int| a <= r < b ==> !is_close_delim(s, r),
    ensures
        cleared_upto(s, l, q, b) == cleared_upto(s, l, q, a),
{
    if cleared_upto(s, l, q, b) {
        let r = choose|r: int| r < b && close_clears(s, r, l, q);
        assert(r < a && close_clears(s, r, l, q));
    }
}

/// Clearing bound `r + 1` adds exactly the scopes closed at `r`.
proof fn lemma_cleared_upto_step(s: Seq<u8>, l: int, q: int, r: int)
    ensures
        cleared_upto(s, l, q, r + 1) == (cleared_upto(s, l, q, r) || close_clears(s, r, l, q)),
{
    if cleared_upto(s, l, q, r + 1) {
        let rr = choose|rr: int| rr < r + 1 && #[trigger] close_clears(s, rr, l, q);
        if rr < r {
            assert(cleared_upto(s, l, q, r));
        }
    }
    if close_clears(s, r, l, q) {
        assert(r < r + 1 && close_clears(s, r, l, q));
    }
}

/// Pass 4: walk the open and close delimiters of every chunk with a stack
/// and carve each closed scope out of the leveled bitmaps of the level it
/// encloses. Fails exactly when the record's delimiters do not balance.
fn build_leveled_bitmaps(
    bitmaps: &Vec<Bitmap>,
    b_colon: &mut Vec<Vec<u64>>,
    b_comma: &mut Vec<Vec<u64>>,
    level: usize,
    Ghost(s): Ghost<Seq<u8>>,
) -> (res: Result<(), Error>)
    requires
        old(b_colon)@.len() == 0,
        old(b_comma)@.len() == 0,
        bitmaps@.len() == chunk_count(s.len() as int),
        s.len() <= 0xffff_ffff_ffff_ffff,
        fields_cleaned(bitmaps@, s),
        level >= 1,
    ensures
        res is Ok <==> delims_balanced(s),
        res matches Err(e) ==> e == Error::InvalidRecord,
        res is Ok ==> final(b_colon)@.len() == level && final(b_comma)@.len() == level,
        res is Ok ==> forall|l: int|
            0 <= l < level ==> (#[trigger] final(b_colon)@[l])@.len() == bitmaps@.len(),
        res is Ok ==> forall|l: int|
            0 <= l < level ==> (#[trigger] final(b_comma)@[l])@.len() == bitmaps@.len(),
        res is Ok ==> forall|l: int, w: int, k: u64|
            0 <= l < level && 0 <= w < bitmaps@.len() && k < 64 ==> #[trigger] bit64(
                final(b_colon)@[l]@[w],
                k,
            ) == colon_at_level(s, l, 64 * w + k),
        res is Ok ==> forall|l: int, w: int, k: u64|
            0 <= l < level && 0 <= w < bitmaps@.len() && k < 64 ==> #[trigger] bit64(
                final(b_comma)@[l]@[w],
                k,
            ) == comma_at_level(s, l, 64 * w + k),
{
    let n_chunks = bitmaps.len();
    // initialize every level with the structural colon and comma bitmaps
    let mut l: usize = 0;
    while l < level
        invariant
            l <= level,
            n_chunks == bitmaps@.len(),
            fields_cleaned(bitmaps@, s),
            b_colon@.len() == l,
            b_comma@.len() == l,
            forall|l2: int| 0 <= l2 < l ==> (#[trigger] b_colon@[l2])@.len() == n_chunks,
            forall|l2: int| 0 <= l2 < l ==> (#[trigger] b_comma@[l2])@.len() == n_chunks,
            forall|l2: int, w: int|
                0 <= l2 < l && 0 <= w < n_chunks ==> #[trigger] b_colon@[l2]@[w] == bitmaps@[
                w].colon,
            forall|l2: int, w: int|
                0 <= l2 < l && 0 <= w < n_chunks ==> #[trigger] b_comma@[l2]@[w] == bitmaps@[
                w].comma,
        decreases level - l,
    {
        let mut col: Vec<u64> = Vec::new();
        let mut com: Vec<u64> = Vec::new();
        let mut w: usize = 0;
        while w < n_chunks
            invariant
                w <= n_chunks,
                n_chunks == bitmaps@.len(),
                col@.len() == w,
                com@.len() == w,
                forall|w2: int| 0 <= w2 < w ==> #[trigger] col@[w2] == bitmaps@[w2].colon,
                forall|w2: int| 0 <= w2 < w ==> #[trigger] com@[w2] == bitmaps@[w2].comma,
            decreases n_chunks - w,
        {
            col.push(bitmaps[w].colon);
            com.push(bitmaps[w].comma);
            w = w + 1;
        }
        b_colon.push(col);
        b_comma.push(com);
        l = l + 1;
    }
    proof {
        assert forall|ll: int, q: int| true implies !cleared_upto(s, ll, q, 0) by {
            if cleared_upto(s, ll, q, 0) {
                let r = choose|r: int| r < 0 && #[trigger] close_clears(s, r, ll, q);
                assert(is_close_delim(s, r));
            }
        }
        assert forall|l2: int, w: int, k: u64|
            0 <= l2 < level && 0 <= w < n_chunks && k < 64 implies #[trigger] bit64(
            b_colon@[l2]@[w],
            k,
        ) == (struct_char(s, 64 * w + k, COLON) && !cleared_upto(s, l2, 64 * w + k, 0)) by {
            assert(b_colon@[l2]@[w] == bitmaps@[w].colon);
        }
        assert forall|l2: int, w: int, k: u64|
            0 <= l2 < level && 0 <= w < n_chunks && k < 64 implies #[trigger] bit64(
            b_comma@[l2]@[w],
            k,
        ) == (struct_char(s, 64 * w + k, COMMA) && !cleared_upto(s, l2, 64 * w + k, 0)) by {
            assert(b_comma@[l2]@[w] == bitmaps@[w].comma);
        }
    }
    let mut stack: Vec<(usize, u64, bool)> = Vec::new();
    let ghost mut cur: int = 0;
    let mut i: usize = 0;
    while i < n_chunks
        invariant
            i <= n_chunks,
            n_chunks == bitmaps@.len(),
            bitmaps@.len() == chunk_count(s.len() as int),
            s.len() <= 0xffff_ffff_ffff_ffff,
            fields_cleaned(bitmaps@, s),
            level >= 1,
            cur == 64 * (i as int),
            stack_ok(s, cur),
            stack_matches(stack@, the_stack(s, cur), n_chunks as int, cur),
            levels_partial(b_colon@, b_comma@, s, level as int, n_chunks as int, cur),
        decreases n_chunks - i,
    {
        let ghost base = 64 * (i as int);
        let b = bitmaps[i];
        let mut m_left = b.left_brace | b.left_bracket;
        let mut m_right = b.right_brace | b.right_bracket;
        proof {
            assert forall|k: u64| k < 64 implies #[trigger] bit64(m_left, k) == (is_open_delim(
                s,
                base + k,
            ) && base + k >= cur) by {
                lemma_bit_ops(b.left_brace, b.left_bracket, k);
            }
            assert forall|k: u64| k < 64 implies #[trigger] bit64(m_right, k) == (
            is_close_delim(s, base + k) && base + k >= cur) by {
                lemma_bit_ops(b.right_brace, b.right_bracket, k);
            }
        }
        while m_right != 0
            invariant
                i < n_chunks,
                n_chunks == bitmaps@.len(),
                s.len() <= 0xffff_ffff_ffff_ffff,
                fields_cleaned(bitmaps@, s),
                level >= 1,
                base == 64 * (i as int),
                base <= cur <= base + 64,
                b == bitmaps@[i as int],
                open_mask_ok(m_left, s, base, cur),
                close_mask_ok(m_right, s, base, cur),
                stack_ok(s, cur),
                stack_matches(stack@, the_stack(s, cur), n_chunks as int, cur),
                levels_partial(b_colon@, b_comma@, s, level as int, n_chunks as int, cur),
            ensures
                m_right == 0,
            decreases m_right,
        {
            let m_rightbit = E(m_right);
            let ghost tzr = tz64(m_right);
            let ghost r_pos = base + tzr;
            proof {
                crate::bit::lemma_tz(m_right);
                assert(bit64(m_right, tzr));
                assert(is_close_delim(s, r_pos) && r_pos >= cur);
            }
            // push every open that sits before this close
            let mut m_leftbit = E(m_left);
            while m_leftbit != 0 && m_leftbit < m_rightbit
                invariant
                    i < n_chunks,
                    n_chunks == bitmaps@.len(),
                    s.len() <= 0xffff_ffff_ffff_ffff,
                    fields_cleaned(bitmaps@, s),
                    level >= 1,
                    base == 64 * (i as int),
                    base <= cur <= base + 64,
                    b == bitmaps@[i as int],
                    open_mask_ok(m_left, s, base, cur),
                    close_mask_ok(m_right, s, base, cur),
                    m_leftbit == crate::bit::lowest_bit(m_left),
                    m_right != 0,
                    m_rightbit == 1u64 << tzr,
                    tzr == tz64(m_right),
                    tzr < 64,
                    r_pos == base + tzr,
                    bit64(m_right, tzr),
                    stack_ok(s, cur),
                    stack_matches(stack@, the_stack(s, cur), n_chunks as int, cur),
                    levels_partial(b_colon@, b_comma@, s, level as int, n_chunks as int, cur),
                decreases m_left,
            {
                let ghost tzl = tz64(m_left);
                let ghost p = base + tzl;
                proof {
                    crate::bit::lemma_tz(m_left);
                    assert(bit64(m_left, tzl));
                    assert(is_open_delim(s, p) && p >= cur);
                    lemma_single_lt(tzl, tzr);
                    assert(tzl < tzr);
                    crate::bit::lemma_tz(m_leftbit);
                    assert(tz64(m_leftbit) == tzl) by {
                        crate::bit::lemma_single_bit(tzl, tz64(m_leftbit));
                        assert(bit64(m_leftbit, tz64(m_leftbit)));
                    }
                    // nothing structural sits in [cur, p)
                    assert forall|pp: int| cur <= pp < p implies !is_open_delim(s, pp)
                        && !is_close_delim(s, pp) by {
                        let kk = (pp - base) as u64;
                        assert(!bit64(m_left, kk));
                        assert(!bit64(m_right, kk));
                    }
                    lemma_stack_skip(s, cur, p);
                }
                let t = m_leftbit & b.left_brace != 0;
                proof {
                    lemma_single_and(b.left_brace, tzl);
                    assert(t == bit64(b.left_brace, tzl));
                    assert(t == (s[p] == LEFT_BRACE));
                }
                let ghost old_stack = stack@;
                let ghost old_mst = the_stack(s, cur);
                stack.push((i, m_leftbit, t));
                let new_left = R(m_left);
                proof {
                    assert(the_stack(s, p) == old_mst);
                    assert(delim_stack(s, p + 1) == Some(
                        the_stack(s, p).push((p, s[p] == LEFT_BRACE)),
                    ));
                    let old_cur = cur;
                    cur = p + 1;
                    assert forall|k: u64| k < 64 implies #[trigger] bit64(new_left, k) == (
                    is_open_delim(s, base + k) && base + k >= cur) by {
                        crate::bit::lemma_tz(m_left);
                    }
                    assert forall|k: u64| k < 64 implies #[trigger] bit64(m_right, k) == (
                    is_close_delim(s, base + k) && base + k >= cur) by {
                        if bit64(m_right, k) {
                            assert(k >= tzr);
                        }
                    }
                    assert forall|l2: int, q: int| true implies cleared_upto(s, l2, q, cur)
                        == cleared_upto(s, l2, q, old_cur) by {
                        lemma_cleared_upto_grow(s, l2, q, old_cur, cur);
                    }
                    assert forall|idx: int|
                        0 <= idx < stack@.len() implies (#[trigger] the_stack(s, cur)[idx]).0
                        == 64 * stack@[idx].0 + tz64(stack@[idx].1) && the_stack(s, cur)[idx].1
                        == stack@[idx].2 && stack@[idx].1 != 0 && tz64(stack@[idx].1) < 64
                        && stack@[idx].1 == 1u64 << tz64(stack@[idx].1) && stack@[idx].0
                        < n_chunks && the_stack(s, cur)[idx].0 < cur by {
                        if idx < old_stack.len() {
                            assert(the_stack(s, cur)[idx] == old_mst[idx]);
                            assert(stack@[idx] == old_stack[idx]);
                        } else {
                            assert(stack@[idx] == (i, m_leftbit, t));
                            assert(the_stack(s, cur)[idx] == (p, s[p] == LEFT_BRACE));
                        }
                    }
                    assert(stack_matches(stack@, the_stack(s, cur), n_chunks as int, cur));
                }
                m_left = new_left;
                m_leftbit = E(m_left);
            }
            // the close at `r_pos` pops its open
            proof {
                assert forall|pp: int| cur <= pp < r_pos implies !is_open_delim(s, pp)
                    && !is_close_delim(s, pp) by {
                    let kk = (pp - base) as u64;
                    assert(!bit64(m_right, kk));
                    assert(!bit64(m_left, kk)) by {
                        if bit64(m_left, kk) {
                            crate::bit::lemma_tz(m_left);
                            assert(m_left != 0);
                            assert(m_leftbit == 1u64 << tz64(m_left));
                            crate::bit::lemma_single_bit(tz64(m_left), tz64(m_left));
                            assert(bit64(m_leftbit, tz64(m_left)));
                            crate::bit::lemma_zero_word(tz64(m_left));
                            assert(m_leftbit != 0);
                            assert(m_leftbit >= m_rightbit);
                            lemma_single_lt(tz64(m_left), tzr);
                            assert(tz64(m_left) >= tzr);
                            assert(kk >= tz64(m_left));
                        }
                    }
                }
                lemma_stack_skip(s, cur, r_pos);
            }
            let is_rb = m_rightbit & b.right_brace != 0;
            proof {
                lemma_single_and(b.right_brace, tzr);
                assert(is_rb == bit64(b.right_brace, tzr));
                assert(is_rb == (s[r_pos] == RIGHT_BRACE));
            }
            match stack.pop() {
                Option::None => {
                    proof {
                        assert(the_stack(s, r_pos).len() == 0);
                        assert(delim_stack(s, r_pos + 1) is None);
                        lemma_stack_none(s, r_pos + 1, s.len() as int);
                    }
                    return Result::Err(Error::InvalidRecord);
                },
                Option::Some((j, mlb, t)) => {
                    if t != is_rb {
                        proof {
                            assert(the_stack(s, r_pos).last().1 == t);
                            assert(delim_stack(s, r_pos + 1) is None);
                            lemma_stack_none(s, r_pos + 1, s.len() as int);
                        }
                        return Result::Err(Error::InvalidRecord);
                    }
                    let ghost mst = the_stack(s, r_pos);
                    let ghost tzl = tz64(mlb);
                    let ghost l_pos = 64 * (j as int) + tzl;
                    let ghost old_cur = cur;
                    let ghost bc0 = b_colon@;
                    let ghost bm0 = b_comma@;
                    let d = stack.len();
                    proof {
                        assert(mst.len() == d + 1);
                        assert(mlb != 0 && tzl < 64 && mlb == 1u64 << tzl && j < n_chunks);
                        assert(mst.last() == (l_pos, t));
                        assert(delim_stack(s, r_pos + 1) == Some(mst.drop_last()));
                        assert(l_pos < old_cur);
                        assert(old_cur <= r_pos);
                        assert forall|l2: int, q: int| true implies #[trigger] close_clears(
                            s,
                            r_pos,
                            l2,
                            q,
                        ) == (d >= 1 && l2 == d - 1 && l_pos <= q < r_pos) by {}
                        assert forall|l2: int, q: int| true implies cleared_upto(
                            s,
                            l2,
                            q,
                            r_pos + 1,
                        ) == (cleared_upto(s, l2, q, old_cur) || close_clears(
                            s,
                            r_pos,
                            l2,
                            q,
                        )) by {
                            lemma_cleared_upto_grow(s, l2, q, old_cur, r_pos);
                            lemma_cleared_upto_step(s, l2, q, r_pos);
                        }
                    }
                    if d >= 1 && d - 1 < level {
                        let lvl = d - 1;
                        if j == i {
                            proof {
                                lemma_single_lt(tzl, tzr);
                                assert((1u64 << tzl) < (1u64 << tzr));
                                assert(mlb < m_rightbit);
                            }
                            let mask = !(m_rightbit - mlb);
                            clear_word(b_colon, lvl, i, mask);
                            clear_word(b_comma, lvl, i, mask);
                            proof {
                                cur = r_pos + 1;
                                assert forall|k: u64| k < 64 implies #[trigger] bit64(mask, k)
                                    == !(tzl <= k < tzr) by {
                                    lemma_range_mask(tzl, tzr, k);
                                    lemma_bit_ops((m_rightbit - mlb) as u64, 0u64, k);
                                }
                                assert forall|l2: int, w2: int, k: u64|
                                    0 <= l2 < level && 0 <= w2 < n_chunks && k < 64 implies
                                    #[trigger] bit64(b_colon@[l2]@[w2], k) == (struct_char(
                                    s,
                                    64 * w2 + k,
                                    COLON,
                                ) && !cleared_upto(s, l2, 64 * w2 + k, cur)) by {
                                    lemma_bit_ops(bc0[l2]@[w2], mask, k);
                                    if l2 == lvl && w2 == i {
                                        assert(b_colon@[l2]@[w2] == bc0[l2]@[w2] & mask);
                                    } else {
                                        assert(b_colon@[l2]@[w2] == bc0[l2]@[w2]);
                                    }
                                }
                                assert forall|l2: int, w2: int, k: u64|
                                    0 <= l2 < level && 0 <= w2 < n_chunks && k < 64 implies
                                    #[trigger] bit64(b_comma@[l2]@[w2], k) == (struct_char(
                                    s,
                                    64 * w2 + k,
                                    COMMA,
                                ) && !cleared_upto(s, l2, 64 * w2 + k, cur)) by {
                                    lemma_bit_ops(bm0[l2]@[w2], mask, k);
                                    if l2 == lvl && w2 == i {
                                        assert(b_comma@[l2]@[w2] == bm0[l2]@[w2] & mask);
                                    } else {
                                        assert(b_comma@[l2]@[w2] == bm0[l2]@[w2]);
                                    }
                                }
                            }
                        } else {
                            proof {
                                assert(l_pos < base + 64);
                                assert(j < i);
                                crate::bit::lemma_single_bit(tzr, tzr);
                                assert(bit64(m_rightbit, tzr));
                                crate::bit::lemma_zero_word(tzr);
                                assert(m_rightbit != 0);
                            }
                            let maskj = mlb - 1;
                            let maski = !(m_rightbit - 1);
                            clear_word(b_colon, lvl, j, maskj);
                            clear_word(b_comma, lvl, j, maskj);
                            clear_word(b_colon, lvl, i, maski);
                            clear_word(b_comma, lvl, i, maski);
                            let mut w: usize = j + 1;
                            while w < i
                                invariant
                                    j < w <= i < n_chunks,
                                    level >= 1,
                                    lvl < level,
                                    b_colon@.len() == level,
                                    b_comma@.len() == level,
                                    forall|l2: int|
                                        0 <= l2 < level ==> (#[trigger] b_colon@[l2])@.len()
                                            == n_chunks,
                                    forall|l2: int|
                                        0 <= l2 < level ==> (#[trigger] b_comma@[l2])@.len()
                                            == n_chunks,
                                    forall|l2: int, w2: int|
                                        0 <= l2 < level && 0 <= w2 < n_chunks && !(l2 == lvl && (
                                        w2 == j || w2 == i || (j < w2 < w))) ==> #[trigger] b_colon@[
                                            l2]@[w2] == bc0[l2]@[w2],
                                    forall|l2: int, w2: int|
                                        0 <= l2 < level && 0 <= w2 < n_chunks && !(l2 == lvl && (
                                        w2 == j || w2 == i || (j < w2 < w))) ==> #[trigger] b_comma@[
                                            l2]@[w2] == bm0[l2]@[w2],
                                    b_colon@[lvl as int]@[j as int] == bc0[lvl as int]@[j as int]
                                        & maskj,
                                    b_comma@[lvl as int]@[j as int] == bm0[lvl as int]@[j as int]
                                        & maskj,
                                    b_colon@[lvl as int]@[i as int] == bc0[lvl as int]@[i as int]
                                        & maski,
                                    b_comma@[lvl as int]@[i as int] == bm0[lvl as int]@[i as int]
                                        & maski,
                                    forall|w2: int|
                                        j < w2 < w ==> #[trigger] b_colon@[lvl as int]@[w2]
                                            == 0u64,
                                    forall|w2: int|
                                        j < w2 < w ==> #[trigger] b_comma@[lvl as int]@[w2]
                                            == 0u64,
                                decreases i - w,
                            {
                                clear_word(b_colon, lvl, w, 0);
                                clear_word(b_comma, lvl, w, 0);
                                proof {
                                    assert(b_colon@[lvl as int]@[w as int] == bc0[lvl as int]@[
                                    w as int] & 0u64);
                                    assert(bc0[lvl as int]@[w as int] & 0u64 == 0u64)
                                        by (bit_vector);
                                    assert(bm0[lvl as int]@[w as int] & 0u64 == 0u64)
                                        by (bit_vector);
                                }
                                w = w + 1;
                            }
                            proof {
                                cur = r_pos + 1;
                                assert forall|k: u64| k < 64 implies #[trigger] bit64(maskj, k)
                                    == (k < tzl) by {
                                    lemma_low_mask(tzl, k);
                                }
                                assert forall|k: u64| k < 64 implies #[trigger] bit64(maski, k)
                                    == !(k < tzr) by {
                                    lemma_low_mask(tzr, k);
                                    lemma_bit_ops((m_rightbit - 1) as u64, 0u64, k);
                                }
                                assert forall|k: u64| k < 64 implies !bit64(0u64, k) by {
                                    crate::bit::lemma_zero_word(k);
                                }
                                assert forall|l2: int, w2: int, k: u64|
                                    0 <= l2 < level && 0 <= w2 < n_chunks && k < 64 implies
                                    #[trigger] bit64(b_colon@[l2]@[w2], k) == (struct_char(
                                    s,
                                    64 * w2 + k,
                                    COLON,
                                ) && !cleared_upto(s, l2, 64 * w2 + k, cur)) by {
                                    lemma_bit_ops(bc0[l2]@[w2], maskj, k);
                                    lemma_bit_ops(bc0[l2]@[w2], maski, k);
                                    if l2 == lvl && w2 == j {
                                        assert(64 * w2 + k < 64 * (j + 1) <= 64 * (i as int)
                                            <= r_pos);
                                        assert((64 * w2 + k >= l_pos) == (k >= tzl));
                                    }
                                    if l2 == lvl && w2 == i {
                                        assert(l_pos < 64 * (i as int));
                                        assert((64 * w2 + k < r_pos) == (k < tzr));
                                    }
                                    if l2 == lvl && j < w2 < i {
                                        assert(64 * w2 + k >= 64 * (j + 1));
                                        assert(64 * w2 + k < 64 * (i as int));
                                        assert(l_pos < 64 * (j + 1));
                                    }
                                }
                                assert forall|l2: int, w2: int, k: u64|
                                    0 <= l2 < level && 0 <= w2 < n_chunks && k < 64 implies
                                    #[trigger] bit64(b_comma@[l2]@[w2], k) == (struct_char(
                                    s,
                                    64 * w2 + k,
                                    COMMA,
                                ) && !cleared_upto(s, l2, 64 * w2 + k, cur)) by {
                                    lemma_bit_ops(bm0[l2]@[w2], maskj, k);
                                    lemma_bit_ops(bm0[l2]@[w2], maski, k);
                                    if l2 == lvl && w2 == j {
                                        assert(64 * w2 + k < 64 * (j + 1) <= 64 * (i as int)
                                            <= r_pos);
                                        assert((64 * w2 + k >= l_pos) == (k >= tzl));
                                    }
                                    if l2 == lvl && w2 == i {
                                        assert(l_pos < 64 * (i as int));
                                        assert((64 * w2 + k < r_pos) == (k < tzr));
                                    }
                                    if l2 == lvl && j < w2 < i {
                                        assert(64 * w2 + k >= 64 * (j + 1));
                                        assert(64 * w2 + k < 64 * (i as int));
                                        assert(l_pos < 64 * (j + 1));
                                    }
                                }
                            }
                        }
                    } else {
                        proof {
                            cur = r_pos + 1;
                            assert forall|l2: int, w2: int, k: u64|
                                0 <= l2 < level && 0 <= w2 < n_chunks && k < 64 implies
                                #[trigger] bit64(b_colon@[l2]@[w2], k) == (struct_char(
                                s,
                                64 * w2 + k,
                                COLON,
                            ) && !cleared_upto(s, l2, 64 * w2 + k, cur)) by {}
                            assert forall|l2: int, w2: int, k: u64|
                                0 <= l2 < level && 0 <= w2 < n_chunks && k < 64 implies
                                #[trigger] bit64(b_comma@[l2]@[w2], k) == (struct_char(
                                s,
                                64 * w2 + k,
                                COMMA,
                            ) && !cleared_upto(s, l2, 64 * w2 + k, cur)) by {}
                        }
                    }
                    proof {
                        assert forall|k: u64| k < 64 implies #[trigger] bit64(m_left, k) == (
                        is_open_delim(s, base + k) && base + k >= cur) by {
                            if bit64(m_left, k) {
                                crate::bit::lemma_tz(m_left);
                                assert(m_left != 0);
                                assert(m_leftbit == 1u64 << tz64(m_left));
                                crate::bit::lemma_single_bit(tz64(m_left), tz64(m_left));
                                assert(bit64(m_leftbit, tz64(m_left)));
                                crate::bit::lemma_zero_word(tz64(m_left));
                                assert(m_leftbit != 0);
                                assert(m_leftbit >= m_rightbit);
                                lemma_single_lt(tz64(m_left), tzr);
                                assert(tz64(m_left) >= tzr);
                                assert(k >= tz64(m_left));
                                if k == tzr {
                                    assert(is_open_delim(s, r_pos));
                                }
                            }
                        }
                        assert(the_stack(s, cur) == mst.drop_last());
                        assert forall|idx: int|
                            0 <= idx < stack@.len() implies (#[trigger] the_stack(s, cur)[
                        idx]).0 == 64 * stack@[idx].0 + tz64(stack@[idx].1) && the_stack(s, cur)[
                            idx].1 == stack@[idx].2 && stack@[idx].1 != 0 && tz64(stack@[idx].1)
                            < 64 && stack@[idx].1 == 1u64 << tz64(stack@[idx].1) && stack@[idx].0
                            < n_chunks && the_stack(s, cur)[idx].0 < cur by {
                            assert(mst.drop_last()[idx] == mst[idx]);
                        }
                        assert(stack_matches(stack@, the_stack(s, cur), n_chunks as int, cur));
                    }
                },
            }
            let new_right = R(m_right);
            proof {
                assert forall|k: u64| k < 64 implies #[trigger] bit64(new_right, k) == (
                is_close_delim(s, base + k) && base + k >= cur) by {
                    crate::bit::lemma_tz(m_right);
                }
            }
            m_right = new_right;
        }
        // push the opens that follow the last close of the chunk
        proof {
            assert forall|k: u64|
                k < 64 implies !(#[trigger] is_close_delim(s, base + k) && base + k >= cur) by {
                crate::bit::lemma_zero_word(k);
            }
        }
        let mut m_leftbit = E(m_left);
        while m_leftbit != 0
            invariant
                i < n_chunks,
                n_chunks == bitmaps@.len(),
                s.len() <= 0xffff_ffff_ffff_ffff,
                fields_cleaned(bitmaps@, s),
                level >= 1,
                base == 64 * (i as int),
                base <= cur <= base + 64,
                b == bitmaps@[i as int],
                open_mask_ok(m_left, s, base, cur),
                forall|k: u64|
                    k < 64 ==> !(#[trigger] is_close_delim(s, base + k) && base + k >= cur),
                m_leftbit == crate::bit::lowest_bit(m_left),
                stack_ok(s, cur),
                stack_matches(stack@, the_stack(s, cur), n_chunks as int, cur),
                levels_partial(b_colon@, b_comma@, s, level as int, n_chunks as int, cur),
            decreases m_left,
        {
            let ghost tzl = tz64(m_left);
            let ghost p = base + tzl;
            proof {
                crate::bit::lemma_tz(m_left);
                assert(bit64(m_left, tzl));
                assert(is_open_delim(s, p) && p >= cur);
                crate::bit::lemma_tz(m_leftbit);
                assert(tz64(m_leftbit) == tzl) by {
                    crate::bit::lemma_single_bit(tzl, tz64(m_leftbit));
                    assert(bit64(m_leftbit, tz64(m_leftbit)));
                }
                assert forall|pp: int| cur <= pp < p implies !is_open_delim(s, pp)
                    && !is_close_delim(s, pp) by {
                    let kk = (pp - base) as u64;
                    assert(!bit64(m_left, kk));
                }
                lemma_stack_skip(s, cur, p);
            }
            let t = m_leftbit & b.left_brace != 0;
            proof {
                lemma_single_and(b.left_brace, tzl);
                assert(t == (s[p] == LEFT_BRACE));
            }
            let ghost old_stack = stack@;
            let ghost old_mst = the_stack(s, cur);
            stack.push((i, m_leftbit, t));
            let new_left = R(m_left);
            proof {
                assert(the_stack(s, p) == old_mst);
                assert(delim_stack(s, p + 1) == Some(
                    the_stack(s, p).push((p, s[p] == LEFT_BRACE)),
                ));
                let old_cur = cur;
                cur = p + 1;
                assert forall|k: u64| k < 64 implies #[trigger] bit64(new_left, k) == (
                is_open_delim(s, base + k) && base + k >= cur) by {
                    crate::bit::lemma_tz(m_left);
                }
                assert forall|l2: int, q: int| true implies cleared_upto(s, l2, q, cur)
                    == cleared_upto(s, l2, q, old_cur) by {
                    lemma_cleared_upto_grow(s, l2, q, old_cur, cur);
                }
                assert forall|idx: int|
                    0 <= idx < stack@.len() implies (#[trigger] the_stack(s, cur)[idx]).0 == 64
                    * stack@[idx].0 + tz64(stack@[idx].1) && the_stack(s, cur)[idx].1 == stack@[
                    idx].2 && stack@[idx].1 != 0 && tz64(stack@[idx].1) < 64 && stack@[idx].1
                    == 1u64 << tz64(stack@[idx].1) && stack@[idx].0 < n_chunks && the_stack(
                    s,
                    cur,
                )[idx].0 < cur by {
                    if idx < old_stack.len() {
                        assert(the_stack(s, cur)[idx] == old_mst[idx]);
                        assert(stack@[idx] == old_stack[idx]);
                    } else {
                        assert(stack@[idx] == (i, m_leftbit, t));
                        assert(the_stack(s, cur)[idx] == (p, s[p] == LEFT_BRACE));
                    }
                }
                assert(stack_matches(stack@, the_stack(s, cur), n_chunks as int, cur));
            }
            m_left = new_left;
            m_leftbit = E(m_left);
        }
        // the rest of the chunk holds no structural delimiter
        proof {
            assert(m_left == 0) by {
                if m_left != 0 {
                    crate::bit::lemma_tz(m_left);
                    crate::bit::lemma_single_bit(tz64(m_left), tz64(m_left));
                    assert(m_leftbit == 1u64 << tz64(m_left));
                    assert(bit64(m_leftbit, tz64(m_left)));
                    crate::bit::lemma_zero_word(tz64(m_left));
                }
            }
            assert forall|pp: int| cur <= pp < base + 64 implies !is_open_delim(s, pp)
                && !is_close_delim(s, pp) by {
                let kk = (pp - base) as u64;
                crate::bit::lemma_zero_word(kk);
                assert(!bit64(m_left, kk));
            }
            lemma_stack_skip(s, cur, base + 64);
            assert forall|l2: int, q: int| true implies cleared_upto(s, l2, q, base + 64)
                == cleared_upto(s, l2, q, cur) by {
                lemma_cleared_upto_grow(s, l2, q, cur, base + 64);
            }
            cur = base + 64;
        }
        i = i + 1;
        proof {
            assert(cur == 64 * (i as int));
        }
    }
    // every chunk is processed; anything still open is a malformed record
    proof {
        lemma_chunk_count(s.len() as int);
        assert(cur >= s.len());
        assert forall|pp: int| s.len() <= pp < cur implies !is_open_delim(s, pp)
            && !is_close_delim(s, pp) by {}
        lemma_stack_skip(s, s.len() as int, cur);
    }
    if stack.len() > 0 {
        return Result::Err(Error::InvalidRecord);
    }
    proof {
        assert(delims_balanced(s));
        assert forall|l2: int, w2: int, k: u64|
            0 <= l2 < level && 0 <= w2 < n_chunks && k < 64 implies #[trigger] bit64(
            b_colon@[l2]@[w2],
            k,
        ) == colon_at_level(s, l2, 64 * w2 + k) && #[trigger] bit64(b_comma@[l2]@[w2], k)
            == comma_at_level(s, l2, 64 * w2 + k) by {
            lemma_cleared_upto_all(s, l2, 64 * w2 + k, cur);
        }
    }
    Result::Ok(())
}


/// The index builder: a character-comparison backend plus the maximum
/// nesting level the leveled bitmaps will resolve.
#[derive(Debug)]
pub struct IndexBuilder<B: Backend> {
    backend: B,
    level: usize,
}

impl<B: Backend> IndexBuilder<B> {
    /// The level the builder was configured with.
    pub closed spec fn spec_level(&self) -> usize {
        self.level
    }

    /// A builder is valid once its level is positive.
    pub closed spec fn wf(&self) -> bool {
        self.level >= 1
    }

    /// Create a builder for records nested at most `level` scopes deep.
    pub fn new(backend: B, level: usize) -> (r: Self)
        requires
            level >= 1,
        ensures
            r.spec_level() == level,
            r.wf(),
    {
        IndexBuilder { backend, level }
    }

    /// Build a structural index from a slice of bytes: the four passes in
    /// order. Succeeds exactly when the record's delimiters balance.
    pub fn build<'s>(&self, record: &'s [u8]) -> (res: Result<
        crate::index::StructuralIndex<'s>,
        Error,
    >)
        requires
            self.wf(),
        ensures
            res is Ok <==> delims_balanced(record@),
            res matches Err(e) ==> e == Error::InvalidRecord,
            res matches Ok(idx) ==> idx.wf() && idx.record@ == record@ && idx.level_spec()
                == self.spec_level(),
    {
        let ghost s = record@;
        let n = record.len();
        proof {
            assert(s.len() == n as int);
        }
        let mut bitmaps: Vec<Bitmap> = Vec::new();
        build_structural_character_bitmaps(&mut bitmaps, record, &self.backend);
        let ghost bm1 = bitmaps@;
        remove_unstructural_quotes(&mut bitmaps, Ghost(s));
        let ghost bm2 = bitmaps@;
        proof {
            assert forall|w: int|
                0 <= w < bm2.len() implies mask_ok(#[trigger] bm2[w].colon, s, 64 * w, COLON)
                && mask_ok(bm2[w].comma, s, 64 * w, COMMA) && mask_ok(
                bm2[w].left_brace,
                s,
                64 * w,
                LEFT_BRACE,
            ) && mask_ok(bm2[w].right_brace, s, 64 * w, RIGHT_BRACE) && mask_ok(
                bm2[w].left_bracket,
                s,
                64 * w,
                LEFT_BRACKET,
            ) && mask_ok(bm2[w].right_bracket, s, 64 * w, RIGHT_BRACKET) && mask_ok(
                bm2[w].backslash,
                s,
                64 * w,
                BACKSLASH,
            ) by {
                assert(bitmap_ok(bm1[w], s, 64 * w));
                assert(same_except_quote(bm2[w], bm1[w]));
            }
            assert(fields_raw(bm2, s));
        }
        remove_unstructural_characters(&mut bitmaps, Ghost(s));
        proof {
            assert forall|w: int, k: u64|
                0 <= w < bitmaps@.len() && k < 64 implies #[trigger] bit64(
                bitmaps@[w].quote,
                k,
            ) == struct_quote(s, 64 * w + k) by {
                assert(bitmaps@[w].quote == bm2[w].quote);
                assert(bit64(bm2[w].quote, k) == struct_quote(s, 64 * w + k));
            }
            assert forall|w: int|
                0 <= w < bitmaps@.len() implies mask_ok(
                #[trigger] bitmaps@[w].backslash,
                s,
                64 * w,
                BACKSLASH,
            ) by {
                assert(bitmaps@[w].quote == bm2[w].quote);
                assert(bitmaps@[w].backslash == bm2[w].backslash);
            }
        }
        let mut b_colon: Vec<Vec<u64>> = Vec::new();
        let mut b_comma: Vec<Vec<u64>> = Vec::new();
        match build_leveled_bitmaps(&bitmaps, &mut b_colon, &mut b_comma, self.level, Ghost(s)) {
            Result::Ok(()) => {
                let idx = crate::index::StructuralIndex { record, bitmaps, b_colon, b_comma };
                proof {
                    assert(idx.wf());
                }
                Result::Ok(idx)
            },
            Result::Err(e) => Result::Err(e),
        }
    }
}

} // verus!
