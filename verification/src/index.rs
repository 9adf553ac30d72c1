//! The structural index of one record: the cleaned bitmaps plus the leveled
//! colon and comma bitmaps, and the position queries the evaluator asks of
//! them.

use vstd::prelude::*;
use vstd::slice::slice_subrange;

use crate::backend::{mask_ok, Bitmap};
use crate::bit::{bit64, lz64, tz64, L, R};
use crate::builder::{fields_cleaned, quotes_structural};
use crate::errors::Error;
use crate::model::{chunk_count, colon_at_level, comma_at_level, delims_balanced, is_ws,
    last_quote, struct_quote, trim_left, trim_right, BACKSLASH, RIGHT_BRACE};
use crate::value::EscapedStr;

verus! {

/// A positions vector read as a sequence of mathematical integers.
pub open spec fn int_list(q: Seq<usize>) -> Seq<int> {
    Seq::new(q.len(), |i: int| q[i] as int)
}

/// Bit `p` of the flat bitmap laid out as 64-bit words.
pub open spec fn word_bit(bm: Seq<u64>, p: int) -> bool {
    0 <= p < 64 * bm.len() && bit64(bm[p / 64], (p % 64) as u64)
}

/// The structural index that `IndexBuilder::build` returns for a record.
pub struct StructuralIndex<'s> {
    pub record: &'s [u8],
    pub bitmaps: Vec<Bitmap>,
    pub b_colon: Vec<Vec<u64>>,
    pub b_comma: Vec<Vec<u64>>,
}

impl<'s> StructuralIndex<'s> {
    /// The number of levels the index was built with.
    pub open spec fn level_spec(self) -> int {
        self.b_colon@.len() as int
    }

    /// What construction guarantees: the bitmaps describe the record
    /// exactly, and each leveled bitmap keeps exactly the colons and commas
    /// whose enclosing scopes reach no deeper than its level.
    pub open spec fn wf(self) -> bool {
        &&& self.bitmaps@.len() == chunk_count(self.record@.len() as int)
        &&& self.record@.len() <= 0xffff_ffff_ffff_ffff
        &&& quotes_structural(self.bitmaps@, self.record@)
        &&& fields_cleaned(self.bitmaps@, self.record@)
        &&& forall|w: int|
            0 <= w < self.bitmaps@.len() ==> mask_ok(
                #[trigger] self.bitmaps@[w].backslash,
                self.record@,
                64 * w,
                BACKSLASH,
            )
        &&& self.b_colon@.len() >= 1
        &&& self.b_comma@.len() == self.b_colon@.len()
        &&& forall|l: int|
            0 <= l < self.b_colon@.len() ==> (#[trigger] self.b_colon@[l])@.len()
                == self.bitmaps@.len()
        &&& forall|l: int|
            0 <= l < self.b_comma@.len() ==> (#[trigger] self.b_comma@[l])@.len()
                == self.bitmaps@.len()
        &&& forall|l: int, w: int, k: u64|
            0 <= l < self.b_colon@.len() && 0 <= w < self.bitmaps@.len() && k < 64
                ==> #[trigger] bit64(self.b_colon@[l]@[w], k) == colon_at_level(
                self.record@,
                l,
                64 * w + k,
            )
        &&& forall|l: int, w: int, k: u64|
            0 <= l < self.b_comma@.len() && 0 <= w < self.bitmaps@.len() && k < 64
                ==> #[trigger] bit64(self.b_comma@[l]@[w], k) == comma_at_level(
                self.record@,
                l,
                64 * w + k,
            )
        &&& delims_balanced(self.record@)
    }

    /// Collect into `cp` the positions of the level-`level` colons in
    /// `[begin, end)`, in ascending order; `false` when the index holds no
    /// such level.
    pub fn colon_positions(
        &self,
        begin: usize,
        end: usize,
        level: usize,
        cp: &mut Vec<usize>,
    ) -> (r: bool)
        requires
            self.wf(),
            begin <= end,
            1 <= end <= self.record@.len(),
        ensures
            r == (level < self.level_spec()),
            forall|idx: int|
                0 <= idx < final(cp)@.len() ==> begin <= #[trigger] final(cp)@[idx] < end
                    && colon_at_level(self.record@, level as int, final(cp)@[idx] as int),
            forall|idx: int|
                0 <= idx && idx + 1 < final(cp)@.len()
                    ==> #[trigger] final(cp)@[idx] < final(cp)@[idx + 1],
            forall|p: usize|
                begin <= p < end && colon_at_level(self.record@, level as int, p as int)
                    && r ==> final(cp)@.contains(p),
            r ==> int_list(final(cp)@) == crate::model::colon_list(
                self.record@,
                begin as int,
                end as int,
                level as int,
            ),
            !r ==> final(cp)@.len() == 0,
    {
        cp.clear();
        if level < self.b_colon.len() {
            proof {
                assert forall|p: int| 0 <= p < 64 * self.b_colon@[level as int]@.len() implies
                    #[trigger] word_bit(self.b_colon@[level as int]@, p) == colon_at_level(
                    self.record@,
                    level as int,
                    p,
                ) by {
                    vstd::arithmetic::div_mod::lemma_fundamental_div_mod(p, 64);
                }
                crate::builder::lemma_chunk_count(self.record@.len() as int);
                assert(64 * self.b_colon@[level as int]@.len() >= self.record@.len());
            }
            generate_positions(&self.b_colon[level], begin, end, cp);
            proof {
                assert forall|p: usize|
                    begin <= p < end && colon_at_level(
                        self.record@,
                        level as int,
                        p as int,
                    ) implies cp@.contains(p) by {
                    assert(word_bit(self.b_colon@[level as int]@, p as int));
                }
                let q = int_list(cp@);
                assert forall|p: int|
                    begin <= p < end && colon_at_level(self.record@, level as int, p) implies
                    q.contains(p) by {
                    assert(cp@.contains(p as usize));
                    let idx = choose|idx: int| 0 <= idx < cp@.len() && cp@[idx] == p as usize;
                    assert(q[idx] == p);
                }
                crate::model::lemma_colon_list_unique(
                    self.record@,
                    begin as int,
                    end as int,
                    level as int,
                    q,
                );
            }
            true
        } else {
            false
        }
    }

    /// Collect into `cp` the positions of the level-`level` commas in
    /// `[begin, end)`, in ascending order; `false` when the index holds no
    /// such level.
    pub fn comma_positions(
        &self,
        begin: usize,
        end: usize,
        level: usize,
        cp: &mut Vec<usize>,
    ) -> (r: bool)
        requires
            self.wf(),
            begin <= end,
            1 <= end <= self.record@.len(),
        ensures
            r == (level < self.level_spec()),
            forall|idx: int|
                0 <= idx < final(cp)@.len() ==> begin <= #[trigger] final(cp)@[idx] < end
                    && comma_at_level(self.record@, level as int, final(cp)@[idx] as int),
            forall|idx: int|
                0 <= idx && idx + 1 < final(cp)@.len()
                    ==> #[trigger] final(cp)@[idx] < final(cp)@[idx + 1],
            forall|p: usize|
                begin <= p < end && comma_at_level(self.record@, level as int, p as int)
                    && r ==> final(cp)@.contains(p),
            r ==> int_list(final(cp)@) == crate::model::comma_list(
                self.record@,
                begin as int,
                end as int,
                level as int,
            ),
            !r ==> final(cp)@.len() == 0,
    {
        cp.clear();
        if level < self.b_comma.len() {
            proof {
                assert forall|p: int| 0 <= p < 64 * self.b_comma@[level as int]@.len() implies
                    #[trigger] word_bit(self.b_comma@[level as int]@, p) == comma_at_level(
                    self.record@,
                    level as int,
                    p,
                ) by {
                    vstd::arithmetic::div_mod::lemma_fundamental_div_mod(p, 64);
                }
                crate::builder::lemma_chunk_count(self.record@.len() as int);
                assert(64 * self.b_comma@[level as int]@.len() >= self.record@.len());
            }
            generate_positions(&self.b_comma[level], begin, end, cp);
            proof {
                assert forall|p: usize|
                    begin <= p < end && comma_at_level(
                        self.record@,
                        level as int,
                        p as int,
                    ) implies cp@.contains(p) by {
                    assert(word_bit(self.b_comma@[level as int]@, p as int));
                }
                let q = int_list(cp@);
                assert forall|p: int|
                    begin <= p < end && comma_at_level(self.record@, level as int, p) implies
                    q.contains(p) by {
                    assert(cp@.contains(p as usize));
                    let idx = choose|idx: int| 0 <= idx < cp@.len() && cp@[idx] == p as usize;
                    assert(q[idx] == p);
                }
                crate::model::lemma_comma_list_unique(
                    self.record@,
                    begin as int,
                    end as int,
                    level as int,
                    q,
                );
            }
            true
        } else {
            false
        }
    }

    /// Find the field name that precedes the colon at `end`: the two highest
    /// structural quotes before `end` delimit it. The scan starts at the
    /// chunk holding `begin`.
    pub fn find_object_field(&self, begin: usize, end: usize) -> (r: Result<
        (EscapedStr<'s>, usize),
        Error,
    >)
        requires
            self.wf(),
            begin <= end,
            end <= self.record@.len(),
        ensures
            ({
                let w0 = 64 * ((begin as int) / 64);
                let fei = last_quote(self.record@, w0, end as int);
                let fsm = last_quote(self.record@, w0, fei);
                &&& (r is Ok <==> fei >= 0 && fsm >= 0)
                &&& (r matches Ok((name, fsi)) ==> fsi == fsm + 1 && fsi <= fei < end && name@
                    == self.record@.subrange(fsi as int, fei))
                &&& (r matches Err(e) ==> e == Error::InvalidRecord)
            }),
    {
        let ghost s = self.record@;
        let ghost w0 = 64 * ((begin as int) / 64);
        let lo = begin / 64;
        let hi0 = end / 64 + 1;
        let nb = self.bitmaps.len();
        let hi = if hi0 < nb {
            hi0
        } else {
            nb
        };
        proof {
            crate::builder::lemma_chunk_count(s.len() as int);
            vstd::arithmetic::div_mod::lemma_fundamental_div_mod(begin as int, 64);
            vstd::arithmetic::div_mod::lemma_fundamental_div_mod(end as int, 64);
            assert(hi as int <= self.bitmaps@.len());
            assert(64 * (hi as int) >= end);
            assert(lo <= hi) by {
                vstd::arithmetic::div_mod::lemma_div_is_ordered(begin as int, end as int, 64);
                vstd::arithmetic::div_mod::lemma_div_is_ordered(
                    begin as int,
                    s.len() as int,
                    64,
                );
                vstd::arithmetic::div_mod::lemma_div_is_ordered(
                    s.len() as int,
                    s.len() as int + 63,
                    64,
                );
            }
        }
        let mut ei: usize = 0;
        let mut have_ei = false;
        let mut i = hi;
        while i > lo
            invariant
                self.wf(),
                s == self.record@,
                begin <= end <= s.len(),
                w0 == 64 * ((begin as int) / 64),
                w0 == 64 * (lo as int),
                lo == begin as int / 64,
                lo <= i <= hi,
                nb as int == self.bitmaps@.len(),
                hi0 as int == end as int / 64 + 1,
                hi == hi0 || hi == nb,
                hi <= hi0,
                hi <= nb,
                64 * (hi as int) >= end,
                !have_ei ==> last_quote(s, 64 * (i as int), end as int) == -1,
                have_ei ==> w0 <= ei < end && last_quote(s, w0, end as int) == ei,
                have_ei ==> last_quote(s, 64 * (i as int), ei as int) == -1,
                have_ei ==> 64 * (i as int) <= ei,
            decreases i,
        {
            i = i - 1;
            let ghost base = 64 * (i as int);
            proof {
                if have_ei {
                    assert(base + 64 <= ei);
                }
                crate::builder::lemma_chunk_count(s.len() as int);
                assert(s.len() > 0) by {
                    if s.len() == 0 {
                        assert(chunk_count(0) == 0);
                    }
                }
                assert(64 * (i as int) <= 64 * (self.bitmaps@.len() - 1));
                assert(64 * (i as int) < s.len());
                vstd::arithmetic::div_mod::lemma_fundamental_div_mod(end as int, 64);
                assert(base <= end) by {
                    if hi == hi0 {
                        assert(i as int <= end as int / 64);
                        assert(base <= 64 * (end as int / 64));
                    } else {
                        assert(end as int / 64 + 1 >= nb as int);
                        assert(base <= 64 * (nb as int - 1));
                    }
                }
            }
            let base_u = i * 64;
            let mut m_quote = self.bitmaps[i].quote;
            let ghost mq0 = m_quote;
            let ghost mut xrel: int = 64;
            proof {
                assert forall|k: u64| k < 64 implies #[trigger] bit64(mq0, k) == struct_quote(
                    s,
                    base + k,
                ) by {
                    assert(bit64(self.bitmaps@[i as int].quote, k) == struct_quote(
                        s,
                        64 * (i as int) + k,
                    ));
                }
            }
            while m_quote != 0
                invariant
                    self.wf(),
                    s == self.record@,
                    begin <= end <= s.len(),
                    w0 == 64 * ((begin as int) / 64),
                    w0 == 64 * (lo as int),
                    lo <= i,
                    w0 <= base == 64 * (i as int),
                    0 <= xrel <= 64,
                    forall|k: u64|
                        k < 64 ==> #[trigger] bit64(mq0, k) == struct_quote(s, base + k),
                    forall|k: u64|
                        k < 64 ==> #[trigger] bit64(m_quote, k) == (bit64(mq0, k) && k < xrel),
                    base_u as int == base,
                    base <= end,
                    !have_ei ==> last_quote(s, base + xrel, end as int) == -1,
                    have_ei ==> w0 <= ei < end && last_quote(s, w0, end as int) == ei,
                    have_ei ==> last_quote(s, base + xrel, ei as int) == -1,
                    have_ei ==> base + xrel <= ei,
                decreases m_quote,
            {
                let lz = m_quote.leading_zeros();
                proof {
                    crate::bit::lemma_lz(m_quote);
                }
                let h_us = 63 - lz as usize;
                let ghost h = (63 - lz64(m_quote)) as u64;
                let ghost q = base + h;
                proof {
                    assert(bit64(m_quote, h));
                    assert(struct_quote(s, q));
                    assert(h_us as int == h);
                    assert(h < xrel);
                    // no structural quote in (q, base + xrel)
                    assert forall|p: int| q < p < base + xrel implies !struct_quote(s, p) by {
                        let k = (p - base) as u64;
                        assert(!bit64(m_quote, k));
                        assert(!bit64(mq0, k));
                    }
                }
                if h_us < end - base_u {
                    let offset = base_u + h_us;
                    if have_ei {
                        proof {
                            assert(q < ei);
                            // every position in (q, ei) holds no structural quote
                            assert forall|p: int| q < p < ei implies !struct_quote(s, p) by {
                                if p >= base + xrel {
                                    lemma_last_quote(s, base + xrel, ei as int);
                                }
                            }
                            lemma_last_quote_pin(s, w0, ei as int, q);
                        }
                        let si = offset + 1;
                        let name = slice_subrange(self.record, si, ei);
                        return Result::Ok((EscapedStr(name), si));
                    } else {
                        proof {
                            assert forall|p: int| q < p < end implies !struct_quote(s, p) by {
                                if p >= base + xrel {
                                    lemma_last_quote(s, base + xrel, end as int);
                                }
                            }
                            lemma_last_quote_pin(s, w0, end as int, q);
                        }
                        ei = offset;
                        have_ei = true;
                        proof {
                            xrel = h as int;
                            assert(last_quote(s, base + xrel, ei as int) == -1);
                        }
                    }
                } else {
                    proof {
                        xrel = h as int;
                        // the window [base + h, end) holds no position at all
                        assert(base + xrel >= end);
                        assert(last_quote(s, base + xrel, end as int) == -1);
                    }
                }
                let next = L(m_quote);
                proof {
                    crate::bit::lemma_lz(m_quote);
                    assert forall|k: u64| k < 64 implies #[trigger] bit64(next, k) == (bit64(
                        mq0,
                        k,
                    ) && k < xrel) by {
                        if bit64(next, k) {
                            assert(k != h);
                        }
                        if k > h {
                            assert(k + lz64(m_quote) >= 64);
                            assert(!bit64(m_quote, k));
                        }
                    }
                }
                m_quote = next;
            }
            proof {
                // the rest of the chunk holds no structural quote
                assert forall|p: int| base <= p < base + xrel implies !struct_quote(s, p) by {
                    let k = (p - base) as u64;
                    crate::bit::lemma_zero_word(k);
                    assert(!bit64(m_quote, k));
                    assert(!bit64(mq0, k));
                }
                if !have_ei {
                    lemma_last_quote_empty_ext(s, base, base + xrel, end as int);
                } else {
                    lemma_last_quote_empty_ext(s, base, base + xrel, ei as int);
                }
            }
        }
        proof {
            if have_ei {
                assert(last_quote(s, w0, ei as int) == -1);
            } else {
                assert(last_quote(s, w0, end as int) == -1);
            }
        }
        Result::Err(Error::InvalidRecord)
    }

    /// The value range of an object field: whitespace trimmed on both
    /// sides, then one trailing delimiter (`}` for the last field, `,`
    /// otherwise) dropped and the end trimmed again.
    pub fn find_object_value(&self, begin: usize, end: usize, is_last_field: bool) -> (r: (
        usize,
        usize,
    ))
        requires
            self.wf(),
            begin <= end,
            end <= self.record@.len(),
        ensures
            r == crate::index::object_value_range(
                self.record@,
                begin as int,
                end as int,
                if is_last_field {
                    RIGHT_BRACE
                } else {
                    crate::model::COMMA
                },
            ),
            begin <= r.0 <= r.1 <= end,
    {
        find_object_value(self.record, begin, end, if is_last_field { 0x7d } else { 0x2c })
    }

    /// The value range of an array element: whitespace trimmed on both
    /// sides.
    pub fn find_array_value(&self, begin: usize, end: usize) -> (r: (usize, usize))
        requires
            self.wf(),
            begin <= end,
            end <= self.record@.len(),
        ensures
            r.0 as int == trim_left(self.record@, begin as int, end as int),
            r.1 as int == trim_right(self.record@, r.0 as int, end as int),
            begin <= r.0 <= r.1 <= end,
    {
        find_array_value(self.record, begin, end)
    }

    /// The record bytes between `begin` and `end`, zero-copy.
    pub fn substr(&self, begin: usize, end: usize) -> (r: &'s [u8])
        requires
            begin <= end <= self.record@.len(),
        ensures
            r@ == self.record@.subrange(begin as int, end as int),
    {
        slice_subrange(self.record, begin, end)
    }
}

/// The bit index just above the highest still-unscanned bit of a chunk scan
/// working top-down (64 when nothing was scanned yet).
pub open spec fn top_unscanned(m: u64, base: int) -> int {
    if m == 0 {
        0
    } else {
        64 - lz64(m)
    }
}

/// Characterize `last_quote`: where it points there is a structural quote
/// and nothing above it inside the window.
proof fn lemma_last_quote(s: Seq<u8>, lo: int, hi: int)
    ensures
        last_quote(s, lo, hi) == -1 || lo <= last_quote(s, lo, hi) < hi,
        last_quote(s, lo, hi) >= 0 ==> struct_quote(s, last_quote(s, lo, hi)),
        forall|p: int| last_quote(s, lo, hi) < p < hi && p >= lo ==> !struct_quote(s, p),
    decreases hi - lo,
{
    if hi > lo && !struct_quote(s, hi - 1) {
        lemma_last_quote(s, lo, hi - 1);
    }
}

/// A quote with nothing above it pins `last_quote` down.
proof fn lemma_last_quote_pin(s: Seq<u8>, lo: int, hi: int, q: int)
    requires
        lo <= q < hi,
        struct_quote(s, q),
        forall|p: int| q < p < hi ==> !struct_quote(s, p),
    ensures
        last_quote(s, lo, hi) == q,
    decreases hi - q,
{
    if hi - 1 > q {
        lemma_last_quote_pin(s, lo, hi - 1, q);
    }
}

/// A window start can move down over a quote-free stretch without changing
/// an empty result.
proof fn lemma_last_quote_empty_ext(s: Seq<u8>, lo: int, m: int, hi: int)
    requires
        0 <= lo <= m,
        m >= hi || last_quote(s, m, hi) == -1,
        forall|p: int| lo <= p < m && p < hi ==> !struct_quote(s, p),
    ensures
        last_quote(s, lo, hi) == -1,
{
    lemma_last_quote(s, lo, hi);
    if last_quote(s, lo, hi) >= 0 {
        let r = last_quote(s, lo, hi);
        assert(lo <= r < hi);
        assert(struct_quote(s, r));
        if r >= m {
            assert(m < hi);
            lemma_last_quote(s, m, hi);
            assert(!struct_quote(s, r));
        } else {
            assert(!struct_quote(s, r));
        }
    }
}

/// Walk one flat bitmap and push every set bit's position inside
/// `[begin, end)`, ascending.
fn generate_positions(bitmap: &Vec<u64>, begin: usize, end: usize, cp: &mut Vec<usize>)
    requires
        old(cp)@.len() == 0,
        begin <= end,
        1 <= end,
        end <= 64 * bitmap@.len(),
    ensures
        forall|idx: int|
            0 <= idx < final(cp)@.len() ==> begin <= #[trigger] final(cp)@[idx] < end && word_bit(
                bitmap@,
                final(cp)@[idx] as int,
            ),
        forall|idx: int|
            0 <= idx && idx + 1 < final(cp)@.len()
                ==> #[trigger] final(cp)@[idx] < final(cp)@[idx + 1],
        forall|p: usize|
            begin <= p < end && word_bit(bitmap@, p as int) ==> final(cp)@.contains(p),
{
    let hi = (end - 1) / 64 + 1;
    proof {
        vstd::arithmetic::div_mod::lemma_fundamental_div_mod((end - 1) as int, 64);
        assert(hi as int <= bitmap@.len()) by {
            vstd::arithmetic::div_mod::lemma_fundamental_div_mod((end - 1) as int, 64);
            assert((end - 1) as int / 64 < bitmap@.len());
        }
    }
    let lo = begin / 64;
    proof {
        vstd::arithmetic::div_mod::lemma_fundamental_div_mod(begin as int, 64);
    }
    let mut i = lo;
    while i < hi
        invariant
            begin <= end,
            1 <= end <= 64 * bitmap@.len(),
            lo == begin as int / 64,
            hi == (end - 1) as int / 64 + 1,
            hi as int <= bitmap@.len(),
            64 * (hi as int) >= end,
            64 * (lo as int) <= begin as int,
            lo <= i <= hi,
            forall|idx: int|
                0 <= idx < cp@.len() ==> begin <= #[trigger] cp@[idx] < end && word_bit(
                    bitmap@,
                    cp@[idx] as int,
                ),
            forall|idx: int|
                0 <= idx && idx + 1 < cp@.len() ==> #[trigger] cp@[idx] < cp@[idx + 1],
            forall|idx: int| 0 <= idx < cp@.len() ==> #[trigger] cp@[idx] < 64 * (i as int),
            forall|p: usize|
                begin <= p < end && p < 64 * (i as int) && word_bit(bitmap@, p as int)
                    ==> cp@.contains(p),
        decreases hi - i,
    {
        proof {
            assert(64 * (i as int) <= 64 * ((end - 1) as int / 64));
            assert(64 * ((end - 1) as int / 64) <= end - 1) by {
                vstd::arithmetic::div_mod::lemma_fundamental_div_mod((end - 1) as int, 64);
            }
        }
        let base_u = i * 64;
        let mut m_bits = bitmap[i];
        let ghost mb0 = m_bits;
        let ghost base = 64 * (i as int);
        let ghost mut theta: int = 0;
        while m_bits != 0
            invariant
                begin <= end,
                1 <= end <= 64 * bitmap@.len(),
                lo <= i < hi,
                hi as int <= bitmap@.len(),
                base == 64 * (i as int),
                base_u as int == base,
                base <= end - 1,
                mb0 == bitmap@[i as int],
                0 <= theta <= 64,
                forall|k: u64|
                    k < 64 ==> #[trigger] bit64(m_bits, k) == (bit64(mb0, k) && k >= theta),
                forall|k: u64|
                    k < 64 && k < theta && #[trigger] bit64(mb0, k) ==> (begin <= base + k < end
                        ==> cp@.contains((base + k) as usize)),
                forall|idx: int|
                    0 <= idx < cp@.len() ==> begin <= #[trigger] cp@[idx] < end && word_bit(
                        bitmap@,
                        cp@[idx] as int,
                    ),
                forall|idx: int|
                    0 <= idx && idx + 1 < cp@.len() ==> #[trigger] cp@[idx] < cp@[idx + 1],
                forall|idx: int| 0 <= idx < cp@.len() ==> #[trigger] cp@[idx] < base + theta,
                forall|p: usize|
                    begin <= p < end && p < base && word_bit(bitmap@, p as int)
                        ==> cp@.contains(p),
            decreases m_bits,
        {
            let m_bit = crate::bit::E(m_bits);
            let t = m_bit.trailing_zeros();
            let ghost tt = tz64(m_bits);
            proof {
                crate::bit::lemma_tz(m_bits);
                crate::bit::lemma_single_bit(tt, tt);
                crate::bit::lemma_tz(m_bit);
                assert(bit64(m_bit, tz64(m_bit)));
                assert(t == tt);
                assert(tt >= theta);
            }
            let off_t = t as usize;
            let ghost snap = cp@;
            if off_t < end - base_u && base_u + off_t >= begin {
                let offset = base_u + off_t;
                proof {
                    assert(word_bit(bitmap@, offset as int)) by {
                        assert(bit64(mb0, tt));
                        assert((offset as int) / 64 == i as int && (offset as int) % 64
                            == tt as int) by {
                            vstd::arithmetic::div_mod::lemma_fundamental_div_mod(
                                offset as int,
                                64,
                            );
                        }
                    }
                }
                cp.push(offset);
            }
            let next = R(m_bits);
            proof {
                assert forall|p: usize| snap.contains(p) implies cp@.contains(p) by {
                    let idx = choose|idx: int| 0 <= idx < snap.len() && snap[idx] == p;
                    assert(cp@[idx] == p);
                }
                assert forall|k: u64|
                    k < 64 && k < tt + 1 && #[trigger] bit64(mb0, k) && begin <= base + k < end
                    implies cp@.contains((base + k) as usize) by {
                    if k == tt {
                        if begin <= base + k < end {
                            assert(cp@[cp@.len() - 1] == (base + tt) as usize);
                        }
                    } else if k >= theta {
                        assert(bit64(m_bits, k));
                        assert(k >= tt);
                    }
                }
                theta = tt + 1;
            }
            m_bits = next;
        }
        i = i + 1;
        proof {
            assert forall|p: usize|
                begin <= p < end && p < 64 * (i as int) && word_bit(bitmap@, p as int) implies
                cp@.contains(p) by {
                if p >= base {
                    let k = ((p as int) - base) as u64;
                    vstd::arithmetic::div_mod::lemma_fundamental_div_mod(p as int, 64);
                    assert(bit64(mb0, k));
                    assert(!bit64(m_bits, k)) by {
                        crate::bit::lemma_zero_word(k);
                    }
                    assert(k < theta);
                }
            }
        }
    }
    proof {
        assert forall|p: usize|
            begin <= p < end && word_bit(bitmap@, p as int) implies cp@.contains(p) by {
            assert((p as int) < 64 * (hi as int));
        }
    }
}

/// Where the name of the field before the colon at `c` starts, the scan
/// flooring its window at `fb`'s chunk; `-1` when two quotes are missing.
pub open spec fn field_start(s: Seq<u8>, fb: int, c: int) -> int {
    let w0 = 64 * (fb / 64);
    let fei = last_quote(s, w0, c);
    let fsm = last_quote(s, w0, fei);
    if fei >= 0 && fsm >= 0 {
        fsm + 1
    } else {
        -1
    }
}

/// The name of the field before the colon at `c`.
pub open spec fn field_label(s: Seq<u8>, fb: int, c: int) -> Seq<u8> {
    let w0 = 64 * (fb / 64);
    let fei = last_quote(s, w0, c);
    s.subrange(field_start(s, fb, c), fei)
}

/// The object-value range: whitespace trimmed, one trailing delimiter
/// collapsed, whitespace trimmed again.
pub open spec fn object_value_range(s: Seq<u8>, b: int, e: int, delim: u8) -> (usize, usize) {
    let b2 = trim_left(s, b, e);
    let e1 = trim_right(s, b2, e);
    let e2 = if e1 > b2 && s[e1 - 1] == delim {
        trim_right(s, b2, e1 - 1)
    } else {
        e1
    };
    (b2 as usize, e2 as usize)
}

/// Trim `s[begin..end]` for an object value: both ends of whitespace, then
/// one trailing `delim`, then the tail whitespace that the delimiter hid.
pub fn find_object_value(s: &[u8], begin: usize, end: usize, delim: u8) -> (r: (usize, usize))
    requires
        begin <= end <= s@.len(),
    ensures
        r == object_value_range(s@, begin as int, end as int, delim),
        begin <= r.0 <= r.1 <= end,
{
    let b = trim_ws_left(s, begin, end);
    let mut e = trim_ws_right(s, b, end);
    if e > b && s[e - 1] == delim {
        e = trim_ws_right(s, b, e - 1);
    }
    (b, e)
}

/// Trim `s[begin..end]` for an array element: whitespace only.
pub fn find_array_value(s: &[u8], begin: usize, end: usize) -> (r: (usize, usize))
    requires
        begin <= end <= s@.len(),
    ensures
        r.0 == trim_left(s@, begin as int, end as int),
        r.1 == trim_right(s@, r.0 as int, end as int),
        begin <= r.0 <= r.1 <= end,
{
    let b = trim_ws_left(s, begin, end);
    let e = trim_ws_right(s, b, end);
    (b, e)
}

/// Advance the left edge over ASCII whitespace.
pub(crate) fn trim_ws_left(s: &[u8], begin: usize, end: usize) -> (r: usize)
    requires
        begin <= end <= s@.len(),
    ensures
        r == trim_left(s@, begin as int, end as int),
        begin <= r <= end,
{
    let mut b = begin;
    while b < end && (s[b] == 0x20 || s[b] == 0x09 || s[b] == 0x0d || s[b] == 0x0a)
        invariant
            begin <= b <= end <= s@.len(),
            trim_left(s@, begin as int, end as int) == trim_left(s@, b as int, end as int),
        decreases end - b,
    {
        proof {
            assert(is_ws(s@[b as int]));
        }
        b = b + 1;
    }
    proof {
        if b < end {
            assert(!is_ws(s@[b as int]));
        }
    }
    b
}

/// Pull the right edge back over ASCII whitespace.
pub(crate) fn trim_ws_right(s: &[u8], begin: usize, end: usize) -> (r: usize)
    requires
        begin <= end <= s@.len(),
    ensures
        r == trim_right(s@, begin as int, end as int),
        begin <= r <= end,
{
    let mut e = end;
    while e > begin && (s[e - 1] == 0x20 || s[e - 1] == 0x09 || s[e - 1] == 0x0d || s[e - 1]
        == 0x0a)
        invariant
            begin <= e <= end <= s@.len(),
            trim_right(s@, begin as int, end as int) == trim_right(s@, begin as int, e as int),
        decreases e,
    {
        proof {
            assert(is_ws(s@[e - 1]));
        }
        e = e - 1;
    }
    proof {
        if e > begin {
            assert(!is_ws(s@[e - 1]));
        }
    }
    e
}


/// Each leveled bitmap is a subset of the structural colon (or comma)
/// bitmap: the builder only ever clears bits out of the copies it starts
/// from, so a set bit of `b_colon[l]` is always a structural colon of the
/// record, and likewise for commas.
pub proof fn lemma_leveled_subset(idx: StructuralIndex<'_>, l: int, w: int, k: u64)
    requires
        idx.wf(),
        0 <= l < idx.level_spec(),
        0 <= w < idx.bitmaps@.len(),
        k < 64,
    ensures
        bit64(idx.b_colon@[l]@[w], k) ==> bit64(idx.bitmaps@[w].colon, k),
        bit64(idx.b_comma@[l]@[w], k) ==> bit64(idx.bitmaps@[w].comma, k),
{
    if bit64(idx.b_colon@[l]@[w], k) {
        assert(colon_at_level(idx.record@, l, 64 * w + k));
        assert(crate::model::struct_char(idx.record@, 64 * w + k, crate::model::COLON));
    }
    if bit64(idx.b_comma@[l]@[w], k) {
        assert(comma_at_level(idx.record@, l, 64 * w + k));
        assert(crate::model::struct_char(idx.record@, 64 * w + k, crate::model::COMMA));
    }
}


/// What a leveled bit means, at the bitmap: in a (balanced) indexed record,
/// the level-`l` colon bitmap keeps exactly the structural colons around
/// which at most `l + 1` delimiters are open — whose nesting depth, counting
/// 0 at the outermost scope, is at most `l`; commas likewise. A colon of
/// depth exactly `l` is thus a bit set at level `l` and, for `l >= 1`, clear
/// at level `l - 1`.
pub proof fn lemma_level_bit_is_depth(idx: StructuralIndex<'_>, l: int, w: int, k: u64)
    requires
        idx.wf(),
        0 <= l < idx.level_spec(),
        0 <= w < idx.bitmaps@.len(),
        k < 64,
    ensures
        bit64(idx.b_colon@[l]@[w], k) <==> (crate::model::struct_char(
            idx.record@,
            64 * w + k,
            crate::model::COLON,
        ) && crate::model::the_stack(idx.record@, 64 * w + k + 1).len() <= l + 1),
        bit64(idx.b_comma@[l]@[w], k) <==> (crate::model::struct_char(
            idx.record@,
            64 * w + k,
            crate::model::COMMA,
        ) && crate::model::the_stack(idx.record@, 64 * w + k + 1).len() <= l + 1),
{
    let s = idx.record@;
    let q = 64 * w + k;
    assert(bit64(idx.b_colon@[l]@[w], k) == colon_at_level(s, l, q));
    assert(bit64(idx.b_comma@[l]@[w], k) == comma_at_level(s, l, q));
    if 0 <= q < s.len() {
        crate::model::lemma_level_means_depth(s, l, q);
    }
}


/// Index construction is deterministic: two well-formed indexes of the same
/// record, built for the same level, agree on every bitmap word. Rebuilding
/// a record can only reproduce the same structural index.
pub proof fn lemma_index_deterministic(a: StructuralIndex<'_>, b: StructuralIndex<'_>)
    requires
        a.wf(),
        b.wf(),
        a.record@ == b.record@,
        a.level_spec() == b.level_spec(),
    ensures
        a.bitmaps@ == b.bitmaps@,
        forall|l: int, w: int|
            0 <= l < a.level_spec() && 0 <= w < a.bitmaps@.len() ==> #[trigger] a.b_colon@[l]@[w]
                == b.b_colon@[l]@[w],
        forall|l: int, w: int|
            0 <= l < a.level_spec() && 0 <= w < a.bitmaps@.len() ==> #[trigger] a.b_comma@[l]@[w]
                == b.b_comma@[l]@[w],
{
    assert(a.bitmaps@.len() == b.bitmaps@.len());
    assert forall|w: int| 0 <= w < a.bitmaps@.len() implies #[trigger] a.bitmaps@[w]
        == b.bitmaps@[w] by {
        crate::bit::lemma_bit_ext(a.bitmaps@[w].backslash, b.bitmaps@[w].backslash);
        crate::bit::lemma_bit_ext(a.bitmaps@[w].quote, b.bitmaps@[w].quote);
        crate::bit::lemma_bit_ext(a.bitmaps@[w].colon, b.bitmaps@[w].colon);
        crate::bit::lemma_bit_ext(a.bitmaps@[w].comma, b.bitmaps@[w].comma);
        crate::bit::lemma_bit_ext(a.bitmaps@[w].left_brace, b.bitmaps@[w].left_brace);
        crate::bit::lemma_bit_ext(a.bitmaps@[w].right_brace, b.bitmaps@[w].right_brace);
        crate::bit::lemma_bit_ext(a.bitmaps@[w].left_bracket, b.bitmaps@[w].left_bracket);
        crate::bit::lemma_bit_ext(a.bitmaps@[w].right_bracket, b.bitmaps@[w].right_bracket);
    }
    assert(a.bitmaps@ =~= b.bitmaps@);
    assert forall|l: int, w: int|
        0 <= l < a.level_spec() && 0 <= w < a.bitmaps@.len() implies #[trigger] a.b_colon@[l]@[w]
        == b.b_colon@[l]@[w] by {
        crate::bit::lemma_bit_ext(a.b_colon@[l]@[w], b.b_colon@[l]@[w]);
    }
    assert forall|l: int, w: int|
        0 <= l < a.level_spec() && 0 <= w < a.bitmaps@.len() implies #[trigger] a.b_comma@[l]@[w]
        == b.b_comma@[l]@[w] by {
        crate::bit::lemma_bit_ext(a.b_comma@[l]@[w], b.b_comma@[l]@[w]);
    }
}

} // verus!
