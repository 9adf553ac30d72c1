//! Spec-level vocabulary for records: structural characters, backslash runs,
//! structural quotes, string-interior positions, and the delimiter stack that
//! defines which positions the leveled bitmaps keep.

use vstd::prelude::*;

verus! {

pub const BACKSLASH: u8 = 0x5c;

pub const QUOTE: u8 = 0x22;

pub const COLON: u8 = 0x3a;

pub const COMMA: u8 = 0x2c;

pub const LEFT_BRACE: u8 = 0x7b;

pub const RIGHT_BRACE: u8 = 0x7d;

pub const LEFT_BRACKET: u8 = 0x5b;

pub const RIGHT_BRACKET: u8 = 0x5d;

/// Byte `p` of `s` exists and equals `c`.
pub open spec fn is_char(s: Seq<u8>, p: int, c: u8) -> bool {
    0 <= p < s.len() && s[p] == c
}

/// Length of the run of consecutive backslash bytes that ends just before `p`.
pub open spec fn bs_run(s: Seq<u8>, p: int) -> nat
    decreases p,
{
    if p <= 0 || p > s.len() {
        0
    } else if s[p - 1] == BACKSLASH {
        1 + bs_run(s, p - 1)
    } else {
        0
    }
}

/// A position preceded by an odd-length run of backslashes; a quote here is
/// escaped and does not open or close a string.
pub open spec fn escaped(s: Seq<u8>, p: int) -> bool {
    bs_run(s, p) % 2 == 1
}

/// A backslash run never reaches past the start of the record nor counts
/// more bytes than the record holds.
pub proof fn lemma_bs_run_le(s: Seq<u8>, p: int)
    requires
        p >= 0,
    ensures
        bs_run(s, p) <= p,
        bs_run(s, p) <= s.len(),
    decreases p,
{
    if p > 0 && p <= s.len() && s[p - 1] == BACKSLASH {
        lemma_bs_run_le(s, p - 1);
    }
}

/// A backslash at `p` whose run up to and including it has odd length, with
/// a quote byte just after it: that quote is escaped, and the builder marks
/// bit `p` while correcting the quote bitmap.
pub open spec fn esc_mark(s: Seq<u8>, p: int) -> bool {
    is_char(s, p, BACKSLASH) && is_char(s, p + 1, QUOTE) && bs_run(s, p + 1) % 2 == 1
}

/// The number of 64-byte chunks that cover a record of `n` bytes.
pub open spec fn chunk_count(n: int) -> int {
    (n + 63) / 64
}

/// A structural quote: a quote byte that is not escaped.
pub open spec fn struct_quote(s: Seq<u8>, p: int) -> bool {
    is_char(s, p, QUOTE) && !escaped(s, p)
}

/// The number of structural quotes strictly before `p`.
pub open spec fn sq_count(s: Seq<u8>, p: int) -> nat
    decreases p,
{
    if p <= 0 {
        0
    } else {
        sq_count(s, p - 1) + if struct_quote(s, p - 1) {
            1nat
        } else {
            0nat
        }
    }
}

/// Byte `p` lies inside a string literal: an odd number of structural quotes
/// precede it (the opening quote itself counts as outside, the closing one as
/// inside).
pub open spec fn in_string(s: Seq<u8>, p: int) -> bool {
    sq_count(s, p) % 2 == 1
}

/// Structural quotes are never more numerous than the record's bytes.
pub proof fn lemma_sq_count_le(s: Seq<u8>, p: int)
    ensures
        sq_count(s, p) <= s.len(),
        0 <= p <= s.len() ==> sq_count(s, p) <= p,
    decreases p,
{
    if p > 0 {
        lemma_sq_count_le(s, p - 1);
        if p > s.len() {
            assert(!struct_quote(s, p - 1));
        }
    }
}

/// The structural-quote count grows with the position.
pub proof fn lemma_sq_count_mono(s: Seq<u8>, a: int, b: int)
    requires
        a <= b,
    ensures
        sq_count(s, a) <= sq_count(s, b),
    decreases b - a,
{
    if a < b {
        lemma_sq_count_mono(s, a, b - 1);
    }
}

/// A stretch without structural quotes does not change the count.
pub proof fn lemma_sq_count_same(s: Seq<u8>, a: int, b: int)
    requires
        a <= b,
        forall|p: int| a <= p < b ==> !struct_quote(s, p),
    ensures
        sq_count(s, b) == sq_count(s, a),
    decreases b - a,
{
    if a < b {
        lemma_sq_count_same(s, a, b - 1);
    }
}

/// A structural occurrence of `c`: the byte matches and lies outside every
/// string literal.
pub open spec fn struct_char(s: Seq<u8>, p: int, c: u8) -> bool {
    is_char(s, p, c) && !in_string(s, p)
}

/// An opening `{` or `[` outside strings.
pub open spec fn is_open_delim(s: Seq<u8>, p: int) -> bool {
    struct_char(s, p, LEFT_BRACE) || struct_char(s, p, LEFT_BRACKET)
}

/// A closing `}` or `]` outside strings.
pub open spec fn is_close_delim(s: Seq<u8>, p: int) -> bool {
    struct_char(s, p, RIGHT_BRACE) || struct_char(s, p, RIGHT_BRACKET)
}

/// The stack of still-open delimiters after reading `s[..p]`. Each entry is
/// the position of a structural `{` or `[` (`true` for `{`) not yet closed.
/// `None` once a close fails to match: it closes an empty stack or a
/// delimiter of the other kind.
pub open spec fn delim_stack(s: Seq<u8>, p: int) -> Option<Seq<(int, bool)>>
    decreases p,
{
    if p <= 0 {
        Some(Seq::empty())
    } else {
        match delim_stack(s, p - 1) {
            Option::None => Option::None,
            Option::Some(st) => {
                if is_open_delim(s, p - 1) {
                    Some(st.push((p - 1, s[p - 1] == LEFT_BRACE)))
                } else if is_close_delim(s, p - 1) {
                    if st.len() == 0 {
                        Option::None
                    } else if st.last().1 != (s[p - 1] == RIGHT_BRACE) {
                        Option::None
                    } else {
                        Some(st.drop_last())
                    }
                } else {
                    Some(st)
                }
            },
        }
    }
}

/// No close up to `p` has failed to match.
pub open spec fn stack_ok(s: Seq<u8>, p: int) -> bool {
    delim_stack(s, p) is Some
}

/// The delimiter stack after reading `s[..p]` (empty when a close failed).
pub open spec fn the_stack(s: Seq<u8>, p: int) -> Seq<(int, bool)> {
    match delim_stack(s, p) {
        Option::Some(st) => st,
        Option::None => Seq::empty(),
    }
}

/// Every close in `s` matches its open, and nothing stays open at the end.
pub open spec fn delims_balanced(s: Seq<u8>) -> bool {
    stack_ok(s, s.len() as int) && the_stack(s, s.len() as int).len() == 0
}

/// The close at `r` ends a scope that the builder masks out of the level-`l`
/// bitmaps, and position `q` lies inside that scope. The scope's opening
/// position is the top of the stack just before `r`; the scope is masked at
/// level `l` exactly when, after the pop, `l + 1` delimiters remain open.
pub open spec fn close_clears(s: Seq<u8>, r: int, l: int, q: int) -> bool {
    &&& is_close_delim(s, r)
    &&& stack_ok(s, r)
    &&& the_stack(s, r).len() >= 2
    &&& the_stack(s, r).last().1 == (s[r] == RIGHT_BRACE)
    &&& the_stack(s, r).len() - 2 == l
    &&& the_stack(s, r).last().0 <= q < r
}

/// Position `q` is masked out of the level-`l` bitmaps by some closed scope.
pub open spec fn cleared(s: Seq<u8>, l: int, q: int) -> bool {
    exists|r: int| close_clears(s, r, l, q)
}

/// Position `q` is masked out of the level-`l` bitmaps by a scope whose
/// close lies before `cur`.
pub open spec fn cleared_upto(s: Seq<u8>, l: int, q: int, cur: int) -> bool {
    exists|r: int| r < cur && #[trigger] close_clears(s, r, l, q)
}

/// Positions without a structural delimiter leave the stack unchanged.
pub proof fn lemma_stack_skip(s: Seq<u8>, a: int, b: int)
    requires
        0 <= a <= b,
        forall|p: int| a <= p < b ==> !is_open_delim(s, p) && !is_close_delim(s, p),
    ensures
        delim_stack(s, b) == delim_stack(s, a),
    decreases b - a,
{
    if a < b {
        lemma_stack_skip(s, a, b - 1);
    }
}

/// Once a close has failed to match, the stack stays failed.
pub proof fn lemma_stack_none(s: Seq<u8>, a: int, b: int)
    requires
        0 <= a <= b,
        delim_stack(s, a) is None,
    ensures
        delim_stack(s, b) is None,
    decreases b - a,
{
    if a < b {
        lemma_stack_none(s, a, b - 1);
    }
}

/// Once every close of the record lies before `cur`, the bounded clearing
/// predicate coincides with the unbounded one.
pub proof fn lemma_cleared_upto_all(s: Seq<u8>, l: int, q: int, cur: int)
    requires
        cur >= s.len(),
    ensures
        cleared_upto(s, l, q, cur) == cleared(s, l, q),
{
    if cleared(s, l, q) {
        let r = choose|r: int| close_clears(s, r, l, q);
        assert(r < cur && close_clears(s, r, l, q));
    }
}

/// A bit that the level-`l` colon bitmap keeps.
pub open spec fn colon_at_level(s: Seq<u8>, l: int, q: int) -> bool {
    struct_char(s, q, COLON) && !cleared(s, l, q)
}

/// A bit that the level-`l` comma bitmap keeps.
pub open spec fn comma_at_level(s: Seq<u8>, l: int, q: int) -> bool {
    struct_char(s, q, COMMA) && !cleared(s, l, q)
}

/// ASCII whitespace as trimmed around values: space, tab, CR, LF.
pub open spec fn is_ws(c: u8) -> bool {
    c == 0x20 || c == 0x09 || c == 0x0d || c == 0x0a
}

/// The left edge of `s[b..e]` once leading whitespace is dropped.
pub open spec fn trim_left(s: Seq<u8>, b: int, e: int) -> int
    decreases e - b,
{
    if b < e && b >= 0 && b < s.len() && is_ws(s[b]) {
        trim_left(s, b + 1, e)
    } else {
        b
    }
}

/// The right edge of `s[b..e]` once trailing whitespace is dropped.
pub open spec fn trim_right(s: Seq<u8>, b: int, e: int) -> int
    decreases e - b,
{
    if e > b && e >= 1 && e <= s.len() && is_ws(s[e - 1]) {
        trim_right(s, b, e - 1)
    } else {
        e
    }
}

/// The position of the rightmost structural quote in `s[lo..hi]`, or `-1`.
pub open spec fn last_quote(s: Seq<u8>, lo: int, hi: int) -> int
    decreases hi - lo,
{
    if hi <= lo {
        -1
    } else if struct_quote(s, hi - 1) {
        hi - 1
    } else {
        last_quote(s, lo, hi - 1)
    }
}


/// A consistent stack stays consistent when read earlier.
pub proof fn lemma_stack_ok_earlier(s: Seq<u8>, a: int, b: int)
    requires
        0 <= a <= b,
        stack_ok(s, b),
    ensures
        stack_ok(s, a),
{
    if !stack_ok(s, a) {
        lemma_stack_none(s, a, b);
    }
}

/// Between an open delimiter and its close, the stack keeps that delimiter
/// pinned at its index: nothing below it moves.
proof fn lemma_stack_pinned(s: Seq<u8>, r: int, l: int, entry: (int, bool), p: int)
    requires
        stack_ok(s, r),
        the_stack(s, r).len() == l + 2,
        l + 1 >= 0,
        the_stack(s, r)[l + 1] == entry,
        entry.0 + 1 <= p <= r,
        entry.0 >= 0,
    ensures
        stack_ok(s, p),
        the_stack(s, p).len() >= l + 2,
        the_stack(s, p)[l + 1] == entry,
    decreases r - p,
{
    lemma_stack_ok_earlier(s, p, r);
    if p < r {
        lemma_stack_pinned(s, r, l, entry, p + 1);
        let st = the_stack(s, p);
        let st1 = the_stack(s, p + 1);
        if is_open_delim(s, p) {
            assert(st1 == st.push((p, s[p] == LEFT_BRACE)));
            if st1.len() == l + 2 {
                assert(st1[l + 1] == (p, s[p] == LEFT_BRACE));
                assert(entry.0 == p);
                assert(false);
            }
        } else if is_close_delim(s, p) {
            assert(st1 == st.drop_last());
        } else {
            assert(st1 == st);
        }
    }
}

/// A scope that the builder carves out of level `l` encloses only positions
/// whose stack depth exceeds `l + 1`: a shallow position is never cleared.
pub proof fn lemma_cleared_is_deep(s: Seq<u8>, r: int, l: int, q: int)
    requires
        close_clears(s, r, l, q),
    ensures
        stack_ok(s, q + 1),
        the_stack(s, q + 1).len() >= l + 2,
{
    let st = the_stack(s, r);
    let entry = st.last();
    assert(st[l + 1] == entry);
    assert(entry.0 <= q < r);
    assert(0 <= entry.0) by {
        lemma_stack_positions(s, r);
    }
    lemma_stack_pinned(s, r, l, entry, q + 1);
}

/// Every stack entry records a position before the read point.
proof fn lemma_stack_positions(s: Seq<u8>, p: int)
    ensures
        forall|idx: int|
            0 <= idx < the_stack(s, p).len() ==> 0 <= (#[trigger] the_stack(s, p)[idx]).0 < p,
    decreases p,
{
    if p > 0 {
        lemma_stack_positions(s, p - 1);
        let st = the_stack(s, p - 1);
        if stack_ok(s, p - 1) && is_close_delim(s, p - 1) && st.len() > 0 && st.last().1 == (s[p
            - 1] == RIGHT_BRACE) {
            assert forall|idx: int|
                0 <= idx < the_stack(s, p).len() implies 0 <= (#[trigger] the_stack(s, p)[
            idx]).0 < p by {
                assert(the_stack(s, p)[idx] == st[idx]);
            }
        }
    }
}

/// A structural colon whose enclosing stack reaches no deeper than `l + 1`
/// keeps its bit in the level-`l` colon bitmap; commas likewise. This is
/// the completeness half of the leveled carve-out: no shallow position is
/// ever masked out.
pub proof fn lemma_shallow_position_kept(s: Seq<u8>, l: int, q: int)
    requires
        stack_ok(s, q + 1),
        the_stack(s, q + 1).len() <= l + 1,
    ensures
        !cleared(s, l, q),
{
    if cleared(s, l, q) {
        let r = choose|r: int| close_clears(s, r, l, q);
        lemma_cleared_is_deep(s, r, l, q);
    }
}


/// In a balanced record, an open pinned at index `l + 1` of the stack is
/// eventually closed: there is a matching close while it is still pinned.
proof fn lemma_matching_close(s: Seq<u8>, p: int, l: int, entry: (int, bool))
    requires
        delims_balanced(s),
        0 <= p <= s.len(),
        l + 1 >= 0,
        the_stack(s, p).len() >= l + 2,
        the_stack(s, p)[l + 1] == entry,
    ensures
        exists|r: int|
            p <= r < s.len() && #[trigger] is_close_delim(s, r) && stack_ok(s, r) && the_stack(
                s,
                r,
            ).len() == l + 2 && the_stack(s, r)[l + 1] == entry && the_stack(s, r).last().1 == (
            s[r] == RIGHT_BRACE),
    decreases s.len() - p,
{
    assert(p < s.len());
    lemma_stack_ok_earlier(s, p, s.len() as int);
    lemma_stack_ok_earlier(s, p + 1, s.len() as int);
    let st = the_stack(s, p);
    let st1 = the_stack(s, p + 1);
    if is_open_delim(s, p) {
        assert(st1 == st.push((p, s[p] == LEFT_BRACE)));
        lemma_matching_close(s, p + 1, l, entry);
    } else if is_close_delim(s, p) {
        assert(st.len() > 0 && st.last().1 == (s[p] == RIGHT_BRACE));
        assert(st1 == st.drop_last());
        if st.len() == l + 2 {
            assert(st.last() == st[l + 1]);
            assert(p <= p < s.len() && is_close_delim(s, p) && stack_ok(s, p) && the_stack(
                s,
                p,
            ).len() == l + 2 && the_stack(s, p)[l + 1] == entry && the_stack(s, p).last().1 == (
            s[p] == RIGHT_BRACE));
        } else {
            lemma_matching_close(s, p + 1, l, entry);
        }
    } else {
        assert(st1 == st);
        lemma_matching_close(s, p + 1, l, entry);
    }
}

/// In a balanced record, a position enclosed deeper than `l + 1` open
/// delimiters is always carved out of level `l`.
pub proof fn lemma_deep_position_cleared(s: Seq<u8>, l: int, q: int)
    requires
        delims_balanced(s),
        0 <= q < s.len(),
        l >= 0,
        the_stack(s, q + 1).len() >= l + 2,
    ensures
        cleared(s, l, q),
{
    lemma_stack_ok_earlier(s, q + 1, s.len() as int);
    let entry = the_stack(s, q + 1)[l + 1];
    lemma_stack_positions(s, q + 1);
    assert(entry.0 <= q);
    lemma_matching_close(s, q + 1, l, entry);
    let r = choose|r: int|
        q + 1 <= r < s.len() && #[trigger] is_close_delim(s, r) && stack_ok(s, r) && the_stack(
            s,
            r,
        ).len() == l + 2 && the_stack(s, r)[l + 1] == entry && the_stack(s, r).last().1 == (s[r]
            == RIGHT_BRACE);
    assert(the_stack(s, r).last() == the_stack(s, r)[l + 1]);
    assert(close_clears(s, r, l, q));
}

/// The corrected statement of what a leveled bit means, in terms of nesting
/// depth: in a balanced record, position `q` survives at level `l` exactly
/// when at most `l + 1` delimiters are open around it — its nesting depth,
/// counting 0 at the outermost scope, is at most `l`. A scope's own colons
/// thus stay visible at every level from their depth upward.
pub proof fn lemma_level_means_depth(s: Seq<u8>, l: int, q: int)
    requires
        delims_balanced(s),
        0 <= q < s.len(),
        l >= 0,
    ensures
        !cleared(s, l, q) <==> the_stack(s, q + 1).len() <= l + 1,
{
    lemma_stack_ok_earlier(s, q + 1, s.len() as int);
    if the_stack(s, q + 1).len() <= l + 1 {
        lemma_shallow_position_kept(s, l, q);
    } else {
        lemma_deep_position_cleared(s, l, q);
    }
}


/// The ascending list of the level-`l` colon positions in `[begin, end)`.
pub open spec fn colon_list(s: Seq<u8>, begin: int, end: int, l: int) -> Seq<int>
    decreases end - begin,
{
    if begin >= end {
        Seq::empty()
    } else if colon_at_level(s, l, begin) {
        seq![begin] + colon_list(s, begin + 1, end, l)
    } else {
        colon_list(s, begin + 1, end, l)
    }
}

/// Any sound, ascending and complete collection of the level-`l` colons of
/// `[begin, end)` is the canonical list.
pub proof fn lemma_colon_list_unique(s: Seq<u8>, begin: int, end: int, l: int, q: Seq<int>)
    requires
        forall|idx: int|
            0 <= idx < q.len() ==> begin <= #[trigger] q[idx] < end && colon_at_level(
                s,
                l,
                q[idx],
            ),
        forall|idx: int| 0 <= idx && idx + 1 < q.len() ==> #[trigger] q[idx] < q[idx + 1],
        forall|p: int| begin <= p < end && colon_at_level(s, l, p) ==> q.contains(p),
    ensures
        q == colon_list(s, begin, end, l),
    decreases end - begin,
{
    if begin >= end {
        assert(q.len() == 0) by {
            if q.len() > 0 {
                assert(begin <= q[0] < end);
            }
        }
        assert(q =~= colon_list(s, begin, end, l));
    } else if colon_at_level(s, l, begin) {
        assert(q.contains(begin));
        let idx0 = choose|idx: int| 0 <= idx < q.len() && q[idx] == begin;
        assert(idx0 == 0) by {
            if idx0 > 0 {
                assert(q[idx0 - 1] < q[idx0]);
                assert(q[idx0 - 1] >= begin);
            }
        }
        let rest = q.drop_first();
        assert forall|idx: int|
            0 <= idx < rest.len() implies begin + 1 <= #[trigger] rest[idx] < end
            && colon_at_level(s, l, rest[idx]) by {
            assert(rest[idx] == q[idx + 1]);
            assert(q[idx] < q[idx + 1]);
            assert(q[idx] >= begin);
        }
        assert forall|p: int|
            begin + 1 <= p < end && colon_at_level(s, l, p) implies rest.contains(p) by {
            assert(q.contains(p));
            let idx = choose|idx: int| 0 <= idx < q.len() && q[idx] == p;
            assert(idx > 0) by {
                if idx == 0 {
                    assert(q[0] == begin);
                }
            }
            assert(rest[idx - 1] == p);
        }
        lemma_colon_list_unique(s, begin + 1, end, l, rest);
        assert(q =~= seq![begin] + rest);
    } else {
        assert forall|idx: int|
            0 <= idx < q.len() implies begin + 1 <= #[trigger] q[idx] < end && colon_at_level(
            s,
            l,
            q[idx],
        ) by {
            if q[idx] == begin {
                assert(colon_at_level(s, l, begin));
            }
        }
        lemma_colon_list_unique(s, begin + 1, end, l, q);
    }
}


/// The ascending list of the level-`l` comma positions in `[begin, end)`.
pub open spec fn comma_list(s: Seq<u8>, begin: int, end: int, l: int) -> Seq<int>
    decreases end - begin,
{
    if begin >= end {
        Seq::empty()
    } else if comma_at_level(s, l, begin) {
        seq![begin] + comma_list(s, begin + 1, end, l)
    } else {
        comma_list(s, begin + 1, end, l)
    }
}

/// Any sound, ascending and complete collection of the level-`l` commas of
/// `[begin, end)` is the canonical list.
pub proof fn lemma_comma_list_unique(s: Seq<u8>, begin: int, end: int, l: int, q: Seq<int>)
    requires
        forall|idx: int|
            0 <= idx < q.len() ==> begin <= #[trigger] q[idx] < end && comma_at_level(
                s,
                l,
                q[idx],
            ),
        forall|idx: int| 0 <= idx && idx + 1 < q.len() ==> #[trigger] q[idx] < q[idx + 1],
        forall|p: int| begin <= p < end && comma_at_level(s, l, p) ==> q.contains(p),
    ensures
        q == comma_list(s, begin, end, l),
    decreases end - begin,
{
    if begin >= end {
        assert(q.len() == 0) by {
            if q.len() > 0 {
                assert(begin <= q[0] < end);
            }
        }
        assert(q =~= comma_list(s, begin, end, l));
    } else if comma_at_level(s, l, begin) {
        assert(q.contains(begin));
        let idx0 = choose|idx: int| 0 <= idx < q.len() && q[idx] == begin;
        assert(idx0 == 0) by {
            if idx0 > 0 {
                assert(q[idx0 - 1] < q[idx0]);
                assert(q[idx0 - 1] >= begin);
            }
        }
        let rest = q.drop_first();
        assert forall|idx: int|
            0 <= idx < rest.len() implies begin + 1 <= #[trigger] rest[idx] < end
            && comma_at_level(s, l, rest[idx]) by {
            assert(rest[idx] == q[idx + 1]);
            assert(q[idx] < q[idx + 1]);
            assert(q[idx] >= begin);
        }
        assert forall|p: int|
            begin + 1 <= p < end && comma_at_level(s, l, p) implies rest.contains(p) by {
            assert(q.contains(p));
            let idx = choose|idx: int| 0 <= idx < q.len() && q[idx] == p;
            assert(idx > 0) by {
                if idx == 0 {
                    assert(q[0] == begin);
                }
            }
            assert(rest[idx - 1] == p);
        }
        lemma_comma_list_unique(s, begin + 1, end, l, rest);
        assert(q =~= seq![begin] + rest);
    } else {
        assert forall|idx: int|
            0 <= idx < q.len() implies begin + 1 <= #[trigger] q[idx] < end && comma_at_level(
            s,
            l,
            q[idx],
        ) by {
            if q[idx] == begin {
                assert(comma_at_level(s, l, begin));
            }
        }
        lemma_comma_list_unique(s, begin + 1, end, l, q);
    }
}

} // verus!
