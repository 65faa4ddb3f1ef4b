//! Word boundaries stated by the UAX #29 rules over the categories around
//! each scalar, with `Extend`, `Format` and `ZWJ` scalars attached by WB4,
//! and proofs that both state machines end segments exactly there, on every
//! text but two patterns on which the forward and reverse rules differ; so
//! that on those texts segmentation from the back is segmentation from the
//! front, for the iterators and for the cursor.

use crate::utf8_len::{
    byte_offset, lemma_byte_offset_full, lemma_byte_offset_injective, lemma_byte_offset_mono,
    lemma_byte_offset_step, lemma_utf8_len_concat, utf8_len,
};
use crate::word::{
    first_segment_len, last_segment_index, lemma_first_segment_len, lemma_last_segment_index,
};
use crate::word_cat::{
    connector_matches, extended_pictographic, is_ahletter, is_connector_after,
    is_connector_before, is_ignored, is_newline, pair_matches, word_cat, WordCat,
};
use crate::word_cursor::{
    feed_backward, first_boundary_after, first_segment_end, forward_query_cut,
    last_boundary_before, last_segment_start, law_forward_query_any_partition,
    law_reverse_any_partition, law_reverse_query_any_partition, lemma_fresh_wf, reverse_query_cut,
    WordCursor, WordCursorError, WordCursorResult,
};
use crate::word_cursor_forward::{
    forward_finish, forward_init, forward_scan, forward_step, ForwardPending, ForwardState,
    Significant,
};
use crate::word_cursor_reverse::{
    reverse_finish, reverse_init, reverse_scan, reverse_step, ReversePending,
    ReverseRegional, ReverseState,
};
use crate::word_directions::{
    last_forward_start, lemma_feed_backward_boundary_cursor, reverse_cursor_walk,
    word_bound_offsets, word_segments,
};
use vstd::prelude::*;

verus! {

/// The category of the `i`-th scalar of `d`.
pub open spec fn cat_at(d: Seq<char>, i: int) -> WordCat {
    word_cat(d[i])
}

/// A category that may stand between two joined scalars (WB6/WB7, WB7b/WB7c,
/// WB11/WB12).
pub open spec fn is_mid(c: WordCat) -> bool {
    c == WordCat::MidLetter || c == WordCat::MidNumLet || c == WordCat::SingleQuote || c
        == WordCat::DoubleQuote || c == WordCat::MidNum
}

/// Scalar `i` of `d` is an `Extend`, `Format` or `ZWJ` scalar that WB4
/// attaches to the scalar before it (one that is not a newline).
pub open spec fn absorbed(d: Seq<char>, i: int) -> bool {
    0 < i < d.len() && is_ignored(cat_at(d, i)) && !is_newline(cat_at(d, i - 1))
}

/// The last scalar before `j` that WB4 attaches to nothing.
pub open spec fn lsig(d: Seq<char>, j: int) -> int
    decreases j,
{
    if j <= 1 {
        0
    } else if !absorbed(d, j - 1) {
        j - 1
    } else {
        lsig(d, j - 1)
    }
}

/// The first scalar after `j` that WB4 attaches to nothing, or the end.
pub open spec fn nsig(d: Seq<char>, j: int) -> int
    decreases d.len() - j,
{
    if j + 1 >= d.len() {
        d.len() as int
    } else if !absorbed(d, j + 1) {
        j + 1
    } else {
        nsig(d, j + 1)
    }
}

/// The number of regional indicators, with what WB4 attaches to them, that
/// run up to scalar offset `j` of `d`.
pub open spec fn ri_run(d: Seq<char>, j: int) -> int
    decreases j,
{
    if j <= 0 {
        0
    } else if absorbed(d, j - 1) {
        ri_run(d, j - 1)
    } else if cat_at(d, j - 1) == WordCat::RegionalIndicator {
        1 + ri_run(d, j - 1)
    } else {
        0
    }
}

/// The scalars at `j - 1` and `j` of `d` lie in one word segment under the
/// UAX #29 rules: an attached `Extend`, `Format` or `ZWJ` (WB4); CR LF (WB3);
/// two spaces (WB3d); or, between `j` and the last scalar before it that WB4
/// attaches to nothing, a joined pair (WB5-WB13b), either side of a connector
/// between joined scalars (WB6/WB7, WB7b/WB7c, WB11/WB12), or a regional
/// indicator completing a pair (WB15/WB16).
pub open spec fn joined(d: Seq<char>, j: int) -> bool {
    let raw = cat_at(d, j - 1);
    let r = cat_at(d, j);
    let p = lsig(d, j);
    let l = cat_at(d, p);
    if is_ignored(r) {
        !is_newline(raw)
    } else {
        ||| (raw == WordCat::CR && r == WordCat::LF)
        ||| (raw == WordCat::WSegSpace && r == WordCat::WSegSpace)
        ||| pair_matches(l, r)
        ||| (nsig(d, j) < d.len() && connector_matches(l, r, cat_at(d, nsig(d, j))))
        ||| (p > 0 && connector_matches(cat_at(d, lsig(d, p)), l, r))
        ||| (l == WordCat::RegionalIndicator && r == WordCat::RegionalIndicator && ri_run(d, j)
            % 2 == 1)
    }
}

/// A ZWJ at `i` right before an `Extended_Pictographic` scalar, or before a
/// connector whose right side is one: the reverse rules join the ZWJ and what
/// follows it as an emoji sequence (WB3c) where the forward rules do not.
pub open spec fn zwj_exception(d: Seq<char>, i: int) -> bool {
    &&& cat_at(d, i) == WordCat::ZWJ
    &&& i + 1 < d.len()
    &&& (extended_pictographic(d[i + 1]) || (is_mid(cat_at(d, i + 1)) && nsig(d, i + 1) < d.len()
        && extended_pictographic(d[nsig(d, i + 1)])))
}

/// A Hebrew letter at `i` followed (past attached scalars) by an apostrophe
/// and then by something other than a letter: the forward rules let the
/// apostrophe through to the next scalar where the reverse rules do not.
pub open spec fn hebrew_exception(d: Seq<char>, i: int) -> bool {
    let s = nsig(d, i);
    let x = nsig(d, s);
    &&& cat_at(d, i) == WordCat::HebrewLetter
    &&& s < d.len()
    &&& cat_at(d, s) == WordCat::SingleQuote
    &&& x < d.len()
    &&& !is_ahletter(cat_at(d, x))
}

/// One of the two patterns on which the forward and reverse rules differ
/// begins at scalar `i` of `d`.
pub open spec fn exception_at(d: Seq<char>, i: int) -> bool {
    zwj_exception(d, i) || hebrew_exception(d, i)
}

/// No pattern on which the forward and reverse rules differ occurs in `d`.
pub open spec fn agreeable(d: Seq<char>) -> bool {
    forall|i: int| 0 <= i < d.len() ==> !#[trigger] exception_at(d, i)
}

/// `i` ends the first segment of `r`: every scalar before it is joined to
/// the one before, and it is not (or it is the end).
pub open spec fn ends_first_segment(r: Seq<char>, i: int) -> bool {
    &&& 0 < i <= r.len()
    &&& forall|p: int| 0 < p < i ==> #[trigger] joined(r, p)
    &&& (i == r.len() || !joined(r, i))
}

/// Scalar `st` of `d` begins its last segment: every later scalar is
/// joined to the one before it, and `st` is not (or is the start).
pub open spec fn starts_last_segment(d: Seq<char>, st: int) -> bool {
    &&& 0 <= st < d.len()
    &&& forall|p: int| st < p < d.len() ==> #[trigger] joined(d, p)
    &&& (st == 0 || !joined(d, st))
}

pub proof fn lemma_lsig(d: Seq<char>, j: int)
    requires
        1 <= j <= d.len(),
    ensures
        0 <= lsig(d, j) < j,
        !absorbed(d, lsig(d, j)),
        forall|p: int| lsig(d, j) < p < j ==> #[trigger] absorbed(d, p),
        lsig(d, j) < j - 1 ==> !is_newline(cat_at(d, lsig(d, j))),
    decreases j,
{
    if j > 1 && absorbed(d, j - 1) {
        lemma_lsig(d, j - 1);
        assert(absorbed(d, lsig(d, j) + 1));
    }
}

pub proof fn lemma_nsig(d: Seq<char>, j: int)
    requires
        0 <= j < d.len(),
    ensures
        j < nsig(d, j) <= d.len(),
        nsig(d, j) < d.len() ==> !absorbed(d, nsig(d, j)),
        forall|p: int| j < p < nsig(d, j) ==> #[trigger] absorbed(d, p),
    decreases d.len() - j,
{
    if j + 1 < d.len() && absorbed(d, j + 1) {
        lemma_nsig(d, j + 1);
    }
}

/// Between a scalar that WB4 attaches to nothing and the next such scalar
/// lie only attached scalars, so each is the other's neighbour.
pub proof fn lemma_nsig_lsig(d: Seq<char>, a: int, b: int)
    requires
        0 <= a < b <= d.len(),
        !absorbed(d, a),
        b == d.len() || !absorbed(d, b),
        forall|p: int| a < p < b ==> #[trigger] absorbed(d, p),
    ensures
        nsig(d, a) == b,
        lsig(d, b) == a,
{
    lemma_nsig_up(d, a, b);
    lemma_lsig_down(d, a, b);
}

proof fn lemma_nsig_up(d: Seq<char>, a: int, b: int)
    requires
        0 <= a < b <= d.len(),
        b == d.len() || !absorbed(d, b),
        forall|p: int| a < p < b ==> #[trigger] absorbed(d, p),
    ensures
        nsig(d, a) == b,
    decreases b - a,
{
    if a + 1 < b {
        assert(absorbed(d, a + 1));
        lemma_nsig_up(d, a + 1, b);
    }
}

proof fn lemma_lsig_down(d: Seq<char>, a: int, b: int)
    requires
        0 <= a < b <= d.len(),
        !absorbed(d, a),
        forall|p: int| a < p < b ==> #[trigger] absorbed(d, p),
    ensures
        lsig(d, b) == a,
    decreases b - a,
{
    if a + 1 < b {
        assert(absorbed(d, b - 1));
        lemma_lsig_down(d, a, b - 1);
    }
}

/// Category facts the rules rest on.
proof fn lemma_rule_facts(l: WordCat, m: WordCat, r: WordCat)
    ensures
        connector_matches(l, m, r) ==> is_connector_after(l, m) && is_connector_before(m, r),
        is_connector_after(l, m) ==> is_mid(m) && !is_mid(l) && !is_newline(l) && l
            != WordCat::RegionalIndicator && !is_ignored(l),
        is_connector_before(m, r) ==> is_mid(m) && !is_mid(r) && !is_newline(r) && r
            != WordCat::RegionalIndicator && !is_ignored(r) && r != WordCat::SingleQuote,
        pair_matches(l, r) ==> !is_newline(l) && !is_newline(r) && l != WordCat::RegionalIndicator
            && r != WordCat::RegionalIndicator && !is_mid(l) && !is_ignored(l) && !is_ignored(r)
            && (is_mid(r) ==> l == WordCat::HebrewLetter && r == WordCat::SingleQuote),
        is_mid(m) ==> !is_newline(m) && !is_ignored(m) && m != WordCat::RegionalIndicator && m
            != WordCat::WSegSpace,
        is_ahletter(r) ==> !is_mid(r) && !is_newline(r) && !is_ignored(r) && r
            != WordCat::RegionalIndicator && r != WordCat::SingleQuote,
        is_newline(m) ==> !is_ignored(m) && m != WordCat::RegionalIndicator && m
            != WordCat::WSegSpace,
{
}

proof fn lemma_no_exception(d: Seq<char>, i: int)
    requires
        agreeable(d),
        0 <= i < d.len(),
    ensures
        !zwj_exception(d, i),
        !hebrew_exception(d, i),
{
    assert(!exception_at(d, i));
}

/// The forward machine before scalar `j` of `r`, inside the first segment:
/// `lsig(r, j)` is the last scalar it has applied the rules to.
pub open spec fn forward_inside(st: ForwardState, r: Seq<char>, j: int) -> bool {
    let q = lsig(r, j);
    &&& st.raw_previous == Some(cat_at(r, j - 1))
    &&& st.skipped == absorbed(r, j - 1)
    &&& match st.pending {
        None => if q > 0 && cat_at(r, q) == WordCat::SingleQuote && cat_at(r, lsig(r, q))
            == WordCat::HebrewLetter {
            st.significant == Some(Significant::Cat(WordCat::HebrewLetter))
        } else {
            &&& st.significant == Some(Significant::Cat(cat_at(r, q)))
            &&& (q > 0 ==> !is_mid(cat_at(r, q)))
            &&& (cat_at(r, q) == WordCat::RegionalIndicator ==> (st.ri_odd <==> ri_run(r, j) % 2
                == 1))
        },
        Some(p) => {
            &&& q > 0
            &&& st.significant == Some(Significant::Cat(cat_at(r, lsig(r, q))))
            &&& p == ForwardPending {
                connector: cat_at(r, q),
                connector_offset: byte_offset(r, q) as usize,
                left: cat_at(r, lsig(r, q)),
            }
            &&& is_connector_after(cat_at(r, lsig(r, q)), cat_at(r, q))
            &&& !(cat_at(r, lsig(r, q)) == WordCat::HebrewLetter && cat_at(r, q)
                == WordCat::SingleQuote)
        },
    }
}

/// Where the forward machine, before scalar `j` of `r`, ends the segment.
pub open spec fn forward_end_at(st: ForwardState, r: Seq<char>, j: int) -> int {
    let s = forward_scan(st, r.skip(j), byte_offset(r, j) as int);
    match s.1 {
        Some(x) => x as int,
        None => forward_finish(s.0, utf8_len(r) as usize) as int,
    }
}

/// A connector that the forward machine holds is not joined to what comes
/// before it when the next scalar it applies the rules to does not complete
/// the join.
proof fn lemma_connector_unjoined(r: Seq<char>, q: int, j: int)
    requires
        0 < q < j <= r.len(),
        !absorbed(r, q),
        j == r.len() || !absorbed(r, j),
        forall|p: int| q < p < j ==> #[trigger] absorbed(r, p),
        is_connector_after(cat_at(r, lsig(r, q)), cat_at(r, q)),
        !(cat_at(r, lsig(r, q)) == WordCat::HebrewLetter && cat_at(r, q) == WordCat::SingleQuote),
        j < r.len() ==> !connector_matches(cat_at(r, lsig(r, q)), cat_at(r, q), cat_at(r, j)),
    ensures
        !joined(r, q),
{
    lemma_nsig_lsig(r, q, j);
    lemma_lsig(r, q);
    let left = cat_at(r, lsig(r, q));
    lemma_rule_facts(left, cat_at(r, q), cat_at(r, q));
    lemma_rule_facts(cat_at(r, lsig(r, lsig(r, q))), left, cat_at(r, q));
    lemma_rule_facts(cat_at(r, q - 1), cat_at(r, q), cat_at(r, q));
}

#[verifier::rlimit(60)]
proof fn lemma_forward_inside(st: ForwardState, r: Seq<char>, j: int)
    requires
        agreeable(r),
        utf8_len(r) <= usize::MAX,
        1 <= j <= r.len(),
        forward_inside(st, r, j),
        forall|p: int|
            0 < p < j && (st.pending is None || p != lsig(r, j)) ==> #[trigger] joined(r, p),
    ensures
        exists|i: int| ends_first_segment(r, i) && forward_end_at(st, r, j) == byte_offset(r, i),
    decreases r.len() - j,
{
    let n = r.len() as int;
    let q = lsig(r, j);
    lemma_lsig(r, j);
    lemma_byte_offset_full(r);
    lemma_byte_offset_mono(r, j, n);
    lemma_byte_offset_mono(r, q, n);
    if q > 0 {
        lemma_lsig(r, q);
    }
    if j == n {
        assert(r.skip(j) =~= Seq::<char>::empty());
        if st.pending is Some {
            lemma_connector_unjoined(r, q, n);
            assert(ends_first_segment(r, q));
            assert(forward_end_at(st, r, j) == byte_offset(r, q));
        } else {
            assert(ends_first_segment(r, n));
            assert(forward_end_at(st, r, j) == byte_offset(r, n));
        }
    } else {
        let c = r[j];
        let t = r.skip(j);
        assert(t[0] == c);
        assert(t.drop_first() =~= r.skip(j + 1));
        lemma_byte_offset_step(r, j);
        lemma_byte_offset_mono(r, j + 1, n);
        lemma_no_exception(r, j - 1);
        let step = forward_step(st, word_cat(c), extended_pictographic(c), byte_offset(r, j) as usize);
        assert(forward_scan(st, t, byte_offset(r, j) as int) == if step.1 is Some {
            step
        } else {
            forward_scan(step.0, r.skip(j + 1), byte_offset(r, j + 1) as int)
        });
        assert(lsig(r, j + 1) == if absorbed(r, j) {
            q
        } else {
            j
        });
        assert(ri_run(r, j + 1) == if absorbed(r, j) {
            ri_run(r, j)
        } else if cat_at(r, j) == WordCat::RegionalIndicator {
            1 + ri_run(r, j)
        } else {
            0
        });
        let prev = cat_at(r, q);
        let cj = cat_at(r, j);
        lemma_rule_facts(prev, cj, cj);
        lemma_rule_facts(cat_at(r, j - 1), cj, cj);
        if q > 0 {
            lemma_rule_facts(cat_at(r, lsig(r, q)), prev, cj);
        }
        if is_ignored(cj) {
            if step.1 is Some {
                assert(q == j - 1);
                assert(ends_first_segment(r, j));
                assert(forward_end_at(st, r, j) == byte_offset(r, j));
            } else {
                assert(absorbed(r, j));
                assert(joined(r, j));
                assert(forward_inside(step.0, r, j + 1));
                assert(forward_end_at(st, r, j) == forward_end_at(step.0, r, j + 1));
                lemma_forward_inside(step.0, r, j + 1);
            }
        } else if st.pending is Some {
            lemma_connector_unjoined_or_joined(r, q, j);
            if step.1 is Some {
                assert(ends_first_segment(r, q));
                assert(forward_end_at(st, r, j) == byte_offset(r, q));
            } else {
                assert(forward_inside(step.0, r, j + 1));
                assert(forward_end_at(st, r, j) == forward_end_at(step.0, r, j + 1));
                lemma_forward_inside(step.0, r, j + 1);
            }
        } else if q > 0 && prev == WordCat::SingleQuote && cat_at(r, lsig(r, q))
            == WordCat::HebrewLetter {
            let h = lsig(r, q);
            lemma_nsig_lsig(r, h, q);
            lemma_nsig_lsig(r, q, j);
            lemma_no_exception(r, h);
            assert(is_ahletter(cj));
            assert(joined(r, j));
            assert(forward_inside(step.0, r, j + 1));
            assert(forward_end_at(st, r, j) == forward_end_at(step.0, r, j + 1));
            lemma_forward_inside(step.0, r, j + 1);
        } else {
            if step.1 is Some {
                assert(!joined(r, j));
                assert(ends_first_segment(r, j));
                assert(forward_end_at(st, r, j) == byte_offset(r, j));
            } else {
                if step.0.pending is None {
                    assert(joined(r, j));
                }
                assert(forward_inside(step.0, r, j + 1));
                assert(forward_end_at(st, r, j) == forward_end_at(step.0, r, j + 1));
                lemma_forward_inside(step.0, r, j + 1);
            }
        }
    }
}

/// The pending connector at `q` is joined on both sides when the scalar at
/// `j` completes it, and not joined to what comes before otherwise.
proof fn lemma_connector_unjoined_or_joined(r: Seq<char>, q: int, j: int)
    requires
        0 < q < j < r.len(),
        !absorbed(r, q),
        !absorbed(r, j),
        lsig(r, j) == q,
        forall|p: int| q < p < j ==> #[trigger] absorbed(r, p),
        is_connector_after(cat_at(r, lsig(r, q)), cat_at(r, q)),
        !(cat_at(r, lsig(r, q)) == WordCat::HebrewLetter && cat_at(r, q) == WordCat::SingleQuote),
        !is_ignored(cat_at(r, j)),
    ensures
        connector_matches(cat_at(r, lsig(r, q)), cat_at(r, q), cat_at(r, j)) ==> joined(r, q)
            && joined(r, j),
        !connector_matches(cat_at(r, lsig(r, q)), cat_at(r, q), cat_at(r, j)) ==> !joined(r, q),
{
    lemma_nsig_lsig(r, q, j);
    lemma_lsig(r, q);
    if !connector_matches(cat_at(r, lsig(r, q)), cat_at(r, q), cat_at(r, j)) {
        lemma_connector_unjoined(r, q, j);
    } else {
        lemma_rule_facts(cat_at(r, lsig(r, q)), cat_at(r, q), cat_at(r, j));
        lemma_rule_facts(cat_at(r, q - 1), cat_at(r, q), cat_at(r, q));
    }
}

/// The forward machine ends the first segment of a text at the first scalar
/// that is not joined to the one before it.
pub proof fn lemma_agree_first_segment(r: Seq<char>)
    requires
        agreeable(r),
        r.len() > 0,
        utf8_len(r) <= usize::MAX,
    ensures
        exists|i: int| ends_first_segment(r, i) && first_segment_end(r) == byte_offset(r, i),
{
    assert(r.skip(0) =~= r);
    assert(r.take(0) =~= Seq::<char>::empty());
    lemma_byte_offset_step(r, 0);
    lemma_byte_offset_full(r);
    lemma_byte_offset_mono(r, 1, r.len() as int);
    let c = r[0];
    let step = forward_step(forward_init(0), word_cat(c), extended_pictographic(c), 0);
    assert(r.drop_first() =~= r.skip(1));
    assert(lsig(r, 1) == 0);
    assert(ri_run(r, 0) == 0);
    assert(ri_run(r, 1) == if cat_at(r, 0) == WordCat::RegionalIndicator {
        1int
    } else {
        0
    });
    assert(forward_inside(step.0, r, 1));
    lemma_forward_inside(step.0, r, 1);
    assert(first_segment_end(r) == forward_end_at(step.0, r, 1));
}

/// Every scalar of `d` from `a` up to (not including) `b` is an `Extend`,
/// `Format` or `ZWJ` scalar.
pub open spec fn all_ignored(d: Seq<char>, a: int, b: int) -> bool {
    forall|p: int| a <= p < b ==> is_ignored(#[trigger] cat_at(d, p))
}

/// A run of ignorable scalars is attached by WB4 after its first scalar, and
/// from its first scalar on when the scalar before it is not a newline.
proof fn lemma_ignored_block(d: Seq<char>, a: int, t: int)
    requires
        0 <= a <= t <= d.len(),
        all_ignored(d, a, t),
    ensures
        forall|p: int| a < p < t ==> #[trigger] absorbed(d, p),
        a > 0 && a < t && !is_newline(cat_at(d, a - 1)) ==> forall|p: int|
            a <= p < t ==> #[trigger] absorbed(d, p),
{
    assert forall|p: int| a < p < t implies #[trigger] absorbed(d, p) by {
        assert(is_ignored(cat_at(d, p)));
        assert(is_ignored(cat_at(d, p - 1)));
        lemma_rule_facts(cat_at(d, p - 1), cat_at(d, p - 1), cat_at(d, p - 1));
    }
    if a > 0 && a < t && !is_newline(cat_at(d, a - 1)) {
        assert(is_ignored(cat_at(d, a)));
    }
}

proof fn lemma_ri_run_absorbed(d: Seq<char>, a: int, b: int)
    requires
        0 <= a <= b,
        forall|p: int| a <= p < b ==> #[trigger] absorbed(d, p),
    ensures
        ri_run(d, b) == ri_run(d, a),
    decreases b - a,
{
    if a < b {
        assert(absorbed(d, b - 1));
        lemma_ri_run_absorbed(d, a, b - 1);
    }
}

/// The reverse machine after the scalars of `d` from `j` on, inside the
/// last segment; `t` is the first scalar from `j` on that is not ignorable.
pub open spec fn reverse_inside(st: ReverseState, d: Seq<char>, j: int, t: int) -> bool {
    let n = d.len() as int;
    &&& !st.include_left
    &&& 0 <= j < n
    &&& if st.regional is Some {
        let g = st.regional->0;
        let e1 = lsig(d, n);
        &&& st.pending is None
        &&& j <= t < n
        &&& all_ignored(d, j, t)
        &&& cat_at(d, t) == WordCat::RegionalIndicator
        &&& forall|p: int|
            t <= p < n ==> #[trigger] cat_at(d, p) == WordCat::RegionalIndicator || is_ignored(
                cat_at(d, p),
            )
        &&& t < e1
        &&& t <= lsig(d, e1)
        &&& g == ReverseRegional {
            odd: (ri_run(d, n) - ri_run(d, t)) % 2 == 1,
            rightmost_offset: byte_offset(d, e1) as usize,
            second_right_offset: byte_offset(d, lsig(d, e1)) as usize,
        }
    } else if st.significant is None {
        &&& st.pending is None
        &&& st.skipped
        &&& all_ignored(d, j, n)
        &&& st.leading_ignored_start == Some(byte_offset(d, j) as usize)
    } else if st.pending is Some {
        let u = nsig(d, t);
        &&& j <= t < u < n
        &&& all_ignored(d, j, t)
        &&& !is_ignored(cat_at(d, t))
        &&& st.pending->0 == ReversePending {
            connector: cat_at(d, t),
            right: cat_at(d, u),
            right_offset: byte_offset(d, u) as usize,
        }
        &&& st.significant == Some(Significant::Cat(cat_at(d, u)))
        &&& st.significant_offset == byte_offset(d, u)
        &&& st.right_pictographic == extended_pictographic(d[u])
        &&& st.skipped == (j < t)
        &&& is_connector_before(cat_at(d, t), cat_at(d, u))
        &&& forall|p: int| u < p < n ==> #[trigger] joined(d, p)
    } else {
        &&& j <= t < n
        &&& all_ignored(d, j, t)
        &&& !is_ignored(cat_at(d, t))
        &&& st.significant == Some(Significant::Cat(cat_at(d, t)))
        &&& st.significant_offset == byte_offset(d, t)
        &&& st.right_pictographic == extended_pictographic(d[t])
        &&& st.skipped == (j < t)
        &&& (nsig(d, t) < n ==> !is_mid(cat_at(d, t)) && cat_at(d, t)
            != WordCat::RegionalIndicator)
        &&& forall|p: int| t < p < n ==> #[trigger] joined(d, p)
    }
}

/// Where the reverse machine, after the scalars of `d` from `j` on, starts
/// the last segment.
pub open spec fn reverse_start_at(st: ReverseState, d: Seq<char>, j: int) -> int {
    let s = reverse_scan(st, d.take(j), byte_offset(d, j) as int);
    match s.1 {
        Some(x) => x as int,
        None => reverse_finish(s.0) as int,
    }
}

/// The end of a counted run of regional indicators from `t` to the end of
/// `d`, with none before it: the last segment is its last pair, or its last
/// indicator alone when the run is odd.
#[verifier::rlimit(40)]
proof fn lemma_regional_end(d: Seq<char>, t: int)
    requires
        0 <= t < d.len(),
        cat_at(d, t) == WordCat::RegionalIndicator,
        forall|p: int|
            t <= p < d.len() ==> #[trigger] cat_at(d, p) == WordCat::RegionalIndicator
                || is_ignored(cat_at(d, p)),
        t < lsig(d, d.len() as int),
        t <= lsig(d, lsig(d, d.len() as int)),
        ri_run(d, t) == 0,
    ensures
        ({
            let e1 = lsig(d, d.len() as int);
            let e2 = lsig(d, e1);
            &&& ri_run(d, d.len() as int) % 2 == 1 ==> starts_last_segment(d, e1)
            &&& ri_run(d, d.len() as int) % 2 == 0 ==> starts_last_segment(d, e2)
        }),
{
    let n = d.len() as int;
    let e1 = lsig(d, n);
    lemma_lsig(d, n);
    lemma_lsig(d, e1);
    let e2 = lsig(d, e1);
    assert(cat_at(d, e1) == WordCat::RegionalIndicator || is_ignored(cat_at(d, e1)));
    assert(cat_at(d, e2) == WordCat::RegionalIndicator || is_ignored(cat_at(d, e2)));
    if is_ignored(cat_at(d, e1)) {
        assert(e1 > t);
        assert(cat_at(d, e1 - 1) == WordCat::RegionalIndicator || is_ignored(cat_at(d, e1 - 1)));
        lemma_rule_facts(cat_at(d, e1 - 1), cat_at(d, e1 - 1), cat_at(d, e1 - 1));
        assert(absorbed(d, e1));
    }
    if e2 > t && is_ignored(cat_at(d, e2)) {
        assert(cat_at(d, e2 - 1) == WordCat::RegionalIndicator || is_ignored(cat_at(d, e2 - 1)));
        lemma_rule_facts(cat_at(d, e2 - 1), cat_at(d, e2 - 1), cat_at(d, e2 - 1));
        assert(absorbed(d, e2));
    }
    lemma_ri_run_absorbed(d, e1 + 1, n);
    lemma_ri_run_absorbed(d, e2 + 1, e1);
    assert(ri_run(d, e1 + 1) == 1 + ri_run(d, e1));
    assert(ri_run(d, e2 + 1) == 1 + ri_run(d, e2));
    lemma_ri_joined(d, e1);
    if e2 > 0 {
        lemma_ri_joined(d, e2);
        lemma_lsig(d, e2);
        if e2 == t {
            assert(!joined(d, e2));
        }
    }
    assert forall|p: int| e1 < p < n implies #[trigger] joined(d, p) by {
        assert(absorbed(d, p));
    }
    assert forall|p: int| e2 < p < e1 implies #[trigger] joined(d, p) by {
        assert(absorbed(d, p));
    }
}

/// A regional indicator is joined to what comes before it exactly when it
/// completes a pair (WB15/WB16).
proof fn lemma_ri_joined(d: Seq<char>, p: int)
    requires
        0 < p < d.len(),
        cat_at(d, p) == WordCat::RegionalIndicator,
    ensures
        joined(d, p) == (cat_at(d, lsig(d, p)) == WordCat::RegionalIndicator && ri_run(d, p) % 2
            == 1),
{
    lemma_lsig(d, p);
    let l = cat_at(d, lsig(d, p));
    let ri = WordCat::RegionalIndicator;
    lemma_rule_facts(l, l, ri);
    lemma_rule_facts(cat_at(d, p - 1), cat_at(d, p - 1), ri);
    lemma_nsig(d, p);
    if nsig(d, p) < d.len() {
        lemma_rule_facts(l, ri, cat_at(d, nsig(d, p)));
    }
    if lsig(d, p) > 0 {
        lemma_rule_facts(cat_at(d, lsig(d, lsig(d, p))), l, ri);
    }
}

/// The outcome of one reverse step at scalar `k`: either a boundary that
/// starts the last segment, or the machine still inside it.
pub open spec fn reverse_step_ok(st: ReverseState, d: Seq<char>, k: int) -> bool {
    let c = d[k];
    let step = reverse_step(st, word_cat(c), extended_pictographic(c), byte_offset(d, k) as usize);
    &&& step.1 is Some ==> exists|x: int|
        starts_last_segment(d, x) && step.1 == Some(byte_offset(d, x) as usize)
    &&& step.1 is None ==> exists|t2: int| #[trigger] reverse_inside(step.0, d, k, t2)
}

/// The last scalar before `t` that WB4 attaches to nothing, when the
/// scalars from `j` up to `t` are ignorable.
proof fn lemma_lsig_after_ignored(d: Seq<char>, j: int, t: int)
    requires
        1 <= j <= t < d.len(),
        all_ignored(d, j, t),
        !is_ignored(cat_at(d, t)),
        !is_ignored(cat_at(d, j - 1)),
    ensures
        lsig(d, t) == if j < t && is_newline(cat_at(d, j - 1)) {
            j
        } else {
            j - 1
        },
        nsig(d, lsig(d, t)) == t,
        !is_newline(cat_at(d, j - 1)) ==> forall|p: int| j <= p < t ==> #[trigger] absorbed(d, p),
        !absorbed(d, t),
{
    lemma_ignored_block(d, j, t);
    let l = if j < t && is_newline(cat_at(d, j - 1)) {
        j
    } else {
        j - 1
    };
    if j < t && is_newline(cat_at(d, j - 1)) {
        assert(is_ignored(cat_at(d, j)));
        assert(!absorbed(d, j));
    } else if j - 1 > 0 {
        if j < t {
            assert(is_ignored(cat_at(d, j)));
        }
    }
    lemma_nsig_lsig(d, l, t);
}

proof fn lemma_offsets(d: Seq<char>, x: int)
    requires
        0 <= x <= d.len(),
        utf8_len(d) <= usize::MAX,
    ensures
        byte_offset(d, x) <= utf8_len(d),
{
    lemma_byte_offset_full(d);
    lemma_byte_offset_mono(d, x, d.len() as int);
}

#[verifier::rlimit(60)]
proof fn lemma_reverse_step_significant(st: ReverseState, d: Seq<char>, j: int, t: int)
    requires
        agreeable(d),
        utf8_len(d) <= usize::MAX,
        1 <= j,
        reverse_inside(st, d, j, t),
        st.regional is None,
        st.significant is Some,
        st.pending is None,
    ensures
        reverse_step_ok(st, d, j - 1),
{
    let n = d.len() as int;
    let c = d[j - 1];
    let cc = cat_at(d, j - 1);
    let ct = cat_at(d, t);
    let at = byte_offset(d, j - 1) as usize;
    let step = reverse_step(st, word_cat(c), extended_pictographic(c), at);
    lemma_offsets(d, j - 1);
    lemma_offsets(d, t);
    lemma_no_exception(d, j - 1);
    lemma_rule_facts(cc, cc, ct);
    lemma_rule_facts(cc, ct, ct);
    if is_ignored(cc) {
        assert(all_ignored(d, j - 1, t));
        assert(reverse_inside(step.0, d, j - 1, t));
    } else {
        lemma_lsig_after_ignored(d, j, t);
        let l = lsig(d, t);
        lemma_lsig(d, t);
        lemma_nsig(d, t);
        let cl = cat_at(d, l);
        lemma_rule_facts(cl, ct, ct);
        lemma_rule_facts(cat_at(d, t - 1), ct, ct);
        if nsig(d, t) < n {
            lemma_rule_facts(cl, ct, cat_at(d, nsig(d, t)));
        }
        if l > 0 {
            lemma_lsig(d, l);
            lemma_rule_facts(cat_at(d, lsig(d, l)), cl, ct);
        }
        if step.1 is Some {
            assert(!joined(d, t));
            assert(starts_last_segment(d, t));
        } else if step.0.regional is Some {
            lemma_lsig_down(d, t, n);
            lemma_ri_run_absorbed(d, t + 1, n);
            lemma_ri_run_absorbed(d, j, t);
            assert(ri_run(d, t + 1) == 1 + ri_run(d, t));
            assert(ri_run(d, j) == 1 + ri_run(d, j - 1));
            assert forall|p: int|
                j - 1 <= p < n implies #[trigger] cat_at(d, p) == WordCat::RegionalIndicator
                || is_ignored(cat_at(d, p)) by {
                if p > t {
                    assert(absorbed(d, p));
                }
            }
            assert(reverse_inside(step.0, d, j - 1, j - 1));
        } else if step.0.pending is Some {
            assert(reverse_inside(step.0, d, j - 1, j - 1));
        } else {
            assert(joined(d, t));
            assert(reverse_inside(step.0, d, j - 1, j - 1));
        }
    }
}

#[verifier::rlimit(60)]
proof fn lemma_reverse_step_pending(st: ReverseState, d: Seq<char>, j: int, t: int)
    requires
        agreeable(d),
        utf8_len(d) <= usize::MAX,
        1 <= j,
        reverse_inside(st, d, j, t),
        st.regional is None,
        st.significant is Some,
        st.pending is Some,
    ensures
        reverse_step_ok(st, d, j - 1),
{
    let n = d.len() as int;
    let c = d[j - 1];
    let cc = cat_at(d, j - 1);
    let ct = cat_at(d, t);
    let u = nsig(d, t);
    let cu = cat_at(d, u);
    let at = byte_offset(d, j - 1) as usize;
    let step = reverse_step(st, word_cat(c), extended_pictographic(c), at);
    lemma_offsets(d, j - 1);
    lemma_offsets(d, u);
    lemma_no_exception(d, j - 1);
    lemma_nsig(d, t);
    lemma_rule_facts(cc, ct, cu);
    lemma_rule_facts(ct, ct, cu);
    lemma_rule_facts(cc, cc, ct);
    if is_ignored(cc) {
        assert(all_ignored(d, j - 1, t));
        assert(reverse_inside(step.0, d, j - 1, t));
    } else {
        lemma_lsig_after_ignored(d, j, t);
        let l = lsig(d, t);
        lemma_lsig(d, t);
        lemma_nsig_lsig(d, t, u);
        let cl = cat_at(d, l);
        lemma_rule_facts(cl, ct, cu);
        lemma_rule_facts(cat_at(d, u - 1), cu, cu);
        lemma_rule_facts(cat_at(d, t - 1), ct, ct);
        lemma_rule_facts(cl, ct, ct);
        lemma_nsig(d, u);
        if nsig(d, u) < n {
            lemma_rule_facts(ct, cu, cat_at(d, nsig(d, u)));
        }
        if step.1 is Some {
            assert(!joined(d, u));
            assert(starts_last_segment(d, u));
        } else {
            assert(joined(d, u));
            assert(joined(d, t));
            assert forall|p: int| t < p < u implies #[trigger] joined(d, p) by {
                assert(absorbed(d, p));
            }
            assert forall|p: int| j - 1 < p < t implies #[trigger] joined(d, p) by {
                assert(absorbed(d, p));
            }
            assert(reverse_inside(step.0, d, j - 1, j - 1));
        }
    }
}

proof fn lemma_reverse_step_leading(st: ReverseState, d: Seq<char>, j: int, t: int)
    requires
        agreeable(d),
        utf8_len(d) <= usize::MAX,
        1 <= j,
        reverse_inside(st, d, j, t),
        st.regional is None,
        st.significant is None,
    ensures
        reverse_step_ok(st, d, j - 1),
{
    let n = d.len() as int;
    let c = d[j - 1];
    let cc = cat_at(d, j - 1);
    let at = byte_offset(d, j - 1) as usize;
    let step = reverse_step(st, word_cat(c), extended_pictographic(c), at);
    lemma_offsets(d, j - 1);
    lemma_offsets(d, j);
    lemma_rule_facts(cc, cc, cc);
    lemma_ignored_block(d, j, n);
    assert forall|p: int| j < p < n implies #[trigger] joined(d, p) by {
        assert(absorbed(d, p));
    }
    if is_ignored(cc) {
        assert(all_ignored(d, j - 1, n));
        assert(reverse_inside(step.0, d, j - 1, j - 1));
    } else if is_newline(cc) {
        assert(is_ignored(cat_at(d, j)));
        assert(!joined(d, j));
        assert(starts_last_segment(d, j));
    } else {
        lemma_nsig_up(d, j - 1, n);
        assert forall|p: int| j - 1 < p < n implies #[trigger] joined(d, p) by {
            assert(absorbed(d, p));
        }
        assert(reverse_inside(step.0, d, j - 1, j - 1));
    }
}

/// Before a counted run of regional indicators from `t`, with the scalar
/// before the run's ignorable prefix not a regional indicator (or none),
/// no indicator runs into `t`.
proof fn lemma_ri_run_start(d: Seq<char>, j: int, t: int)
    requires
        0 <= j <= t < d.len(),
        all_ignored(d, j, t),
        j > 0 ==> !is_ignored(cat_at(d, j - 1)) && cat_at(d, j - 1)
            != WordCat::RegionalIndicator,
    ensures
        ri_run(d, t) == 0,
{
    lemma_ignored_block(d, j, t);
    if j == t {
        if j > 0 {
            assert(!absorbed(d, j - 1));
        }
    } else if j > 0 && !is_newline(cat_at(d, j - 1)) {
        lemma_ri_run_absorbed(d, j, t);
        assert(!absorbed(d, j - 1));
    } else {
        lemma_ri_run_absorbed(d, j + 1, t);
        assert(is_ignored(cat_at(d, j)));
        assert(!absorbed(d, j));
        lemma_rule_facts(cat_at(d, j), cat_at(d, j), cat_at(d, j));
        assert(ri_run(d, j + 1) == 0);
    }
}

#[verifier::rlimit(40)]
proof fn lemma_reverse_step_regional(st: ReverseState, d: Seq<char>, j: int, t: int)
    requires
        agreeable(d),
        utf8_len(d) <= usize::MAX,
        1 <= j,
        reverse_inside(st, d, j, t),
        st.regional is Some,
    ensures
        reverse_step_ok(st, d, j - 1),
{
    let n = d.len() as int;
    let c = d[j - 1];
    let cc = cat_at(d, j - 1);
    let at = byte_offset(d, j - 1) as usize;
    let step = reverse_step(st, word_cat(c), extended_pictographic(c), at);
    let e1 = lsig(d, n);
    lemma_lsig(d, n);
    lemma_lsig(d, e1);
    lemma_offsets(d, j - 1);
    lemma_offsets(d, e1);
    lemma_offsets(d, lsig(d, e1));
    lemma_rule_facts(cc, cc, cc);
    if is_ignored(cc) {
        assert(all_ignored(d, j - 1, t));
        assert(reverse_inside(step.0, d, j - 1, t));
    } else if cc == WordCat::RegionalIndicator {
        lemma_ignored_block(d, j, t);
        lemma_ri_run_absorbed(d, j, t);
        assert(ri_run(d, j) == 1 + ri_run(d, j - 1));
        assert(reverse_inside(step.0, d, j - 1, j - 1));
    } else {
        lemma_ri_run_start(d, j, t);
        lemma_regional_end(d, t);
        let e2 = lsig(d, e1);
        if (ri_run(d, n) - ri_run(d, t)) % 2 == 1 {
            assert(starts_last_segment(d, e1));
        } else {
            assert(starts_last_segment(d, e2));
        }
    }
}

/// At the start of the document the reverse machine starts the last
/// segment where the rules do.
#[verifier::rlimit(40)]
proof fn lemma_reverse_finish(st: ReverseState, d: Seq<char>, t: int)
    requires
        utf8_len(d) <= usize::MAX,
        reverse_inside(st, d, 0, t),
    ensures
        exists|i: int| starts_last_segment(d, i) && reverse_finish(st) == byte_offset(d, i),
{
    let n = d.len() as int;
    assert(d.take(0) =~= Seq::<char>::empty());
    if st.regional is Some || st.significant is Some {
        lemma_offsets(d, t);
        lemma_ignored_block(d, 0, t);
    }
    if st.regional is Some {
        let e1 = lsig(d, n);
        lemma_lsig(d, n);
        lemma_lsig(d, e1);
        lemma_offsets(d, e1);
        lemma_offsets(d, lsig(d, e1));
        lemma_ri_run_start(d, 0, t);
        lemma_regional_end(d, t);
        if (ri_run(d, n) - ri_run(d, t)) % 2 == 1 {
            assert(starts_last_segment(d, e1));
        } else {
            assert(starts_last_segment(d, lsig(d, e1)));
        }
    } else if st.significant is None {
        lemma_ignored_block(d, 0, n);
        assert forall|p: int| 0 < p < n implies #[trigger] joined(d, p) by {
            assert(absorbed(d, p));
        }
        assert(starts_last_segment(d, 0));
        assert(byte_offset(d, 0) == 0);
    } else {
        if t > 0 {
            lemma_lsig_down(d, 0, t);
            assert(is_ignored(cat_at(d, 0)));
            lemma_rule_facts(cat_at(d, 0), cat_at(d, 0), cat_at(d, 0));
        }
        if st.pending is Some {
            let u = nsig(d, t);
            lemma_nsig(d, t);
            lemma_nsig_lsig(d, t, u);
            lemma_offsets(d, u);
            let ct = cat_at(d, t);
            let cu = cat_at(d, u);
            lemma_rule_facts(ct, ct, cu);
            lemma_rule_facts(cat_at(d, u - 1), cu, cu);
            lemma_rule_facts(cat_at(d, lsig(d, t)), ct, cu);
            lemma_nsig(d, u);
            if nsig(d, u) < n {
                lemma_rule_facts(ct, cu, cat_at(d, nsig(d, u)));
            }
            assert(!joined(d, u));
            assert(starts_last_segment(d, u));
        } else if t > 0 {
            let ct = cat_at(d, t);
            lemma_rule_facts(cat_at(d, 0), ct, ct);
            lemma_rule_facts(cat_at(d, t - 1), ct, ct);
            lemma_nsig(d, t);
            if nsig(d, t) < n {
                lemma_rule_facts(cat_at(d, 0), ct, cat_at(d, nsig(d, t)));
            }
            assert(!joined(d, t));
            assert(starts_last_segment(d, t));
        } else {
            assert(starts_last_segment(d, 0));
            assert(byte_offset(d, 0) == 0);
        }
    }
}

proof fn lemma_reverse_inside(st: ReverseState, d: Seq<char>, j: int, t: int)
    requires
        agreeable(d),
        utf8_len(d) <= usize::MAX,
        reverse_inside(st, d, j, t),
    ensures
        exists|i: int| starts_last_segment(d, i) && reverse_start_at(st, d, j) == byte_offset(d, i),
    decreases j,
{
    if j == 0 {
        assert(d.take(0) =~= Seq::<char>::empty());
        assert(reverse_scan(st, d.take(0), byte_offset(d, 0) as int) == (st, None::<usize>));
        lemma_reverse_finish(st, d, t);
    } else {
        let c = d[j - 1];
        let tk = d.take(j);
        assert(tk.last() == c);
        assert(tk.drop_last() =~= d.take(j - 1));
        lemma_byte_offset_step(d, j - 1);
        let at = byte_offset(d, j - 1);
        let step = reverse_step(st, word_cat(c), extended_pictographic(c), at as usize);
        assert(reverse_scan(st, tk, byte_offset(d, j) as int) == if step.1 is Some {
            step
        } else {
            reverse_scan(step.0, d.take(j - 1), at as int)
        });
        if st.regional is Some {
            lemma_reverse_step_regional(st, d, j, t);
        } else if st.significant is None {
            lemma_reverse_step_leading(st, d, j, t);
        } else if st.pending is Some {
            lemma_reverse_step_pending(st, d, j, t);
        } else {
            lemma_reverse_step_significant(st, d, j, t);
        }
        if step.1 is Some {
            let x = choose|x: int|
                starts_last_segment(d, x) && step.1 == Some(byte_offset(d, x) as usize);
            lemma_offsets(d, x);
            assert(reverse_start_at(st, d, j) == byte_offset(d, x));
        } else {
            let t2 = choose|t2: int| #[trigger] reverse_inside(step.0, d, j - 1, t2);
            assert(reverse_start_at(st, d, j) == reverse_start_at(step.0, d, j - 1));
            lemma_reverse_inside(step.0, d, j - 1, t2);
        }
    }
}

/// The reverse machine starts the last segment of a text at the last scalar
/// that is not joined to the one before it.
pub proof fn lemma_agree_last_segment(d: Seq<char>)
    requires
        agreeable(d),
        d.len() > 0,
        utf8_len(d) <= usize::MAX,
    ensures
        exists|i: int| starts_last_segment(d, i) && last_segment_start(d) == byte_offset(d, i),
{
    let n = d.len() as int;
    lemma_byte_offset_full(d);
    assert(d.take(n) =~= d);
    lemma_byte_offset_step(d, n - 1);
    lemma_offsets(d, n - 1);
    let c = d[n - 1];
    let len = utf8_len(d);
    let st0 = reverse_init(len as usize);
    let step = reverse_step(st0, word_cat(c), extended_pictographic(c), byte_offset(d, n - 1) as usize);
    assert(d.drop_last() =~= d.take(n - 1));
    assert(d.last() == c);
    lemma_nsig(d, n - 1);
    assert(reverse_inside(step.0, d, n - 1, n - 1));
    lemma_reverse_inside(step.0, d, n - 1, n - 1);
    assert(last_segment_start(d) == reverse_start_at(step.0, d, n - 1));
}

proof fn lemma_skip_absorbed(d: Seq<char>, k: int)
    requires
        0 <= k < d.len(),
        k == 0 || !joined(d, k),
    ensures
        forall|i: int| 0 <= i < d.len() - k ==> #[trigger] absorbed(d.skip(k), i) == absorbed(d, k + i),
{
    let rest = d.skip(k);
    assert forall|i: int| 0 <= i < d.len() - k implies #[trigger] absorbed(rest, i) == absorbed(
        d,
        k + i,
    ) by {
        assert(rest[i] == d[k + i]);
        if i > 0 {
            assert(rest[i - 1] == d[k + i - 1]);
        }
    }
}

proof fn lemma_skip_lsig(d: Seq<char>, k: int, i: int)
    requires
        0 <= k < d.len(),
        k == 0 || !joined(d, k),
        1 <= i <= d.len() - k,
    ensures
        lsig(d.skip(k), i) + k == lsig(d, k + i),
    decreases i,
{
    lemma_skip_absorbed(d, k);
    if i > 1 {
        lemma_skip_lsig(d, k, i - 1);
        assert(absorbed(d.skip(k), i - 1) == absorbed(d, k + i - 1));
    }
}

proof fn lemma_skip_nsig(d: Seq<char>, k: int, i: int)
    requires
        0 <= k < d.len(),
        k == 0 || !joined(d, k),
        0 <= i < d.len() - k,
    ensures
        nsig(d.skip(k), i) + k == nsig(d, k + i),
    decreases d.len() - k - i,
{
    lemma_skip_absorbed(d, k);
    if i + 1 < d.len() - k {
        lemma_skip_nsig(d, k, i + 1);
        assert(absorbed(d.skip(k), i + 1) == absorbed(d, k + i + 1));
    }
}

proof fn lemma_ri_run_nonneg(d: Seq<char>, j: int)
    ensures
        ri_run(d, j) >= 0,
    decreases j,
{
    if j > 0 {
        lemma_ri_run_nonneg(d, j - 1);
    }
}

proof fn lemma_ri_run_positive(d: Seq<char>, j: int)
    requires
        0 <= j <= d.len(),
        ri_run(d, j) > 0,
    ensures
        j > 0,
        cat_at(d, lsig(d, j)) == WordCat::RegionalIndicator,
    decreases j,
{
    if absorbed(d, j - 1) {
        lemma_ri_run_positive(d, j - 1);
        assert(j - 1 > 0);
    }
}

proof fn lemma_skip_ri_run(d: Seq<char>, k: int, i: int)
    requires
        0 <= k < d.len(),
        k == 0 || !joined(d, k),
        0 <= i <= d.len() - k,
    ensures
        ri_run(d, k + i) == ri_run(d.skip(k), i) || (ri_run(d, k + i) == ri_run(d.skip(k), i)
            + ri_run(d, k) && (i > 0 ==> cat_at(d, k) == WordCat::RegionalIndicator)),
    decreases i,
{
    let rest = d.skip(k);
    lemma_skip_absorbed(d, k);
    if i > 0 {
        lemma_skip_ri_run(d, k, i - 1);
        assert(rest[i - 1] == d[k + i - 1]);
        assert(absorbed(rest, i - 1) == absorbed(d, k + i - 1));
        if i == 1 {
            assert(!absorbed(d, k));
        }
    }
}

/// Past a scalar that is not joined to the one before it, whether two
/// scalars are joined does not depend on what comes before that scalar.
#[verifier::rlimit(40)]
proof fn lemma_joined_skip(d: Seq<char>, k: int, i: int)
    requires
        0 <= k,
        0 < i,
        k + i < d.len(),
        k == 0 || !joined(d, k),
    ensures
        joined(d.skip(k), i) == joined(d, k + i),
{
    let rest = d.skip(k);
    let n = d.len() as int;
    assert(rest[i] == d[k + i]);
    assert(rest[i - 1] == d[k + i - 1]);
    lemma_skip_lsig(d, k, i);
    lemma_skip_nsig(d, k, i);
    lemma_skip_ri_run(d, k, i);
    lemma_skip_absorbed(d, k);
    let pr = lsig(rest, i);
    let pd = lsig(d, k + i);
    lemma_lsig(rest, i);
    lemma_lsig(d, k + i);
    assert(rest[pr] == d[pd]);
    lemma_nsig(rest, i);
    if nsig(rest, i) < rest.len() {
        assert(rest[nsig(rest, i)] == d[nsig(d, k + i)]);
    }
    if pr > 0 {
        lemma_lsig(rest, pr);
        lemma_skip_lsig(d, k, pr);
        assert(rest[lsig(rest, pr)] == d[lsig(d, pd)]);
    }
    if k > 0 {
        if pr == 0 && !is_ignored(cat_at(d, k + i)) {
            lemma_nsig_lsig(d, k, k + i);
            lemma_lsig(d, k);
        }
        if ri_run(d, k) > 0 && cat_at(d, k) == WordCat::RegionalIndicator {
            lemma_ri_run_positive(d, k);
            assert(ri_run(d, k) % 2 == 0);
        }
    } else {
        assert(ri_run(d, 0) == 0);
    }
    if ri_run(d, k + i) != ri_run(rest, i) {
        assert(cat_at(d, k) == WordCat::RegionalIndicator);
        if k > 0 && ri_run(d, k) > 0 {
            assert(ri_run(d, k) % 2 == 0);
        } else {
            assert(ri_run(d, k) == 0) by {
                lemma_ri_run_nonneg(d, k);
                if k == 0 {
                    assert(ri_run(d, 0) == 0);
                }
            }
        }
        let a = ri_run(rest, i);
        let b = ri_run(d, k);
        assert((a + b) % 2 == a % 2) by (nonlinear_arith)
            requires
                b % 2 == 0,
        ;
    }
    let l = cat_at(d, pd);
    let r = cat_at(d, k + i);
    assert(cat_at(rest, pr) == l);
    assert(cat_at(rest, i) == r);
    assert(cat_at(rest, i - 1) == cat_at(d, k + i - 1));
    assert((nsig(rest, i) < rest.len() && connector_matches(l, r, cat_at(rest, nsig(rest, i))))
        == (nsig(d, k + i) < d.len() && connector_matches(l, r, cat_at(d, nsig(d, k + i)))));
    if !is_ignored(r) {
        assert((pr > 0 && connector_matches(cat_at(rest, lsig(rest, pr)), l, r)) == (pd > 0
            && connector_matches(cat_at(d, lsig(d, pd)), l, r)));
        assert((l == WordCat::RegionalIndicator && r == WordCat::RegionalIndicator && ri_run(rest, i)
            % 2 == 1) == (l == WordCat::RegionalIndicator && r == WordCat::RegionalIndicator
            && ri_run(d, k + i) % 2 == 1));
    }
}

proof fn lemma_take_lsig(d: Seq<char>, k: int, i: int)
    requires
        1 <= i <= k <= d.len(),
    ensures
        lsig(d.take(k), i) == lsig(d, i),
    decreases i,
{
    if i > 1 {
        lemma_take_lsig(d, k, i - 1);
        assert(d.take(k)[i - 1] == d[i - 1]);
        assert(d.take(k)[i - 2] == d[i - 2]);
    }
}

proof fn lemma_take_nsig(d: Seq<char>, k: int, i: int)
    requires
        0 <= i < k <= d.len(),
    ensures
        nsig(d.take(k), i) == if nsig(d, i) < k {
            nsig(d, i)
        } else {
            k
        },
    decreases k - i,
{
    lemma_nsig(d, i);
    if i + 1 < k {
        lemma_take_nsig(d, k, i + 1);
        assert(d.take(k)[i + 1] == d[i + 1]);
        assert(d.take(k)[i] == d[i]);
        lemma_nsig(d, i + 1);
    }
}

proof fn lemma_take_ri_run(d: Seq<char>, k: int, p: int)
    requires
        0 <= p <= k <= d.len(),
    ensures
        ri_run(d.take(k), p) == ri_run(d, p),
    decreases p,
{
    if p > 0 {
        assert(d.take(k)[p - 1] == d[p - 1]);
        if p >= 2 {
            assert(d.take(k)[p - 2] == d[p - 2]);
        }
        lemma_take_ri_run(d, k, p - 1);
    }
}

/// Before a scalar `k` that is not joined to the one before it (or the
/// end), whether two scalars are joined does not depend on what follows.
#[verifier::rlimit(40)]
proof fn lemma_joined_take(d: Seq<char>, k: int, p: int)
    requires
        0 < p < k <= d.len(),
        k == d.len() || !joined(d, k),
    ensures
        joined(d.take(k), p) == joined(d, p),
{
    let pre = d.take(k);
    assert(pre[p] == d[p]);
    assert(pre[p - 1] == d[p - 1]);
    lemma_take_lsig(d, k, p);
    lemma_lsig(d, p);
    let l = lsig(d, p);
    assert(pre[l] == d[l]);
    if l > 0 {
        lemma_take_lsig(d, k, l);
        lemma_lsig(d, l);
        assert(pre[lsig(d, l)] == d[lsig(d, l)]);
    }
    lemma_take_nsig(d, k, p);
    lemma_nsig(d, p);
    if nsig(d, p) < k {
        assert(pre[nsig(d, p)] == d[nsig(d, p)]);
    }
    lemma_take_ri_run(d, k, p);
    if k < d.len() && nsig(d, p) >= k && !is_ignored(cat_at(d, p)) {
        if nsig(d, p) > k {
            assert(absorbed(d, k));
        }
        lemma_nsig_lsig(d, p, k);
    }
}

/// Every piece of a text cut where a segment begins keeps to the text's
/// patterns.
proof fn lemma_agreeable_skip(d: Seq<char>, k: int)
    requires
        agreeable(d),
        0 <= k < d.len(),
        k == 0 || !joined(d, k),
    ensures
        agreeable(d.skip(k)),
{
    let rest = d.skip(k);
    assert forall|i: int| 0 <= i < rest.len() implies !#[trigger] exception_at(rest, i) by {
        lemma_no_exception(d, k + i);
        lemma_skip_nsig(d, k, i);
        lemma_nsig(rest, i);
        assert(rest[i] == d[k + i]);
        if i + 1 < rest.len() {
            assert(rest[i + 1] == d[k + i + 1]);
            lemma_skip_nsig(d, k, i + 1);
            lemma_nsig(rest, i + 1);
            if nsig(rest, i + 1) < rest.len() {
                assert(rest[nsig(rest, i + 1)] == d[nsig(d, k + i + 1)]);
            }
        }
        let s2 = nsig(rest, i);
        if s2 < rest.len() {
            assert(rest[s2] == d[k + s2]);
            lemma_skip_nsig(d, k, s2);
            lemma_nsig(rest, s2);
            if nsig(rest, s2) < rest.len() {
                assert(rest[nsig(rest, s2)] == d[nsig(d, k + s2)]);
            }
        }
    }
}

proof fn lemma_agreeable_take(d: Seq<char>, k: int)
    requires
        agreeable(d),
        0 <= k <= d.len(),
    ensures
        agreeable(d.take(k)),
{
    let pre = d.take(k);
    assert forall|i: int| 0 <= i < pre.len() implies !#[trigger] exception_at(pre, i) by {
        lemma_no_exception(d, i);
        lemma_take_nsig(d, k, i);
        lemma_nsig(pre, i);
        assert(pre[i] == d[i]);
        if i + 1 < k {
            assert(pre[i + 1] == d[i + 1]);
            lemma_take_nsig(d, k, i + 1);
            lemma_nsig(pre, i + 1);
            if nsig(pre, i + 1) < k {
                assert(pre[nsig(pre, i + 1)] == d[nsig(d, i + 1)]);
            }
        }
        let s2 = nsig(pre, i);
        if s2 < k {
            assert(pre[s2] == d[s2]);
            lemma_take_nsig(d, k, s2);
            lemma_nsig(pre, s2);
            if nsig(pre, s2) < k {
                assert(pre[nsig(pre, s2)] == d[nsig(d, s2)]);
            }
        }
    }
}

/// Two scalars cannot both begin the last segment.
proof fn lemma_last_segment_unique(d: Seq<char>, a: int, b: int)
    requires
        starts_last_segment(d, a),
        starts_last_segment(d, b),
    ensures
        a == b,
{
    if a < b {
        assert(joined(d, b));
    } else if b < a {
        assert(joined(d, a));
    }
}

/// The first segment of a text taken from a scalar `k` that is not
/// joined to the one before it ends at the next such scalar (or the end).
proof fn lemma_walk_segment_from(d: Seq<char>, k: int)
    requires
        agreeable(d),
        utf8_len(d) <= usize::MAX,
        0 <= k < d.len(),
        k == 0 || !joined(d, k),
    ensures
        exists|i: int|
            #![trigger byte_offset(d, k + i)]
            0 < i && k + i <= d.len() && byte_offset(d, k) + first_segment_end(d.skip(k))
                == byte_offset(d, k + i) && (forall|p: int| k < p < k + i ==> #[trigger] joined(d, p))
                && (k + i == d.len() || !joined(d, k + i)),
{
    let n = d.len() as int;
    let rest = d.skip(k);
    assert(d =~= d.take(k) + rest);
    lemma_utf8_len_concat(d.take(k), rest);
    lemma_agreeable_skip(d, k);
    lemma_agree_first_segment(rest);
    let i = choose|i: int|
        ends_first_segment(rest, i) && first_segment_end(rest) == byte_offset(rest, i);
    assert(d.take(k + i) =~= d.take(k) + rest.take(i));
    lemma_utf8_len_concat(d.take(k), rest.take(i));
    assert forall|p: int| k < p < k + i implies #[trigger] joined(d, p) by {
        assert(joined(rest, p - k));
        lemma_joined_skip(d, k, p - k);
    }
    if k + i < n {
        lemma_joined_skip(d, k, i);
    }
    assert(0 < i && k + i <= d.len());
    assert(byte_offset(d, k) + first_segment_end(d.skip(k)) == byte_offset(d, k + i));
    assert(k + i == d.len() || !joined(d, k + i));
}

/// Walking a text from the front, from a scalar that is not joined to
/// the one before it, reaches the start of the last segment.
proof fn lemma_walk_forward_walk(d: Seq<char>, k: int)
    requires
        agreeable(d),
        utf8_len(d) <= usize::MAX,
        0 <= k < d.len(),
        k == 0 || !joined(d, k),
    ensures
        exists|st: int|
            k <= st && starts_last_segment(d, st) && last_forward_start(d, k) == byte_offset(d, st),
    decreases d.len() - k,
{
    let n = d.len() as int;
    lemma_walk_segment_from(d, k);
    let i = choose|i: int|
        #![trigger byte_offset(d, k + i)]
        0 < i && k + i <= d.len() && byte_offset(d, k) + first_segment_end(d.skip(k))
            == byte_offset(d, k + i) && (forall|p: int| k < p < k + i ==> #[trigger] joined(d, p))
            && (k + i == d.len() || !joined(d, k + i));
    let e = byte_offset(d, k) + first_segment_end(d.skip(k));
    lemma_byte_offset_full(d);
    if k + i < n {
        lemma_byte_offset_mono(d, k + i, n);
        let k2 = choose|k2: int| 0 <= k2 <= d.len() && #[trigger] byte_offset(d, k2) == e;
        lemma_byte_offset_injective(d, k2, k + i);
        assert(last_forward_start(d, k) == last_forward_start(d, k + i));
        lemma_walk_forward_walk(d, k + i);
    } else {
        assert(starts_last_segment(d, k));
        assert(last_forward_start(d, k) == byte_offset(d, k));
    }
}

/// Front and back agree on every text without the two exception patterns
/// (`agreeable`): the last segment found from the back starts where the
/// walk from the front reaches its last segment, and both start it at the
/// last scalar that is not joined to the one before it.
pub proof fn law_directions_agree(d: Seq<char>)
    requires
        agreeable(d),
        d.len() > 0,
        utf8_len(d) <= usize::MAX,
    ensures
        last_segment_start(d) == last_forward_start(d, 0),
        exists|st: int| starts_last_segment(d, st) && last_segment_start(d) == byte_offset(d, st),
{
    lemma_agree_last_segment(d);
    lemma_walk_forward_walk(d, 0);
    let a = choose|i: int| starts_last_segment(d, i) && last_segment_start(d) == byte_offset(d, i);
    let b = choose|st: int|
        0 <= st && starts_last_segment(d, st) && last_forward_start(d, 0) == byte_offset(d, st);
    lemma_last_segment_unique(d, a, b);
}

/// Scalar offset `p` of `d` is a word boundary under the rules: the start,
/// the end, or a scalar that is not joined to the one before it.
pub open spec fn rule_boundary(d: Seq<char>, p: int) -> bool {
    p == 0 || p == d.len() || !joined(d, p)
}

proof fn lemma_walk_first_after(d: Seq<char>, k: int, ko: int)
    requires
        agreeable(d),
        utf8_len(d) <= usize::MAX,
        0 <= k <= ko < d.len(),
        k == 0 || !joined(d, k),
    ensures
        exists|b: int|
            ko < b <= d.len() && rule_boundary(d, b) && (forall|q: int|
                ko < q < b ==> #[trigger] joined(d, q)) && first_boundary_after(
                d,
                k,
                byte_offset(d, ko) as int,
            ) == byte_offset(d, b),
    decreases d.len() - k,
{
    let n = d.len() as int;
    lemma_walk_segment_from(d, k);
    let i = choose|i: int|
        #![trigger byte_offset(d, k + i)]
        0 < i && k + i <= d.len() && byte_offset(d, k) + first_segment_end(d.skip(k))
            == byte_offset(d, k + i) && (forall|p: int| k < p < k + i ==> #[trigger] joined(d, p))
            && (k + i == d.len() || !joined(d, k + i));
    let e = byte_offset(d, k) + first_segment_end(d.skip(k));
    lemma_byte_offset_full(d);
    if k + i > ko {
        lemma_byte_offset_mono(d, ko, k + i);
        assert(first_boundary_after(d, k, byte_offset(d, ko) as int) == byte_offset(d, k + i));
        assert(rule_boundary(d, k + i));
    } else {
        lemma_byte_offset_mono(d, k + i, ko);
        let k2 = choose|k2: int| 0 <= k2 <= d.len() && #[trigger] byte_offset(d, k2) == e;
        lemma_byte_offset_injective(d, k2, k + i);
        assert(first_boundary_after(d, k, byte_offset(d, ko) as int) == first_boundary_after(
            d,
            k + i,
            byte_offset(d, ko) as int,
        ));
        lemma_walk_first_after(d, k + i, ko);
    }
}



/// The last segment of a prefix of a text that ends where nothing
/// joins begins at the last scalar of the prefix not joined to the one
/// before it.
proof fn lemma_walk_segment_before(d: Seq<char>, k: int)
    requires
        agreeable(d),
        utf8_len(d) <= usize::MAX,
        0 < k <= d.len(),
        k == d.len() || !joined(d, k),
    ensures
        exists|st: int|
            #![trigger byte_offset(d, st)]
            0 <= st < k && (st == 0 || !joined(d, st)) && (forall|p: int|
                st < p < k ==> #[trigger] joined(d, p)) && last_segment_start(d.take(k))
                == byte_offset(d, st),
{
    let pre = d.take(k);
    lemma_agreeable_take(d, k);
    lemma_byte_offset_full(d);
    lemma_byte_offset_mono(d, k, d.len() as int);
    lemma_agree_last_segment(pre);
    let st = choose|i: int|
        starts_last_segment(pre, i) && last_segment_start(pre) == byte_offset(pre, i);
    assert(pre.take(st) =~= d.take(st));
    assert forall|p: int| st < p < k implies #[trigger] joined(d, p) by {
        assert(joined(pre, p));
        lemma_joined_take(d, k, p);
    }
    if st > 0 {
        lemma_joined_take(d, k, st);
    }
    assert(0 <= st < k && (st == 0 || !joined(d, st)));
    assert(last_segment_start(d.take(k)) == byte_offset(d, st));
}

proof fn lemma_walk_last_before(d: Seq<char>, k: int, ko: int)
    requires
        agreeable(d),
        utf8_len(d) <= usize::MAX,
        0 < ko <= k <= d.len(),
        k == d.len() || !joined(d, k),
    ensures
        exists|b: int|
            0 <= b < ko && rule_boundary(d, b) && (forall|q: int|
                b < q < ko ==> #[trigger] joined(d, q)) && last_boundary_before(
                d,
                k,
                byte_offset(d, ko) as int,
            ) == byte_offset(d, b),
    decreases k,
{
    lemma_walk_segment_before(d, k);
    let st = choose|st: int|
        #![trigger byte_offset(d, st)]
        0 <= st < k && (st == 0 || !joined(d, st)) && (forall|p: int|
            st < p < k ==> #[trigger] joined(d, p)) && last_segment_start(d.take(k))
            == byte_offset(d, st);
    let s = byte_offset(d, st);
    if st < ko {
        lemma_byte_offset_mono(d, st, ko);
        assert(rule_boundary(d, st));
        assert(last_boundary_before(d, k, byte_offset(d, ko) as int) == s);
    } else {
        lemma_byte_offset_mono(d, ko, st);
        let k2 = choose|k2: int| 0 <= k2 <= d.len() && #[trigger] byte_offset(d, k2) == s;
        lemma_byte_offset_injective(d, k2, st);
        assert(last_boundary_before(d, k, byte_offset(d, ko) as int) == last_boundary_before(
            d,
            st,
            byte_offset(d, ko) as int,
        ));
        lemma_walk_last_before(d, st, ko);
    }
}

/// From any scalar offset `ko` of an agreeable text before its end, the
/// forward query reports the first rule boundary after `ko`.
pub proof fn law_first_boundary_after(d: Seq<char>, ko: int)
    requires
        agreeable(d),
        utf8_len(d) <= usize::MAX,
        0 <= ko < d.len(),
    ensures
        exists|b: int|
            ko < b <= d.len() && rule_boundary(d, b) && (forall|q: int|
                ko < q < b ==> #[trigger] joined(d, q)) && first_boundary_after(
                d,
                0,
                byte_offset(d, ko) as int,
            ) == byte_offset(d, b),
{
    lemma_walk_first_after(d, 0, ko);
}

/// From any scalar offset `ko` of an agreeable text after its start, the
/// reverse query reports the last rule boundary before `ko`.
pub proof fn law_last_boundary_before(d: Seq<char>, ko: int)
    requires
        agreeable(d),
        utf8_len(d) <= usize::MAX,
        0 < ko <= d.len(),
    ensures
        exists|b: int|
            0 <= b < ko && rule_boundary(d, b) && (forall|q: int|
                b < q < ko ==> #[trigger] joined(d, q)) && last_boundary_before(
                d,
                d.len() as int,
                byte_offset(d, ko) as int,
            ) == byte_offset(d, b),
{
    lemma_walk_last_before(d, d.len() as int, ko);
}

/// On agreeable text, the cursor's forward and reverse queries stop at the same
/// offsets: an inner scalar offset `p` is reported by a forward query from
/// some offset exactly when it is reported by a reverse query from some
/// offset, exactly when it is a rule boundary.
pub proof fn law_queries_agree(d: Seq<char>, p: int)
    requires
        agreeable(d),
        utf8_len(d) <= usize::MAX,
        0 < p < d.len(),
    ensures
        (exists|ko: int|
            0 <= ko < d.len() && first_boundary_after(d, 0, #[trigger] byte_offset(d, ko) as int)
                == byte_offset(d, p)) <==> rule_boundary(d, p),
        (exists|ko: int|
            0 < ko <= d.len() && last_boundary_before(
                d,
                d.len() as int,
                #[trigger] byte_offset(d, ko) as int,
            ) == byte_offset(d, p)) <==> rule_boundary(d, p),
{
    let n = d.len() as int;
    law_first_boundary_after(d, p - 1);
    let bf = choose|b: int|
        p - 1 < b <= d.len() && rule_boundary(d, b) && (forall|q: int|
            p - 1 < q < b ==> #[trigger] joined(d, q)) && first_boundary_after(
            d,
            0,
            byte_offset(d, p - 1) as int,
        ) == byte_offset(d, b);
    if rule_boundary(d, p) && bf > p {
        assert(joined(d, p));
    }
    law_last_boundary_before(d, p + 1);
    let br = choose|b: int|
        0 <= b < p + 1 && rule_boundary(d, b) && (forall|q: int|
            b < q < p + 1 ==> #[trigger] joined(d, q)) && last_boundary_before(
            d,
            n,
            byte_offset(d, p + 1) as int,
        ) == byte_offset(d, b);
    if rule_boundary(d, p) && br < p {
        assert(joined(d, p));
    }
    if exists|ko: int|
        0 <= ko < d.len() && first_boundary_after(d, 0, #[trigger] byte_offset(d, ko) as int)
            == byte_offset(d, p) {
        let ko = choose|ko: int|
            0 <= ko < d.len() && first_boundary_after(d, 0, #[trigger] byte_offset(d, ko) as int)
                == byte_offset(d, p);
        law_first_boundary_after(d, ko);
        let b = choose|b: int|
            ko < b <= d.len() && rule_boundary(d, b) && (forall|q: int|
                ko < q < b ==> #[trigger] joined(d, q)) && first_boundary_after(
                d,
                0,
                byte_offset(d, ko) as int,
            ) == byte_offset(d, b);
        lemma_byte_offset_injective(d, b, p);
    }
    if exists|ko: int|
        0 < ko <= d.len() && last_boundary_before(
            d,
            d.len() as int,
            #[trigger] byte_offset(d, ko) as int,
        ) == byte_offset(d, p) {
        let ko = choose|ko: int|
            0 < ko <= d.len() && last_boundary_before(
                d,
                d.len() as int,
                #[trigger] byte_offset(d, ko) as int,
            ) == byte_offset(d, p);
        law_last_boundary_before(d, ko);
        let b = choose|b: int|
            0 <= b < ko && rule_boundary(d, b) && (forall|q: int|
                b < q < ko ==> #[trigger] joined(d, q)) && last_boundary_before(
                d,
                d.len() as int,
                byte_offset(d, ko) as int,
            ) == byte_offset(d, b);
        lemma_byte_offset_injective(d, b, p);
    }
}

/// The byte offsets of the rule boundaries among the scalar offsets from
/// `a` up to (not including) `b` of `d`, in order.
pub open spec fn boundaries_between(d: Seq<char>, a: int, b: int) -> Seq<int>
    decreases b - a,
{
    if a >= b {
        Seq::empty()
    } else if rule_boundary(d, a) {
        seq![byte_offset(d, a) as int] + boundaries_between(d, a + 1, b)
    } else {
        boundaries_between(d, a + 1, b)
    }
}

proof fn lemma_boundaries_skip(d: Seq<char>, a: int, c: int, b: int)
    requires
        a <= c <= b,
        forall|p: int| a <= p < c ==> !#[trigger] rule_boundary(d, p),
    ensures
        boundaries_between(d, a, b) == boundaries_between(d, c, b),
    decreases c - a,
{
    if a < c {
        lemma_boundaries_skip(d, a + 1, c, b);
    }
}

proof fn lemma_boundaries_last(d: Seq<char>, a: int, st: int, k: int)
    requires
        a <= st < k,
        rule_boundary(d, st),
        forall|p: int| st < p < k ==> !#[trigger] rule_boundary(d, p),
    ensures
        boundaries_between(d, a, k) == boundaries_between(d, a, st).push(byte_offset(d, st) as int),
    decreases st - a,
{
    if a == st {
        lemma_boundaries_skip(d, st + 1, k, k);
        assert(boundaries_between(d, st, st) =~= Seq::<int>::empty());
        assert(boundaries_between(d, k, k) =~= Seq::<int>::empty());
        assert(seq![byte_offset(d, st) as int] + Seq::<int>::empty() =~= Seq::<int>::empty().push(
            byte_offset(d, st) as int,
        ));
    } else {
        lemma_boundaries_last(d, a + 1, st, k);
        let x = boundaries_between(d, a + 1, st);
        let v = byte_offset(d, st) as int;
        assert(seq![byte_offset(d, a) as int] + x.push(v) =~= (seq![byte_offset(d, a) as int]
            + x).push(v));
    }
}

/// On agreeable text, the offsets that `UWordBoundIndices::next` yields
/// from a rule boundary `k` on are the rule boundaries from `k` on.
proof fn lemma_walk_word_bound_offsets(d: Seq<char>, k: int)
    requires
        agreeable(d),
        utf8_len(d) <= usize::MAX,
        0 <= k <= d.len(),
        k == 0 || k == d.len() || !joined(d, k),
    ensures
        word_bound_offsets(byte_offset(d, k) as int, d.skip(k)) == boundaries_between(
            d,
            k,
            d.len() as int,
        ),
    decreases d.len() - k,
{
    let n = d.len() as int;
    let rest = d.skip(k);
    if k == n {
        assert(rest.len() == 0);
        assert(word_bound_offsets(byte_offset(d, k) as int, rest) =~= Seq::<int>::empty());
    } else {
        lemma_walk_segment_from(d, k);
        let i = choose|i: int|
            #![trigger byte_offset(d, k + i)]
            0 < i && k + i <= d.len() && byte_offset(d, k) + first_segment_end(d.skip(k))
                == byte_offset(d, k + i) && (forall|p: int| k < p < k + i ==> #[trigger] joined(d, p))
                && (k + i == d.len() || !joined(d, k + i));
        assert(d =~= d.take(k) + rest);
        lemma_utf8_len_concat(d.take(k), rest);
        lemma_first_segment_len(rest);
        let m = first_segment_len(rest);
        assert(d.take(k + m) =~= d.take(k) + rest.take(m));
        lemma_utf8_len_concat(d.take(k), rest.take(m));
        lemma_byte_offset_injective(d, k + m, k + i);
        assert(rest.skip(m) =~= d.skip(k + i));
        lemma_walk_word_bound_offsets(d, k + i);
        assert forall|p: int| k + 1 <= p < k + i implies !#[trigger] rule_boundary(d, p) by {
            assert(joined(d, p));
        }
        lemma_boundaries_skip(d, k + 1, k + i, n);
        assert(rule_boundary(d, k));
    }
}

/// On agreeable text, a cursor walking backward from a rule boundary `k`
/// reports the rule boundaries before `k`, last first.
proof fn lemma_walk_reverse_walk(d: Seq<char>, k: int, cuts: spec_fn(int) -> Seq<Seq<char>>)
    requires
        agreeable(d),
        utf8_len(d) <= usize::MAX,
        0 <= k <= d.len(),
        k == 0 || k == d.len() || !joined(d, k),
        forall|j: int|
            0 < j <= d.len() ==> (#[trigger] cuts(j)).flatten() == d.take(j) && cuts(j).len() > 0
                && forall|i: int| 0 <= i < cuts(j).len() ==> #[trigger] cuts(j)[i].len() > 0,
    ensures
        seq![byte_offset(d, k) as int] + reverse_cursor_walk(
            WordCursor::fresh(byte_offset(d, k) as usize, utf8_len(d) as usize, true),
            d,
            k,
            cuts,
        ) == boundaries_between(d, 0, k).push(byte_offset(d, k) as int).reverse(),
    decreases k,
{
    let n = d.len() as int;
    let len = utf8_len(d);
    let o = byte_offset(d, k);
    lemma_byte_offset_full(d);
    lemma_byte_offset_mono(d, k, n);
    let c = WordCursor::fresh(o as usize, len as usize, true);
    if k == 0 {
        assert(boundaries_between(d, 0, 0) =~= Seq::<int>::empty());
        assert(Seq::<int>::empty().push(o as int).reverse() =~= seq![o as int]);
    } else {
        let pieces = cuts(k);
        assert(pieces.flatten() == d.take(k));
        law_reverse_any_partition(pieces, len as usize);
        lemma_fresh_wf(o as usize, len as usize, true);
        lemma_feed_backward_boundary_cursor(c, pieces, o as int);
        lemma_walk_segment_before(d, k);
        let st = choose|st: int|
            #![trigger byte_offset(d, st)]
            0 <= st < k && (st == 0 || !joined(d, st)) && (forall|p: int|
                st < p < k ==> #[trigger] joined(d, p)) && last_segment_start(d.take(k))
                == byte_offset(d, st);
        let b = byte_offset(d, st);
        lemma_byte_offset_mono(d, st, n);
        let r = feed_backward(c, pieces, o as int);
        assert(r.1 == Ok::<WordCursorResult, WordCursorError>(
            WordCursorResult::Boundary(b as usize),
        ));
        let k2 = choose|k2: int| 0 <= k2 <= d.len() && #[trigger] byte_offset(d, k2) == b;
        lemma_byte_offset_injective(d, k2, st);
        lemma_walk_reverse_walk(d, st, cuts);
        let tail_walk = reverse_cursor_walk(r.0, d, st, cuts);
        assert(reverse_cursor_walk(c, d, k, cuts) == seq![b as int] + tail_walk);
        assert forall|p: int| st < p < k implies !#[trigger] rule_boundary(d, p) by {
            assert(joined(d, p));
        }
        lemma_boundaries_last(d, 0, st, k);
        let x = boundaries_between(d, 0, st).push(b as int);
        assert(seq![b as int] + tail_walk == x.reverse());
        assert(x.push(o as int).reverse() =~= seq![o as int] + x.reverse());
    }
}

/// On agreeable text, a cursor walking backward over the whole document query
/// by query, each query given to the cursor the last one left and fed the
/// document before it cut into any non-empty pieces, reports the offsets of
/// `new_word_bound_indices` in reverse: the document length followed by
/// the reported boundaries is the iterator's offsets followed by the
/// length, reversed, whatever the cuts.
pub proof fn law_reverse_walk_matches_word_bound_indices(
    d: Seq<char>,
    cuts: spec_fn(int) -> Seq<Seq<char>>,
)
    requires
        agreeable(d),
        utf8_len(d) <= usize::MAX,
        forall|j: int|
            0 < j <= d.len() ==> (#[trigger] cuts(j)).flatten() == d.take(j) && cuts(j).len() > 0
                && forall|i: int| 0 <= i < cuts(j).len() ==> #[trigger] cuts(j)[i].len() > 0,
    ensures
        seq![utf8_len(d) as int] + reverse_cursor_walk(
            WordCursor::fresh(utf8_len(d) as usize, utf8_len(d) as usize, true),
            d,
            d.len() as int,
            cuts,
        ) == word_bound_offsets(0, d).push(utf8_len(d) as int).reverse(),
{
    let n = d.len() as int;
    lemma_byte_offset_full(d);
    assert(d.take(0) =~= Seq::<char>::empty());
    assert(d.skip(0) =~= d);
    lemma_walk_reverse_walk(d, n, cuts);
    lemma_walk_word_bound_offsets(d, 0);
}

/// The byte offsets at which `UWordBoundIndices::next_back` yields its
/// segments, one call after another, from an iterator whose view is
/// `(offset, rest)`.
pub open spec fn word_bound_offsets_back(offset: int, rest: Seq<char>) -> Seq<int>
    decreases rest.len(),
{
    let st = last_segment_index(rest);
    if 0 <= st < rest.len() {
        seq![offset + utf8_len(rest.take(st))] + word_bound_offsets_back(offset, rest.take(st))
    } else {
        Seq::empty()
    }
}

proof fn lemma_walk_offsets_back(d: Seq<char>, k: int)
    requires
        agreeable(d),
        utf8_len(d) <= usize::MAX,
        0 <= k <= d.len(),
        k == 0 || k == d.len() || !joined(d, k),
    ensures
        word_bound_offsets_back(0, d.take(k)) == boundaries_between(d, 0, k).reverse(),
    decreases k,
{
    let n = d.len() as int;
    let pre = d.take(k);
    lemma_byte_offset_full(d);
    if k == 0 {
        assert(pre.len() == 0);
        assert(boundaries_between(d, 0, 0) =~= Seq::<int>::empty());
        assert(word_bound_offsets_back(0, pre) =~= Seq::<int>::empty());
        assert(Seq::<int>::empty().reverse() =~= Seq::<int>::empty());
    } else {
        lemma_byte_offset_mono(d, k, n);
        assert(utf8_len(pre) == byte_offset(d, k));
        lemma_last_segment_index(pre);
        lemma_walk_segment_before(d, k);
        let st = choose|st: int|
            #![trigger byte_offset(d, st)]
            0 <= st < k && (st == 0 || !joined(d, st)) && (forall|p: int|
                st < p < k ==> #[trigger] joined(d, p)) && last_segment_start(d.take(k))
                == byte_offset(d, st);
        let li = last_segment_index(pre);
        assert(pre.take(st) =~= d.take(st));
        assert(pre.take(li) =~= d.take(li));
        lemma_byte_offset_injective(d, li, st);
        lemma_walk_offsets_back(d, st);
        assert forall|p: int| st < p < k implies !#[trigger] rule_boundary(d, p) by {
            assert(joined(d, p));
        }
        lemma_boundaries_last(d, 0, st, k);
        let x = boundaries_between(d, 0, st);
        let v = byte_offset(d, st) as int;
        assert(word_bound_offsets_back(0, pre) == seq![v] + word_bound_offsets_back(0, d.take(st)));
        assert(x.push(v).reverse() =~= seq![v] + x.reverse());
    }
}

/// On agreeable text, `UWordBoundIndices` walked from the back yields the same
/// offsets as walked from the front, in reverse order.
pub proof fn law_word_bound_offsets_both_ends(d: Seq<char>)
    requires
        agreeable(d),
        utf8_len(d) <= usize::MAX,
    ensures
        word_bound_offsets_back(0, d) == word_bound_offsets(0, d).reverse(),
{
    let n = d.len() as int;
    assert(d.take(n) =~= d);
    assert(d.take(0) =~= Seq::<char>::empty());
    assert(d.skip(0) =~= d);
    lemma_walk_offsets_back(d, n);
    lemma_walk_word_bound_offsets(d, 0);
}

/// On an agreeable text, the first segment taken from a scalar `a` that is
/// not joined to the one before it runs to the next such scalar.
proof fn lemma_first_len(e: Seq<char>, a: int)
    requires
        agreeable(e),
        utf8_len(e) <= usize::MAX,
        0 <= a < e.len(),
        a == 0 || !joined(e, a),
    ensures
        0 < first_segment_len(e.skip(a)) && a + first_segment_len(e.skip(a)) <= e.len(),
        forall|p: int| a < p < a + first_segment_len(e.skip(a)) ==> #[trigger] joined(e, p),
        a + first_segment_len(e.skip(a)) == e.len() || !joined(e, a + first_segment_len(e.skip(a))),
{
    let rest = e.skip(a);
    lemma_walk_segment_from(e, a);
    let i = choose|i: int|
        #![trigger byte_offset(e, a + i)]
        0 < i && a + i <= e.len() && byte_offset(e, a) + first_segment_end(e.skip(a))
            == byte_offset(e, a + i) && (forall|p: int| a < p < a + i ==> #[trigger] joined(e, p))
            && (a + i == e.len() || !joined(e, a + i));
    assert(e =~= e.take(a) + rest);
    lemma_utf8_len_concat(e.take(a), rest);
    lemma_first_segment_len(rest);
    let m = first_segment_len(rest);
    assert(e.take(a + m) =~= e.take(a) + rest.take(m));
    lemma_utf8_len_concat(e.take(a), rest.take(m));
    lemma_byte_offset_injective(e, a + m, a + i);
}

proof fn lemma_segments_last(e: Seq<char>, st: int)
    requires
        agreeable(e),
        utf8_len(e) <= usize::MAX,
        starts_last_segment(e, st),
    ensures
        word_segments(e.skip(st)) == seq![e.skip(st)],
{
    let n = e.len() as int;
    lemma_first_len(e, st);
    let i = first_segment_len(e.skip(st));
    let x = e.skip(st);
    if st + i < n {
        assert(joined(e, st + i));
    }
    assert(x.take(i) =~= x);
    assert(x.skip(i).len() == 0);
    assert(word_segments(x.skip(i)) =~= Seq::<Seq<char>>::empty());
    assert(word_segments(x) == seq![x.take(i)] + word_segments(x.skip(i)));
}

/// Before the last segment, the first segment taken from `a` is the same
/// in the whole text and in the text cut at the last segment.
proof fn lemma_first_len_before_last(e: Seq<char>, a: int, st: int)
    requires
        agreeable(e),
        utf8_len(e) <= usize::MAX,
        starts_last_segment(e, st),
        0 <= a < st,
        a == 0 || !joined(e, a),
    ensures
        first_segment_len(e.take(st).skip(a)) == first_segment_len(e.skip(a)),
        a + first_segment_len(e.skip(a)) <= st,
        a + first_segment_len(e.skip(a)) == st || !joined(e, a + first_segment_len(e.skip(a))),
{
    let n = e.len() as int;
    lemma_first_len(e, a);
    let i = first_segment_len(e.skip(a));
    let e2 = e.take(st);
    lemma_byte_offset_full(e);
    lemma_byte_offset_mono(e, st, n);
    assert(utf8_len(e2) == byte_offset(e, st));
    if a + i > st {
        assert(joined(e, st));
    }
    lemma_agreeable_take(e, st);
    if a > 0 {
        lemma_joined_take(e, st, a);
    }
    lemma_first_len(e2, a);
    let i2 = first_segment_len(e2.skip(a));
    if i < i2 {
        lemma_joined_take(e, st, a + i);
        assert(joined(e2, a + i));
    } else if i2 < i {
        lemma_joined_take(e, st, a + i2);
        assert(joined(e, a + i2));
    }
}

proof fn lemma_segments_split(e: Seq<char>, a: int, st: int)
    requires
        agreeable(e),
        utf8_len(e) <= usize::MAX,
        starts_last_segment(e, st),
        0 <= a <= st,
        a == 0 || !joined(e, a),
    ensures
        word_segments(e.skip(a)) == word_segments(e.take(st).skip(a)).push(e.skip(st)),
    decreases st - a,
{
    let n = e.len() as int;
    let x = e.skip(a);
    let e2 = e.take(st);
    if a == st {
        lemma_segments_last(e, st);
        assert(e2.skip(a).len() == 0);
        assert(word_segments(e2.skip(a)) =~= Seq::<Seq<char>>::empty());
        assert(seq![x] =~= Seq::<Seq<char>>::empty().push(x));
    } else {
        lemma_first_len_before_last(e, a, st);
        lemma_first_len(e, a);
        let i = first_segment_len(x);
        let y = e2.skip(a);
        assert(x.take(i) =~= y.take(i));
        assert(x.skip(i) =~= e.skip(a + i));
        assert(y.skip(i) =~= e2.skip(a + i));
        lemma_segments_split(e, a + i, st);
        assert(word_segments(x) == seq![x.take(i)] + word_segments(x.skip(i)));
        assert(word_segments(y) == seq![y.take(i)] + word_segments(y.skip(i)));
        let w = word_segments(e2.skip(a + i));
        assert(seq![x.take(i)] + w.push(e.skip(st)) =~= (seq![x.take(i)] + w).push(e.skip(st)));
    }
}

/// The segments that `UWordBounds::next_back` yields from the text `s`, one
/// call after another.
pub open spec fn word_segments_back(s: Seq<char>) -> Seq<Seq<char>>
    decreases s.len(),
{
    let st = last_segment_index(s);
    if 0 <= st < s.len() {
        seq![s.skip(st)] + word_segments_back(s.take(st))
    } else {
        Seq::empty()
    }
}

/// On an agreeable text, `UWordBounds` walked from the back yields the
/// segments it yields from the front, in reverse order.
pub proof fn law_word_segments_both_ends(e: Seq<char>)
    requires
        agreeable(e),
        utf8_len(e) <= usize::MAX,
    ensures
        word_segments_back(e) == word_segments(e).reverse(),
    decreases e.len(),
{
    if e.len() == 0 {
        assert(word_segments_back(e) =~= Seq::<Seq<char>>::empty());
        assert(first_segment_len(e) <= 0 || first_segment_len(e) > e.len());
        assert(word_segments(e) =~= Seq::<Seq<char>>::empty());
        assert(Seq::<Seq<char>>::empty().reverse() =~= Seq::<Seq<char>>::empty());
    } else {
        let n = e.len() as int;
        lemma_agree_last_segment(e);
        lemma_last_segment_index(e);
        let st = choose|i: int| starts_last_segment(e, i) && last_segment_start(e) == byte_offset(e, i);
        let li = last_segment_index(e);
        lemma_byte_offset_injective(e, li, st);
        lemma_agreeable_take(e, st);
        if st == 0 {
            assert(e.take(0).len() == 0);
        }
        lemma_byte_offset_full(e);
        lemma_byte_offset_mono(e, st, n);
        assert(e.take(st).take(st) =~= e.take(st));
        lemma_byte_offset_full(e.take(st));
        law_word_segments_both_ends(e.take(st));
        assert(e.skip(0) =~= e);
        assert(e.take(st).skip(0) =~= e.take(st));
        lemma_segments_split(e, 0, st);
        let w = word_segments(e.take(st));
        let v = e.skip(st);
        assert(word_segments_back(e) == seq![v] + word_segments_back(e.take(st)));
        assert(w.push(v).reverse() =~= seq![v] + w.reverse());
    }
}

proof fn lemma_boundaries_contains(d: Seq<char>, a: int, b: int, x: int)
    ensures
        boundaries_between(d, a, b).contains(x) <==> exists|p: int|
            a <= p < b && rule_boundary(d, p) && #[trigger] byte_offset(d, p) == x,
    decreases b - a,
{
    if a < b {
        lemma_boundaries_contains(d, a + 1, b, x);
        let rest = boundaries_between(d, a + 1, b);
        if rule_boundary(d, a) {
            let all = seq![byte_offset(d, a) as int] + rest;
            assert(all.contains(x) <==> (x == byte_offset(d, a) || rest.contains(x))) by {
                if x == byte_offset(d, a) {
                    assert(all[0] == x);
                }
                if rest.contains(x) {
                    let i = choose|i: int| 0 <= i < rest.len() && rest[i] == x;
                    assert(all[i + 1] == x);
                }
                if all.contains(x) {
                    let i = choose|i: int| 0 <= i < all.len() && all[i] == x;
                    if i > 0 {
                        assert(rest[i - 1] == x);
                    }
                }
            }
        }
    } else {
        assert(boundaries_between(d, a, b) =~= Seq::<int>::empty());
    }
}

/// On an agreeable text, a reverse query from any scalar offset `ko` after
/// the start reports an offset that `new_word_bound_indices` yields, the
/// last of them before `ko`.
pub proof fn law_reverse_query_lands_on_forward_offsets(d: Seq<char>, ko: int)
    requires
        agreeable(d),
        utf8_len(d) <= usize::MAX,
        0 < ko <= d.len(),
    ensures
        ({
            let o = byte_offset(d, ko) as int;
            let r = last_boundary_before(d, d.len() as int, o);
            let offs = word_bound_offsets(0, d);
            &&& offs.contains(r)
            &&& r < o
            &&& forall|x: int| offs.contains(x) && x < o ==> x <= r
        }),
{
    let n = d.len() as int;
    let o = byte_offset(d, ko) as int;
    let r = last_boundary_before(d, n, o);
    law_last_boundary_before(d, ko);
    let b = choose|b: int|
        0 <= b < ko && rule_boundary(d, b) && (forall|q: int| b < q < ko ==> #[trigger] joined(d, q))
            && last_boundary_before(d, d.len() as int, byte_offset(d, ko) as int) == byte_offset(
            d,
            b,
        );
    assert(d.take(0) =~= Seq::<char>::empty());
    assert(d.skip(0) =~= d);
    lemma_walk_word_bound_offsets(d, 0);
    let offs = word_bound_offsets(0, d);
    lemma_boundaries_contains(d, 0, n, r);
    lemma_byte_offset_mono(d, b, ko);
    assert forall|x: int| offs.contains(x) && x < o implies x <= r by {
        lemma_boundaries_contains(d, 0, n, x);
        let p = choose|p: int| 0 <= p < n && rule_boundary(d, p) && #[trigger] byte_offset(d, p) == x;
        if p >= ko {
            lemma_byte_offset_mono(d, ko, p);
        }
        if p > b {
            assert(joined(d, p));
        }
        lemma_byte_offset_mono(d, p, b);
    }
}

/// On an agreeable text, a forward query from any scalar offset `ko` before
/// the end reports an offset that `new_word_bound_indices` yields, or the
/// end, the first of them after `ko`.
pub proof fn law_forward_query_lands_on_forward_offsets(d: Seq<char>, ko: int)
    requires
        agreeable(d),
        utf8_len(d) <= usize::MAX,
        0 <= ko < d.len(),
    ensures
        ({
            let o = byte_offset(d, ko) as int;
            let f = first_boundary_after(d, 0, o);
            let offs = word_bound_offsets(0, d);
            &&& offs.contains(f) || f == utf8_len(d)
            &&& o < f
            &&& forall|x: int| offs.contains(x) && o < x ==> f <= x
        }),
{
    let n = d.len() as int;
    let o = byte_offset(d, ko) as int;
    let f = first_boundary_after(d, 0, o);
    law_first_boundary_after(d, ko);
    let b = choose|b: int|
        ko < b <= d.len() && rule_boundary(d, b) && (forall|q: int| ko < q < b ==> #[trigger] joined(d, q))
            && first_boundary_after(d, 0, byte_offset(d, ko) as int) == byte_offset(d, b);
    assert(d.take(0) =~= Seq::<char>::empty());
    assert(d.skip(0) =~= d);
    lemma_walk_word_bound_offsets(d, 0);
    let offs = word_bound_offsets(0, d);
    lemma_byte_offset_full(d);
    lemma_boundaries_contains(d, 0, n, f);
    lemma_byte_offset_mono(d, ko, b);
    assert forall|x: int| offs.contains(x) && o < x implies f <= x by {
        lemma_boundaries_contains(d, 0, n, x);
        let p = choose|p: int| 0 <= p < n && rule_boundary(d, p) && #[trigger] byte_offset(d, p) == x;
        if p <= ko {
            lemma_byte_offset_mono(d, p, ko);
        }
        if p < b {
            assert(joined(d, p));
        }
        lemma_byte_offset_mono(d, b, p);
    }
}

/// On an agreeable text, a reverse query from any scalar offset strictly
/// inside it, its requests answered with the text cut anywhere, reports the
/// last offset before it that `new_word_bound_indices` yields.
pub proof fn law_reverse_query_cut_lands_on_forward_offsets(
    d: Seq<char>,
    ko: int,
    first: Seq<char>,
    post: Seq<Seq<char>>,
    cuts: spec_fn(int) -> Seq<Seq<char>>,
)
    requires
        agreeable(d),
        0 < ko < d.len(),
        utf8_len(d) <= usize::MAX,
        first.len() > 0,
        utf8_len(first) <= byte_offset(d, ko),
        post.len() > 0,
        forall|i: int| 0 <= i < post.len() ==> #[trigger] post[i].len() > 0,
        post.flatten() == d.skip(ko),
        forall|j: int|
            0 < j <= d.len() ==> (#[trigger] cuts(j)).flatten() == d.take(j) && cuts(j).len() > 0
                && forall|i: int| 0 <= i < cuts(j).len() ==> #[trigger] cuts(j)[i].len() > 0,
    ensures
        ({
            let o = byte_offset(d, ko) as int;
            let offs = word_bound_offsets(0, d);
            exists|r: int|
                reverse_query_cut(d, ko, first, post, cuts).1 == Ok::<WordCursorResult, WordCursorError>(
                    WordCursorResult::Boundary(r as usize),
                ) && #[trigger] offs.contains(r) && r < o && forall|x: int|
                    offs.contains(x) && x < o ==> x <= r
        }),
{
    law_reverse_query_any_partition(d, ko, first, post, cuts);
    law_reverse_query_lands_on_forward_offsets(d, ko);
    let r = last_boundary_before(d, d.len() as int, byte_offset(d, ko) as int);
    assert(word_bound_offsets(0, d).contains(r));
}

/// On an agreeable text, a forward query from any scalar offset strictly
/// inside it, its requests answered with the text cut anywhere, reports the
/// first offset after it that `new_word_bound_indices` yields, or the end.
pub proof fn law_forward_query_cut_lands_on_forward_offsets(
    d: Seq<char>,
    ko: int,
    first: Seq<char>,
    pre: Seq<Seq<char>>,
    cuts: spec_fn(int) -> Seq<Seq<char>>,
)
    requires
        agreeable(d),
        0 < ko < d.len(),
        utf8_len(d) <= usize::MAX,
        first.len() > 0,
        byte_offset(d, ko) + utf8_len(first) <= utf8_len(d),
        pre.len() > 0,
        forall|i: int| 0 <= i < pre.len() ==> #[trigger] pre[i].len() > 0,
        pre.flatten() == d.take(ko),
        forall|j: int|
            0 <= j < d.len() ==> (#[trigger] cuts(j)).flatten() == d.skip(j) && cuts(j).len() > 0
                && forall|i: int| 0 <= i < cuts(j).len() ==> #[trigger] cuts(j)[i].len() > 0,
    ensures
        ({
            let o = byte_offset(d, ko) as int;
            let offs = word_bound_offsets(0, d);
            exists|f: int|
                forward_query_cut(d, ko, first, pre, cuts).1 == Ok::<WordCursorResult, WordCursorError>(
                    WordCursorResult::Boundary(f as usize),
                ) && (#[trigger] offs.contains(f) || f == utf8_len(d)) && o < f && forall|x: int|
                    offs.contains(x) && o < x ==> f <= x
        }),
{
    law_forward_query_any_partition(d, ko, first, pre, cuts);
    law_forward_query_lands_on_forward_offsets(d, ko);
    let f = first_boundary_after(d, 0, byte_offset(d, ko) as int);
    assert(word_bound_offsets(0, d).contains(f) || f == utf8_len(d));
}

} // verus!
