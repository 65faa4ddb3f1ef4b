//! Where word segmentation taken from the front and taken from the back
//! agree: the start of the last segment found from the back is the start of
//! the last segment found by walking from the front.

use crate::utf8_len::{
    byte_offset, lemma_byte_offset_full, lemma_byte_offset_injective, lemma_byte_offset_mono,
    lemma_byte_offset_step, lemma_utf8_len_concat, utf8_len, utf8_width,
};
use crate::word::{
    ascii_back_ok, ascii_codes, ascii_front_ok, core_continues, core_extends_back,
    first_segment_len, is_core_byte, is_infix_byte, last_segment_index,
    lemma_ascii_back_unique, lemma_ascii_utf8_len, lemma_first_segment_len,
    lemma_last_segment_index,
};
use crate::word_ascii::{
    ascii_properties_standard, lemma_ascii_first_segment, lemma_ascii_last_segment,
};
use crate::word_cat::{extended_pictographic, word_cat, WordCat};
use crate::word_cursor::{
    feed_backward, feed_forward, first_segment_end, last_segment_start,
    law_forward_any_partition, law_next_boundary_step, law_prev_boundary_step, lemma_fresh_wf,
    WordCursor, WordCursorError, WordCursorResult,
};
use crate::word_cursor_forward::forward_scan;
use crate::word_cursor_reverse::{
    reverse_init, reverse_scan, reverse_step, ReverseRegional, ReverseState,
};
use vstd::prelude::*;

verus! {

/// The byte offset where the last segment of `d` begins, walking the
/// contiguous segmentation from the front from its segment at scalar
/// offset `k`.
pub open spec fn last_forward_start(d: Seq<char>, k: int) -> int
    decreases d.len() - k,
{
    let e = byte_offset(d, k) + first_segment_end(d.skip(k));
    if k >= d.len() || e >= utf8_len(d) {
        byte_offset(d, k) as int
    } else {
        let k2 = choose|k2: int| 0 <= k2 <= d.len() && #[trigger] byte_offset(d, k2) == e;
        if k < k2 < d.len() {
            last_forward_start(d, k2)
        } else {
            byte_offset(d, k) as int
        }
    }
}

/// Every scalar of `d` is a regional indicator.
pub open spec fn all_regional(d: Seq<char>) -> bool {
    forall|i: int| 0 <= i < d.len() ==> #[trigger] word_cat(d[i]) == WordCat::RegionalIndicator
}

/// From the front, a run of regional indicators begins with a pair (or a
/// lone indicator).
proof fn lemma_forward_regional(r: Seq<char>)
    requires
        r.len() > 0,
        all_regional(r),
        utf8_len(r) <= usize::MAX,
    ensures
        first_segment_end(r) == byte_offset(r, if r.len() >= 2 {
            2
        } else {
            1
        }),
{
    reveal_with_fuel(forward_scan, 4);
    assert(word_cat(r[0]) == WordCat::RegionalIndicator);
    lemma_byte_offset_step(r, 0);
    assert(r.take(0) =~= Seq::<char>::empty());
    lemma_byte_offset_full(r);
    let t1 = r.drop_first();
    if r.len() == 1 {
        assert(t1 =~= Seq::<char>::empty());
    } else {
        assert(word_cat(r[1]) == WordCat::RegionalIndicator);
        assert(t1[0] == r[1]);
        lemma_byte_offset_step(r, 1);
        let t2 = t1.drop_first();
        if r.len() == 2 {
            assert(t2 =~= Seq::<char>::empty());
        } else {
            assert(word_cat(r[2]) == WordCat::RegionalIndicator);
            assert(t2[0] == r[2]);
        }
    }
}

/// From the back, each further regional indicator flips the parity of the
/// counted run.
proof fn lemma_reverse_regional_run(
    st: ReverseState,
    chars: Seq<char>,
    end: int,
)
    requires
        st.regional is Some,
        all_regional(chars),
    ensures
        reverse_scan(st, chars, end) == (
            ReverseState {
                regional: Some(
                    ReverseRegional {
                        odd: st.regional->0.odd != (chars.len() % 2 == 1),
                        ..st.regional->0
                    },
                ),
                ..st
            },
            None::<usize>,
        ),
    decreases chars.len(),
{
    if chars.len() > 0 {
        let c = chars.last();
        assert(word_cat(c) == WordCat::RegionalIndicator);
        let step = reverse_step(st, word_cat(c), extended_pictographic(c), (end - utf8_width(c)) as usize);
        let rest = chars.drop_last();
        assert forall|i: int| 0 <= i < rest.len() implies #[trigger] word_cat(rest[i])
            == WordCat::RegionalIndicator by {
            assert(rest[i] == chars[i]);
        }
        lemma_reverse_regional_run(step.0, rest, end - utf8_width(c));
    }
}

/// From the back, a run of regional indicators ends with a pair, or a lone
/// indicator when the run is odd.
proof fn lemma_reverse_regional(r: Seq<char>)
    requires
        r.len() > 0,
        all_regional(r),
        utf8_len(r) <= usize::MAX,
    ensures
        last_segment_start(r) == byte_offset(r, if r.len() % 2 == 1 {
            r.len() - 1
        } else {
            r.len() - 2
        }),
{
    reveal_with_fuel(reverse_scan, 3);
    let n = r.len() as int;
    let len = utf8_len(r);
    lemma_byte_offset_full(r);
    assert(r.take(n) =~= r);
    lemma_byte_offset_step(r, n - 1);
    assert(word_cat(r[n - 1]) == WordCat::RegionalIndicator);
    let s0 = reverse_init(len as usize);
    let c1 = r.last();
    let at1 = len - utf8_width(c1);
    let step1 = reverse_step(s0, word_cat(c1), extended_pictographic(c1), at1 as usize);
    let r1 = r.drop_last();
    assert(r1 =~= r.take(n - 1));
    if n == 1 {
        assert(r1 =~= Seq::<char>::empty());
        assert(r.take(0) =~= Seq::<char>::empty());
    } else {
        lemma_byte_offset_step(r, n - 2);
        assert(word_cat(r[n - 2]) == WordCat::RegionalIndicator);
        assert(r1.last() == r[n - 2]);
        let c2 = r1.last();
        let at2 = at1 - utf8_width(c2);
        let step2 = reverse_step(step1.0, word_cat(c2), extended_pictographic(c2), at2 as usize);
        let r2 = r1.drop_last();
        assert(r2 =~= r.take(n - 2));
        assert forall|i: int| 0 <= i < r2.len() implies #[trigger] word_cat(r2[i])
            == WordCat::RegionalIndicator by {
            assert(r2[i] == r[i]);
        }
        lemma_reverse_regional_run(step2.0, r2, at2);
        assert(reverse_scan(step1.0, r1, at1) == reverse_scan(step2.0, r2, at2));
    }
}

/// Front and back agree on runs of regional indicators: both pair them up
/// from the left (WB15/WB16), so the last segment found from the back is
/// the last one the front walk reaches.
pub proof fn law_regional_runs_agree(d: Seq<char>)
    requires
        d.len() > 0,
        all_regional(d),
        utf8_len(d) <= usize::MAX,
    ensures
        last_segment_start(d) == last_forward_start(d, 0),
        last_segment_start(d) == byte_offset(d, if d.len() % 2 == 1 {
            d.len() - 1
        } else {
            d.len() - 2
        }),
{
    lemma_reverse_regional(d);
    lemma_last_forward_regional(d, 0);
}

proof fn lemma_last_forward_regional(d: Seq<char>, k: int)
    requires
        0 <= k < d.len(),
        k % 2 == 0,
        all_regional(d),
        utf8_len(d) <= usize::MAX,
    ensures
        last_forward_start(d, k) == byte_offset(d, if d.len() % 2 == 1 {
            d.len() - 1
        } else {
            d.len() - 2
        }),
    decreases d.len() - k,
{
    let rest = d.skip(k);
    assert forall|i: int| 0 <= i < rest.len() implies #[trigger] word_cat(rest[i])
        == WordCat::RegionalIndicator by {
        assert(rest[i] == d[k + i]);
    }
    assert(d =~= d.take(k) + rest);
    lemma_utf8_len_concat(d.take(k), rest);
    lemma_forward_regional(rest);
    let j = if rest.len() >= 2 {
        2
    } else {
        1
    };
    assert(d.take(k + j) =~= d.take(k) + rest.take(j));
    lemma_utf8_len_concat(d.take(k), rest.take(j));
    let e = byte_offset(d, k) + first_segment_end(rest);
    assert(e == byte_offset(d, k + j));
    lemma_byte_offset_full(d);
    if k + j < d.len() {
        lemma_byte_offset_mono(d, k + j, d.len() as int);
        let k2 = choose|k2: int| 0 <= k2 <= d.len() && #[trigger] byte_offset(d, k2) == e;
        lemma_byte_offset_injective(d, k2, k + j);
        lemma_last_forward_regional(d, k + 2);
    } else {
        if k + j == d.len() {
        }
    }
}

/// In ASCII bytes `b`, the byte at `j` continues the segment that holds the
/// byte before it: a space after a space, LF after CR, or a core run going
/// on (through a core byte or an infix between core bytes).
pub open spec fn ascii_joined(b: Seq<u8>, j: int) -> bool {
    ||| (b[j - 1] == 0x20 && b[j] == 0x20)
    ||| (b[j - 1] == 0x0d && b[j] == 0x0a)
    ||| (is_core_byte(b[j - 1]) && core_continues(b, j))
    ||| (j >= 2 && is_infix_byte(b[j - 1], b[j - 2], b[j]))
}

/// An infix byte is never its own left neighbour's infix.
proof fn lemma_infix_facts(c: u8, p: u8, q: u8)
    ensures
        !is_infix_byte(c, c, q),
        is_infix_byte(c, p, q) ==> is_core_byte(p) && is_core_byte(q) && !is_core_byte(c) && c
            != 0x20 && c != 0x0a && c != 0x0d,
{
}

/// A fast-path segment that begins where nothing joins it runs exactly as
/// far as its bytes stay joined.
proof fn lemma_front_segment_joined(b: Seq<u8>, k: int, m: int)
    requires
        0 <= k < b.len(),
        k == 0 || !ascii_joined(b, k),
        ascii_front_ok(b.skip(k), m),
    ensures
        forall|i: int| k < i < k + m ==> #[trigger] ascii_joined(b, i),
        k + m < b.len() ==> !ascii_joined(b, k + m),
{
    let c = b.skip(k);
    assert forall|i: int| k < i < k + m implies #[trigger] ascii_joined(b, i) by {
        assert(c[i - k] == b[i]);
        assert(c[i - k - 1] == b[i - 1]);
        assert(c[0] == b[k]);
        if is_core_byte(c[0]) {
            assert(core_continues(c, i - k));
            if i + 1 < b.len() {
                assert(c[i - k + 1] == b[i + 1]);
            }
            if i - k >= 2 {
                assert(c[i - k - 2] == b[i - 2]);
            }
            if !is_core_byte(b[i - 1]) {
                assert(i - 1 > k);
                assert(core_continues(c, i - k - 1));
                assert(c[i - k - 2] == b[i - 2]);
                lemma_infix_facts(b[i - 1], b[i - 2], b[i]);
            }
        }
    }
    if k + m < b.len() {
        assert(c[m] == b[k + m]);
        assert(c[m - 1] == b[k + m - 1]);
        assert(c[0] == b[k]);
        if m >= 2 {
            assert(c[m - 2] == b[k + m - 2]);
        }
        if k + m + 1 < b.len() {
            assert(c[m + 1] == b[k + m + 1]);
        }
        lemma_infix_facts(b[k + m - 1], b[k + m - 2], b[k + m]);
        lemma_infix_facts(b[k + m], b[k + m - 1], if k + m + 1 < b.len() {
            b[k + m + 1]
        } else {
            b[k + m]
        });
        if is_core_byte(c[0]) {
            assert(!core_continues(c, m));
            if m >= 2 && !is_core_byte(b[k + m - 1]) {
                assert(core_continues(c, m - 1));
            }
        } else if m == 1 && k >= 1 {
            assert(b.skip(k)[0] == b[k]);
            lemma_infix_facts(b[k], b[k - 1], b[k + 1]);
        }
    }
}

proof fn lemma_spaces_back(b: Seq<u8>, st: int, p: int)
    requires
        0 <= st <= p < b.len(),
        b[b.len() - 1] == 0x20,
        forall|j: int| st < j < b.len() ==> #[trigger] ascii_joined(b, j),
    ensures
        forall|j: int| p <= j < b.len() ==> b[j] == 0x20,
    decreases b.len() - p,
{
    if p + 1 < b.len() {
        lemma_spaces_back(b, st, p + 1);
        assert(ascii_joined(b, p + 1));
        lemma_infix_facts(b[p], b[p], b[p + 1]);
        if p >= 1 {
            lemma_infix_facts(b[p], b[p - 1], b[p + 1]);
        }
        if p + 2 < b.len() {
            lemma_infix_facts(b[p + 1], b[p], b[p + 2]);
        }
    }
}

/// The bytes from `p` on that a core run ending the text can reach back to.
spec fn core_back(b: Seq<u8>, p: int) -> bool {
    is_core_byte(b[p]) || (p >= 1 && p + 1 < b.len() && is_infix_byte(b[p], b[p - 1], b[p + 1]))
}

proof fn lemma_core_back(b: Seq<u8>, st: int, p: int)
    requires
        0 <= st <= p < b.len(),
        is_core_byte(b[b.len() - 1]),
        forall|j: int| st < j < b.len() ==> #[trigger] ascii_joined(b, j),
    ensures
        forall|j: int| p <= j < b.len() ==> #[trigger] core_back(b, j),
    decreases b.len() - p,
{
    if p + 1 < b.len() {
        lemma_core_back(b, st, p + 1);
        assert(ascii_joined(b, p + 1));
        assert(core_back(b, p + 1));
        lemma_infix_facts(b[p + 1], b[p], if p + 2 < b.len() {
            b[p + 2]
        } else {
            b[p + 1]
        });
        if p >= 1 {
            lemma_infix_facts(b[p], b[p - 1], b[p + 1]);
        }
    }
}

/// The fast path's last segment starts at the last byte that nothing joins.
proof fn lemma_back_at_last_unjoined(b: Seq<u8>, st: int)
    requires
        0 <= st < b.len(),
        st == 0 || !ascii_joined(b, st),
        forall|j: int| st < j < b.len() ==> #[trigger] ascii_joined(b, j),
    ensures
        ascii_back_ok(b, st),
{
    let n = b.len() as int;
    if b[n - 1] == 0x20 {
        lemma_spaces_back(b, st, st);
        if st > 0 {
            assert(b[st] == 0x20);
        }
    } else if is_core_byte(b[n - 1]) {
        lemma_core_back(b, st, st);
        assert(core_back(b, st));
        if st > 0 {
            if st + 1 < n {
                lemma_infix_facts(b[st], b[st - 1], b[st + 1]);
            }
            assert(is_core_byte(b[st]));
            if st >= 2 {
                lemma_infix_facts(b[st - 1], b[st - 2], b[st]);
            }
            lemma_infix_facts(b[st - 1], b[st - 1], b[st]);
        }
        assert forall|j: int| st <= j < n - 1 implies core_extends_back(b, j) by {
            assert(core_back(b, j));
        }
    } else {
        if st < n - 1 {
            assert(ascii_joined(b, n - 1));
            lemma_infix_facts(b[n - 2], if n >= 3 {
                b[n - 3]
            } else {
                b[n - 2]
            }, b[n - 1]);
            if b[n - 2] == 0x0d && b[n - 1] == 0x0a {
                if st < n - 2 {
                    assert(ascii_joined(b, n - 2));
                    lemma_infix_facts(b[n - 2], b[n - 3], b[n - 1]);
                    if n >= 4 {
                        lemma_infix_facts(b[n - 3], b[n - 4], b[n - 2]);
                    }
                }
            }
        } else {
            if n >= 2 {
                lemma_infix_facts(b[n - 2], if n >= 3 {
                    b[n - 3]
                } else {
                    b[n - 2]
                }, b[n - 1]);
                assert(!ascii_joined(b, n - 1));
            }
        }
    }
}

/// Walking an ASCII text from a segment start that nothing joins ends at
/// the last byte that nothing joins.
proof fn lemma_last_forward_unjoined(s: Seq<char>, k: int)
    requires
        ascii_properties_standard(),
        vstd::utf8::is_ascii_chars(s),
        s.len() <= usize::MAX,
        0 <= k < s.len(),
        k == 0 || !ascii_joined(ascii_codes(s), k),
    ensures
        ({
            let x = last_forward_start(s, k);
            let b = ascii_codes(s);
            &&& k <= x < s.len()
            &&& (x == 0 || !ascii_joined(b, x))
            &&& forall|j: int| x < j < s.len() ==> #[trigger] ascii_joined(b, j)
        }),
    decreases s.len() - k,
{
    let b = ascii_codes(s);
    let rest = s.skip(k);
    lemma_ascii_utf8_len(s);
    assert(vstd::utf8::is_ascii_chars(rest));
    lemma_ascii_utf8_len(rest);
    lemma_ascii_first_segment(rest);
    lemma_first_segment_len(rest);
    let m = first_segment_len(rest);
    assert(ascii_codes(rest) =~= b.skip(k));
    lemma_front_segment_joined(b, k, m);
    let e = byte_offset(s, k) + first_segment_end(rest);
    assert(e == k + m);
    if k + m < s.len() {
        let k2 = choose|k2: int| 0 <= k2 <= s.len() && #[trigger] byte_offset(s, k2) == e;
        assert(byte_offset(s, k + m) == e);
        lemma_byte_offset_injective(s, k2, k + m);
        lemma_last_forward_unjoined(s, k + m);
    }
}

/// Front and back agree on ASCII text: with the listed ASCII properties
/// (which `ascii_properties_hold` checks), the last segment found from the
/// back starts where the walk from the front reaches its last segment.
pub proof fn law_ascii_directions_agree(s: Seq<char>)
    requires
        ascii_properties_standard(),
        vstd::utf8::is_ascii_chars(s),
        s.len() > 0,
        s.len() <= usize::MAX,
    ensures
        last_segment_start(s) == last_forward_start(s, 0),
{
    let b = ascii_codes(s);
    lemma_last_forward_unjoined(s, 0);
    let x = last_forward_start(s, 0);
    lemma_back_at_last_unjoined(b, x);
    lemma_ascii_last_segment(s);
    lemma_ascii_back_unique(b, x, last_segment_index(s));
    lemma_ascii_utf8_len(s);
    lemma_last_segment_index(s);
}

/// The offset that `UWordBoundIndices::next` reports after taking the first
/// segment of the remaining text `rest`, which begins at byte `offset`.
pub open spec fn word_bound_next_offset(offset: int, rest: Seq<char>) -> int {
    offset + utf8_len(rest.take(first_segment_len(rest)))
}

/// Each query of a cursor walking forward from a segment start reports the
/// offset that the contiguous iterator reaches next: from byte `offset`
/// with `rest` left, fed `rest` cut into any non-empty pieces, the cursor
/// reports `word_bound_next_offset(offset, rest)`. Walking query by query
/// from 0 thus visits the offsets of `new_word_bound_indices` in order.
pub proof fn law_cursor_step_matches_word_bound_indices(
    pieces: Seq<Seq<char>>,
    offset: usize,
)
    requires
        pieces.len() > 0,
        forall|i: int| 0 <= i < pieces.len() ==> #[trigger] pieces[i].len() > 0,
        offset + utf8_len(pieces.flatten()) <= usize::MAX,
    ensures
        feed_forward(
            WordCursor::fresh(offset, (offset + utf8_len(pieces.flatten())) as usize, true),
            pieces,
            offset as int,
        ).1 == Ok::<WordCursorResult, WordCursorError>(
            WordCursorResult::Boundary(
                word_bound_next_offset(offset as int, pieces.flatten()) as usize,
            ),
        ),
{
    let rest = pieces.flatten();
    assert(rest == pieces[0] + pieces.drop_first().flatten());
    law_forward_any_partition(pieces, offset);
    assert(utf8_len(pieces[0]) <= utf8_len(rest)) by {
        lemma_utf8_len_concat(pieces[0], pieces.drop_first().flatten());
    }
    lemma_first_segment_len(rest);
}

/// The byte offsets at which `UWordBoundIndices::next` yields its segments,
/// one call after another, from an iterator whose view is `(offset, rest)`.
pub open spec fn word_bound_offsets(offset: int, rest: Seq<char>) -> Seq<int>
    decreases rest.len(),
{
    let m = first_segment_len(rest);
    if 0 < m <= rest.len() {
        seq![offset] + word_bound_offsets(offset + utf8_len(rest.take(m)), rest.skip(m))
    } else {
        Seq::empty()
    }
}

/// The boundaries that a cursor reports walking forward query by query over
/// the document `d` from its scalar offset `k`: each query goes to the
/// cursor the last one left, and is fed the rest of the document from where
/// it begins, cut into the pieces `cuts(k)`.
pub open spec fn cursor_walk(
    c: WordCursor,
    d: Seq<char>,
    k: int,
    cuts: spec_fn(int) -> Seq<Seq<char>>,
) -> Seq<int>
    decreases d.len() - k,
{
    if 0 <= k < d.len() {
        let r = feed_forward(c, cuts(k), byte_offset(d, k) as int);
        match r.1 {
            Ok(WordCursorResult::Boundary(b)) => {
                let k2 = choose|k2: int| 0 <= k2 <= d.len() && #[trigger] byte_offset(d, k2) == b;
                if k < k2 <= d.len() {
                    seq![b as int] + cursor_walk(r.0, d, k2, cuts)
                } else {
                    seq![b as int]
                }
            },
            _ => Seq::empty(),
        }
    } else {
        Seq::empty()
    }
}

/// A forward query that reports a boundary leaves the cursor fresh there.
proof fn lemma_feed_forward_boundary_cursor(c: WordCursor, pieces: Seq<Seq<char>>, start: int)
    requires
        c.wf(),
    ensures
        feed_forward(c, pieces, start).1 matches Ok(WordCursorResult::Boundary(b))
            ==> feed_forward(c, pieces, start).0 == WordCursor::fresh(b, c.doc_len(), true),
    decreases pieces.len(),
{
    if pieces.len() > 0 {
        law_next_boundary_step(c, pieces[0], start as usize);
        let stepped = c.next_boundary_spec(pieces[0], start as usize);
        lemma_feed_forward_boundary_cursor(
            stepped.0,
            pieces.drop_first(),
            start + utf8_len(pieces[0]),
        );
    }
}

proof fn lemma_cursor_walk(d: Seq<char>, k: int, cuts: spec_fn(int) -> Seq<Seq<char>>)
    requires
        utf8_len(d) <= usize::MAX,
        0 <= k <= d.len(),
        forall|j: int|
            0 <= j < d.len() ==> (#[trigger] cuts(j)).flatten() == d.skip(j) && cuts(j).len() > 0
                && forall|i: int| 0 <= i < cuts(j).len() ==> #[trigger] cuts(j)[i].len() > 0,
    ensures
        seq![byte_offset(d, k) as int] + cursor_walk(
            WordCursor::fresh(byte_offset(d, k) as usize, utf8_len(d) as usize, true),
            d,
            k,
            cuts,
        ) == word_bound_offsets(byte_offset(d, k) as int, d.skip(k)).push(utf8_len(d) as int),
    decreases d.len() - k,
{
    let n = d.len() as int;
    let len = utf8_len(d);
    let o = byte_offset(d, k);
    lemma_byte_offset_full(d);
    lemma_byte_offset_mono(d, k, n);
    let c = WordCursor::fresh(o as usize, len as usize, true);
    if k == n {
        assert(d.skip(k).len() == 0);
        assert(word_bound_offsets(o as int, d.skip(k)) =~= Seq::<int>::empty());
        assert(seq![o as int] =~= Seq::<int>::empty().push(len as int));
    } else {
        let rest = d.skip(k);
        assert(d =~= d.take(k) + rest);
        lemma_utf8_len_concat(d.take(k), rest);
        let pieces = cuts(k);
        assert(pieces.flatten() == rest);
        law_cursor_step_matches_word_bound_indices(pieces, o as usize);
        lemma_fresh_wf(o as usize, len as usize, true);
        lemma_feed_forward_boundary_cursor(c, pieces, o as int);
        lemma_first_segment_len(rest);
        let m = first_segment_len(rest);
        let r = feed_forward(c, pieces, o as int);
        let b = o + utf8_len(rest.take(m));
        assert(d.take(k + m) =~= d.take(k) + rest.take(m));
        lemma_utf8_len_concat(d.take(k), rest.take(m));
        assert(b == byte_offset(d, k + m));
        lemma_byte_offset_mono(d, k + m, n);
        assert(r.1 == Ok::<WordCursorResult, WordCursorError>(
            WordCursorResult::Boundary(b as usize),
        ));
        let k2 = choose|k2: int| 0 <= k2 <= d.len() && #[trigger] byte_offset(d, k2) == b;
        lemma_byte_offset_injective(d, k2, k + m);
        assert(rest.skip(m) =~= d.skip(k + m));
        lemma_cursor_walk(d, k + m, cuts);
        let tail_walk = cursor_walk(r.0, d, k + m, cuts);
        assert(cursor_walk(c, d, k, cuts) == seq![b as int] + tail_walk);
        let tail_offsets = word_bound_offsets(b as int, d.skip(k + m));
        assert(word_bound_offsets(o as int, rest) == seq![o as int] + tail_offsets);
        assert(seq![b as int] + tail_walk == tail_offsets.push(len as int));
        assert(seq![o as int] + (seq![b as int] + tail_walk) =~= (seq![o as int]
            + tail_offsets).push(len as int));
    }
}

/// A cursor walking forward over a whole document query by query, each
/// query given to the cursor the last one left and fed the rest of the
/// document cut into any non-empty pieces, reports after the document start
/// exactly the offsets of `new_word_bound_indices` past the first, then the
/// document length: `[0]` followed by the reported boundaries is the
/// iterator's offsets followed by the length, whatever the cuts.
pub proof fn law_cursor_walk_matches_word_bound_indices(
    d: Seq<char>,
    cuts: spec_fn(int) -> Seq<Seq<char>>,
)
    requires
        utf8_len(d) <= usize::MAX,
        forall|j: int|
            0 <= j < d.len() ==> (#[trigger] cuts(j)).flatten() == d.skip(j) && cuts(j).len() > 0
                && forall|i: int| 0 <= i < cuts(j).len() ==> #[trigger] cuts(j)[i].len() > 0,
    ensures
        seq![0int] + cursor_walk(WordCursor::fresh(0, utf8_len(d) as usize, true), d, 0, cuts)
            == word_bound_offsets(0, d).push(utf8_len(d) as int),
{
    assert(d.take(0) =~= Seq::<char>::empty());
    assert(d.skip(0) =~= d);
    lemma_cursor_walk(d, 0, cuts);
}

/// The boundaries that a cursor reports walking backward query by query
/// over the document `d` from its scalar offset `k`: each query goes to the
/// cursor the last one left, and is fed the document before it, cut into
/// the pieces `cuts(k)`.
pub open spec fn reverse_cursor_walk(
    c: WordCursor,
    d: Seq<char>,
    k: int,
    cuts: spec_fn(int) -> Seq<Seq<char>>,
) -> Seq<int>
    decreases k,
{
    if 0 < k <= d.len() {
        let r = feed_backward(c, cuts(k), byte_offset(d, k) as int);
        match r.1 {
            Ok(WordCursorResult::Boundary(b)) => {
                let k2 = choose|k2: int| 0 <= k2 <= d.len() && #[trigger] byte_offset(d, k2) == b;
                if 0 <= k2 < k {
                    seq![b as int] + reverse_cursor_walk(r.0, d, k2, cuts)
                } else {
                    seq![b as int]
                }
            },
            _ => Seq::empty(),
        }
    } else {
        Seq::empty()
    }
}

/// A reverse query that reports a boundary leaves the cursor fresh there.
pub(crate) proof fn lemma_feed_backward_boundary_cursor(
    c: WordCursor,
    pieces: Seq<Seq<char>>,
    end: int,
)
    requires
        c.wf(),
    ensures
        feed_backward(c, pieces, end).1 matches Ok(WordCursorResult::Boundary(b))
            ==> feed_backward(c, pieces, end).0 == WordCursor::fresh(b, c.doc_len(), true),
    decreases pieces.len(),
{
    if pieces.len() > 0 {
        let start = end - utf8_len(pieces.last());
        law_prev_boundary_step(c, pieces.last(), start as usize);
        let stepped = c.prev_boundary_spec(pieces.last(), start as usize);
        lemma_feed_backward_boundary_cursor(stepped.0, pieces.drop_last(), start);
    }
}

/// The segments that `UWordBounds::next` yields from the text `s`, one call
/// after another.
pub open spec fn word_segments(s: Seq<char>) -> Seq<Seq<char>>
    decreases s.len(),
{
    let m = first_segment_len(s);
    if 0 < m <= s.len() {
        seq![s.take(m)] + word_segments(s.skip(m))
    } else {
        Seq::empty()
    }
}

/// A whole forward iteration of `UWordBounds` over `s` yields non-empty
/// segments whose concatenation is `s`: none for an empty `s`, else at
/// least one and at most one per scalar.
pub proof fn law_word_segments_cover(s: Seq<char>)
    requires
        utf8_len(s) <= usize::MAX,
    ensures
        word_segments(s).flatten() == s,
        forall|k: int| 0 <= k < word_segments(s).len() ==> #[trigger] word_segments(s)[k].len() > 0,
        s.len() == 0 ==> word_segments(s).len() == 0,
        s.len() > 0 ==> 1 <= word_segments(s).len() <= s.len(),
    decreases s.len(),
{
    if s.len() == 0 {
        assert(word_segments(s) =~= Seq::<Seq<char>>::empty());
    } else {
        lemma_first_segment_len(s);
        let m = first_segment_len(s);
        let rest = s.skip(m);
        assert(s =~= s.take(m) + rest);
        lemma_utf8_len_concat(s.take(m), rest);
        law_word_segments_cover(rest);
        let segs = word_segments(s);
        assert(segs == seq![s.take(m)] + word_segments(rest));
        assert(segs.first() == s.take(m));
        assert(segs.drop_first() =~= word_segments(rest));
        assert forall|k: int| 0 <= k < segs.len() implies #[trigger] segs[k].len() > 0 by {
            if k > 0 {
                assert(segs[k] == word_segments(rest)[k - 1]);
            }
        }
    }
}

/// A whole forward iteration of `UWordBoundIndices` from `(offset, s)`
/// pairs each segment of `s` with the offset where it begins: `offset` plus
/// the length of the segments before it.
pub proof fn law_word_bound_offsets_in_sequence(offset: int, s: Seq<char>)
    requires
        utf8_len(s) <= usize::MAX,
    ensures
        word_bound_offsets(offset, s).len() == word_segments(s).len(),
        forall|k: int|
            0 <= k < word_segments(s).len() ==> #[trigger] word_bound_offsets(offset, s)[k] == offset
                + utf8_len(word_segments(s).take(k).flatten()),
    decreases s.len(),
{
    if s.len() == 0 {
        assert(word_segments(s) =~= Seq::<Seq<char>>::empty());
        assert(word_bound_offsets(offset, s) =~= Seq::<int>::empty());
    } else {
        lemma_first_segment_len(s);
        let m = first_segment_len(s);
        let rest = s.skip(m);
        assert(s =~= s.take(m) + rest);
        lemma_utf8_len_concat(s.take(m), rest);
        let o2 = offset + utf8_len(s.take(m));
        law_word_bound_offsets_in_sequence(o2, rest);
        let segs = word_segments(s);
        let rs = word_segments(rest);
        assert(segs == seq![s.take(m)] + rs);
        let offs = word_bound_offsets(offset, s);
        assert(offs == seq![offset] + word_bound_offsets(o2, rest));
        assert forall|k: int| 0 <= k < segs.len() implies #[trigger] offs[k] == offset + utf8_len(
            segs.take(k).flatten(),
        ) by {
            if k == 0 {
                assert(segs.take(0) =~= Seq::<Seq<char>>::empty());
                assert(segs.take(0).flatten() =~= Seq::<char>::empty());
            } else {
                assert(offs[k] == word_bound_offsets(o2, rest)[k - 1]);
                let t = segs.take(k);
                assert(t.first() == s.take(m));
                assert(t.drop_first() =~= rs.take(k - 1));
                assert(t.flatten() == s.take(m) + rs.take(k - 1).flatten());
                lemma_utf8_len_concat(s.take(m), rs.take(k - 1).flatten());
            }
        }
    }
}

} // verus!
