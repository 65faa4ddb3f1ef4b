//! WB3c for both word-boundary machines: a ZWJ directly followed by an
//! `Extended_Pictographic` scalar is never split from it, whatever comes
//! before the ZWJ, so an emoji ZWJ sequence of any length is one segment.

use crate::utf8_len::{
    byte_offset, lemma_byte_offset_full, lemma_byte_offset_injective, lemma_byte_offset_mono,
    lemma_byte_offset_step, lemma_utf8_len_concat, utf8_len,
};
use crate::word_agree::{forward_end_at, reverse_start_at};
use crate::word_cat::{extended_pictographic, is_ignored, is_newline, word_cat, WordCat};
use crate::word_cursor::{
    first_boundary_after, first_segment_end, last_boundary_before, last_segment_start,
    lemma_whole_document_forward, lemma_whole_document_reverse,
};
use crate::word_cursor_forward::{
    forward_init, forward_scan, forward_step, ForwardState, Significant,
};
use crate::word_cursor_reverse::{reverse_init, reverse_scan, reverse_step, ReverseState};
use vstd::prelude::*;

verus! {

/// The scalar at `k` of `d` is `Extended_Pictographic` and directly follows
/// a ZWJ (the pair that WB3c keeps together).
pub open spec fn zwj_pict(d: Seq<char>, k: int) -> bool {
    0 < k < d.len() && word_cat(d[k - 1]) == WordCat::ZWJ && extended_pictographic(d[k])
}

/// The forward machine before scalar `j` of `r`, inside its first segment:
/// it remembers the previous scalar, has not let a newline stand before a
/// ZWJ it skipped, and any connector it holds sits at an offset that WB3c
/// does not protect.
pub open spec fn forward_wb3c_inv(st: ForwardState, r: Seq<char>, j: int) -> bool {
    &&& st.significant is Some
    &&& st.raw_previous == Some(word_cat(r[j - 1]))
    &&& (word_cat(r[j - 1]) == WordCat::ZWJ ==> !(st.significant matches Some(
        Significant::Cat(c),
    ) && is_newline(c)))
    &&& (st.pending matches Some(p) ==> exists|q: int|
        0 <= q < j && !zwj_pict(r, q) && #[trigger] byte_offset(r, q) == p.connector_offset)
}

proof fn lemma_forward_wb3c(st: ForwardState, r: Seq<char>, j: int)
    requires
        utf8_len(r) <= usize::MAX,
        1 <= j <= r.len(),
        forward_wb3c_inv(st, r, j),
    ensures
        exists|x: int|
            0 <= x <= r.len() && (x == r.len() || !zwj_pict(r, x)) && forward_end_at(st, r, j)
                == #[trigger] byte_offset(r, x),
    decreases r.len() - j,
{
    let n = r.len() as int;
    lemma_byte_offset_full(r);
    lemma_byte_offset_mono(r, j, n);
    if j == n {
        assert(r.skip(j) =~= Seq::<char>::empty());
        if st.pending is Some {
            let q = choose|q: int|
                0 <= q < j && !zwj_pict(r, q) && #[trigger] byte_offset(r, q)
                    == st.pending->0.connector_offset;
            assert(forward_end_at(st, r, j) == byte_offset(r, q));
        } else {
            assert(forward_end_at(st, r, j) == byte_offset(r, n));
        }
    } else {
        let c = r[j];
        let t = r.skip(j);
        assert(t[0] == c);
        assert(t.drop_first() =~= r.skip(j + 1));
        lemma_byte_offset_step(r, j);
        lemma_byte_offset_mono(r, j + 1, n);
        let step = forward_step(st, word_cat(c), extended_pictographic(c), byte_offset(r, j) as usize);
        assert(forward_scan(st, t, byte_offset(r, j) as int) == if step.1 is Some {
            step
        } else {
            forward_scan(step.0, r.skip(j + 1), byte_offset(r, j + 1) as int)
        });
        if step.1 is Some {
            if st.pending is Some && step.1 == Some(st.pending->0.connector_offset) {
                let q = choose|q: int|
                    0 <= q < j && !zwj_pict(r, q) && #[trigger] byte_offset(r, q)
                        == st.pending->0.connector_offset;
                assert(forward_end_at(st, r, j) == byte_offset(r, q));
            } else {
                assert(!zwj_pict(r, j));
                assert(forward_end_at(st, r, j) == byte_offset(r, j));
            }
        } else {
            if step.0.pending is Some && st.pending is None {
                assert(!zwj_pict(r, j));
                assert(step.0.pending->0.connector_offset == byte_offset(r, j));
            }
            assert(forward_wb3c_inv(step.0, r, j + 1));
            assert(forward_end_at(st, r, j) == forward_end_at(step.0, r, j + 1));
            lemma_forward_wb3c(step.0, r, j + 1);
        }
    }
}

/// WB3c, forward: the first segment of any text never ends between a ZWJ
/// and an `Extended_Pictographic` scalar right after it, whatever stands
/// before the ZWJ. Applied to the rest of a text at each segment start, no
/// segment the iterators or the cursor report ends there either.
pub proof fn law_forward_keeps_zwj_pictograph(d: Seq<char>, k: int)
    requires
        utf8_len(d) <= usize::MAX,
        zwj_pict(d, k),
    ensures
        first_segment_end(d) != byte_offset(d, k),
{
    let n = d.len() as int;
    assert(d.skip(0) =~= d);
    assert(d.take(0) =~= Seq::<char>::empty());
    lemma_byte_offset_step(d, 0);
    let c = d[0];
    let step = forward_step(forward_init(0), word_cat(c), extended_pictographic(c), 0);
    assert(d.drop_first() =~= d.skip(1));
    assert(forward_wb3c_inv(step.0, d, 1));
    lemma_forward_wb3c(step.0, d, 1);
    assert(first_segment_end(d) == forward_end_at(step.0, d, 1));
    let x = choose|x: int|
        0 <= x <= d.len() && (x == d.len() || !zwj_pict(d, x)) && forward_end_at(step.0, d, 1)
            == #[trigger] byte_offset(d, x);
    if first_segment_end(d) == byte_offset(d, k) {
        lemma_byte_offset_injective(d, x, k);
    }
}

/// No scalar of `d` is both a regional indicator and
/// `Extended_Pictographic` (true of every text: the Unicode data gives
/// regional indicators `Extended_Pictographic=No`).
pub open spec fn regional_not_pictographic(d: Seq<char>) -> bool {
    forall|i: int|
        0 <= i < d.len() && #[trigger] word_cat(d[i]) == WordCat::RegionalIndicator
            ==> !extended_pictographic(d[i])
}

/// The reverse machine after the scalars of `d` from `j` on: an emoji it
/// joins across a ZWJ waits for its left side; the significant scalar it
/// holds is one WB3c does not protect unless it is the last one read (and
/// then it remembers whether it is a pictograph); a connector's right side
/// and a counted run's indicators lie where WB3c does not protect them.
pub open spec fn reverse_wb3c_inv(st: ReverseState, d: Seq<char>, j: int) -> bool {
    &&& 0 <= j <= d.len()
    &&& (st.include_left ==> st.significant == Some(Significant::Emoji))
    &&& (st.significant == Some(Significant::Emoji) ==> st.include_left)
    &&& (st.significant is None ==> !st.include_left && st.pending is None && st.regional is None
        && (st.leading_ignored_start matches Some(x) ==> x == byte_offset(d, j)))
    &&& (st.significant matches Some(Significant::Cat(_)) && st.regional is None ==> exists|u: int|
        j <= u < d.len() && #[trigger] byte_offset(d, u) == st.significant_offset
            && st.significant == Some(Significant::Cat(word_cat(d[u])))
            && st.right_pictographic == extended_pictographic(d[u]) && (u == j ==> !st.skipped)
            && (zwj_pict(d, u) ==> u == j))
    &&& (st.pending matches Some(p) ==> exists|v: int|
        j <= v < d.len() && #[trigger] byte_offset(d, v) == p.right_offset && !zwj_pict(d, v))
    &&& (st.regional matches Some(g) ==> (exists|a: int|
        j <= a < d.len() && #[trigger] byte_offset(d, a) == g.rightmost_offset && word_cat(d[a])
            == WordCat::RegionalIndicator) && (exists|b: int|
        j <= b < d.len() && #[trigger] byte_offset(d, b) == g.second_right_offset && word_cat(d[b])
            == WordCat::RegionalIndicator))
}

/// A byte offset of `d` at a scalar offset WB3c does not protect.
pub open spec fn unprotected_offset(d: Seq<char>, off: int) -> bool {
    exists|x: int| 0 <= x <= d.len() && !zwj_pict(d, x) && #[trigger] byte_offset(d, x) == off
}

#[verifier::rlimit(60)]
proof fn lemma_reverse_wb3c_step(st: ReverseState, d: Seq<char>, j: int)
    requires
        utf8_len(d) <= usize::MAX,
        regional_not_pictographic(d),
        1 <= j <= d.len(),
        reverse_wb3c_inv(st, d, j),
    ensures
        ({
            let c = d[j - 1];
            let step = reverse_step(st, word_cat(c), extended_pictographic(c), byte_offset(d, j - 1) as usize);
            &&& step.1 matches Some(b) ==> unprotected_offset(d, b as int)
            &&& step.1 is None ==> reverse_wb3c_inv(step.0, d, j - 1)
        }),
{
    let n = d.len() as int;
    let c = d[j - 1];
    let cc = word_cat(c);
    let at = byte_offset(d, j - 1);
    lemma_byte_offset_full(d);
    lemma_byte_offset_mono(d, j - 1, n);
    lemma_byte_offset_mono(d, j, n);
    let step = reverse_step(st, cc, extended_pictographic(c), at as usize);
    if st.regional is Some {
        let g = st.regional->0;
        if step.1 is Some {
            if g.odd {
                let a = choose|a: int|
                    j <= a < d.len() && #[trigger] byte_offset(d, a) == g.rightmost_offset
                        && word_cat(d[a]) == WordCat::RegionalIndicator;
                lemma_byte_offset_mono(d, a, n);
                assert(!zwj_pict(d, a));
            } else {
                let b = choose|b: int|
                    j <= b < d.len() && #[trigger] byte_offset(d, b) == g.second_right_offset
                        && word_cat(d[b]) == WordCat::RegionalIndicator;
                lemma_byte_offset_mono(d, b, n);
                assert(!zwj_pict(d, b));
            }
        }
    } else if st.significant is None {
        if step.1 is Some {
            assert(!zwj_pict(d, j));
        } else if !is_ignored(cc) {
            assert(byte_offset(d, j - 1) == step.0.significant_offset);
        }
    } else if is_ignored(cc) {
        if st.significant matches Some(Significant::Cat(_)) {
            let u = choose|u: int|
                j <= u < d.len() && #[trigger] byte_offset(d, u) == st.significant_offset
                    && st.significant == Some(Significant::Cat(word_cat(d[u])))
                    && st.right_pictographic == extended_pictographic(d[u]) && (u == j
                    ==> !st.skipped) && (zwj_pict(d, u) ==> u == j);
            if step.0.significant == Some(Significant::Emoji) {
            } else {
                assert(!zwj_pict(d, u));
            }
        }
    } else if st.include_left {
        assert(byte_offset(d, j - 1) == step.0.significant_offset);
    } else if st.pending is Some {
        if step.1 is None {
            assert(byte_offset(d, j - 1) == step.0.significant_offset);
        } else {
            let v = choose|v: int|
                j <= v < d.len() && #[trigger] byte_offset(d, v) == st.pending->0.right_offset
                    && !zwj_pict(d, v);
            lemma_byte_offset_mono(d, v, n);
        }
    } else {
        let u = choose|u: int|
            j <= u < d.len() && #[trigger] byte_offset(d, u) == st.significant_offset
                && st.significant == Some(Significant::Cat(word_cat(d[u])))
                && st.right_pictographic == extended_pictographic(d[u]) && (u == j ==> !st.skipped)
                && (zwj_pict(d, u) ==> u == j);
        assert(!zwj_pict(d, u));
        lemma_byte_offset_mono(d, u, n);
        if step.1 is None {
            if step.0.regional is Some {
                assert(word_cat(d[j - 1]) == WordCat::RegionalIndicator);
                assert(byte_offset(d, j - 1) == step.0.regional->0.second_right_offset);
            } else if step.0.pending is None {
                assert(byte_offset(d, j - 1) == step.0.significant_offset);
            }
        }
    }
}

proof fn lemma_reverse_wb3c(st: ReverseState, d: Seq<char>, j: int)
    requires
        utf8_len(d) <= usize::MAX,
        regional_not_pictographic(d),
        reverse_wb3c_inv(st, d, j),
    ensures
        unprotected_offset(d, reverse_start_at(st, d, j)),
    decreases j,
{
    let n = d.len() as int;
    lemma_byte_offset_full(d);
    if j == 0 {
        assert(d.take(0) =~= Seq::<char>::empty());
        assert(reverse_scan(st, d.take(0), byte_offset(d, 0) as int) == (st, None::<usize>));
        assert(byte_offset(d, 0) == 0);
        if st.regional is Some {
            let g = st.regional->0;
            if g.odd {
                let a = choose|a: int|
                    0 <= a < d.len() && #[trigger] byte_offset(d, a) == g.rightmost_offset
                        && word_cat(d[a]) == WordCat::RegionalIndicator;
                lemma_byte_offset_mono(d, a, n);
                assert(!zwj_pict(d, a));
            } else {
                let b = choose|b: int|
                    0 <= b < d.len() && #[trigger] byte_offset(d, b) == g.second_right_offset
                        && word_cat(d[b]) == WordCat::RegionalIndicator;
                lemma_byte_offset_mono(d, b, n);
                assert(!zwj_pict(d, b));
            }
        } else if st.pending is Some {
            let v = choose|v: int|
                0 <= v < d.len() && #[trigger] byte_offset(d, v) == st.pending->0.right_offset
                    && !zwj_pict(d, v);
            lemma_byte_offset_mono(d, v, n);
        } else if st.skipped && !st.include_left && st.significant is Some {
            let u = choose|u: int|
                0 <= u < d.len() && #[trigger] byte_offset(d, u) == st.significant_offset
                    && st.significant == Some(Significant::Cat(word_cat(d[u])))
                    && st.right_pictographic == extended_pictographic(d[u]) && (u == 0
                    ==> !st.skipped) && (zwj_pict(d, u) ==> u == 0);
            lemma_byte_offset_mono(d, u, n);
            assert(!zwj_pict(d, u));
        } else {
            assert(!zwj_pict(d, 0));
        }
    } else {
        let c = d[j - 1];
        let tk = d.take(j);
        assert(tk.last() == c);
        assert(tk.drop_last() =~= d.take(j - 1));
        lemma_byte_offset_step(d, j - 1);
        let at = byte_offset(d, j - 1);
        let step = reverse_step(st, word_cat(c), extended_pictographic(c), at as usize);
        assert(reverse_scan(st, tk, byte_offset(d, j) as int) == if step.1 is Some {
            step
        } else {
            reverse_scan(step.0, d.take(j - 1), at as int)
        });
        lemma_reverse_wb3c_step(st, d, j);
        if step.1 is Some {
            let x = choose|x: int|
                0 <= x <= d.len() && !zwj_pict(d, x) && #[trigger] byte_offset(d, x)
                    == step.1->0 as int;
            assert(reverse_start_at(st, d, j) == step.1->0 as int);
        } else {
            assert(reverse_start_at(st, d, j) == reverse_start_at(step.0, d, j - 1));
            lemma_reverse_wb3c(step.0, d, j - 1);
        }
    }
}

/// WB3c, reverse: the last segment of any text never starts between a ZWJ
/// and an `Extended_Pictographic` scalar right after it, whatever stands
/// before the ZWJ (on every text whose regional indicators are not
/// pictographs, which is every text). Applied to each prefix that a
/// backward walk leaves, no segment that `next_back`, `prev_boundary` or the
/// reverse cursor walk reports starts there either.
pub proof fn law_reverse_keeps_zwj_pictograph(d: Seq<char>, k: int)
    requires
        utf8_len(d) <= usize::MAX,
        regional_not_pictographic(d),
        zwj_pict(d, k),
    ensures
        last_segment_start(d) != byte_offset(d, k),
{
    let n = d.len() as int;
    let len = utf8_len(d);
    lemma_byte_offset_full(d);
    assert(d.take(n) =~= d);
    let st = reverse_init(len as usize);
    assert(reverse_wb3c_inv(st, d, n));
    lemma_reverse_wb3c(st, d, n);
    assert(last_segment_start(d) == reverse_start_at(st, d, n));
    let x = choose|x: int|
        0 <= x <= d.len() && !zwj_pict(d, x) && #[trigger] byte_offset(d, x) == last_segment_start(
            d,
        );
    if last_segment_start(d) == byte_offset(d, k) {
        lemma_byte_offset_injective(d, x, k);
    }
}

/// WB3c for every reverse query: a cursor's reverse query from any offset
/// after the document start (and each backward step it replays) never
/// reports the offset between a ZWJ and the `Extended_Pictographic` scalar
/// right after it.
pub proof fn law_reverse_queries_keep_zwj_pictograph(d: Seq<char>, k: int, origin: int, p: int)
    requires
        utf8_len(d) <= usize::MAX,
        regional_not_pictographic(d),
        0 < k <= d.len(),
        0 < origin,
        zwj_pict(d, p),
    ensures
        last_boundary_before(d, k, origin) != byte_offset(d, p),
    decreases k,
{
    let n = d.len() as int;
    let pre = d.take(k);
    lemma_byte_offset_full(d);
    lemma_byte_offset_mono(d, k, n);
    assert(pre.take(k) =~= pre);
    lemma_byte_offset_full(pre);
    assert(utf8_len(pre) == byte_offset(d, k));
    assert forall|i: int|
        0 <= i < pre.len() && #[trigger] word_cat(pre[i]) == WordCat::RegionalIndicator implies !extended_pictographic(pre[i]) by {
        assert(pre[i] == d[i]);
        assert(word_cat(d[i]) == WordCat::RegionalIndicator);
    }
    lemma_whole_document_reverse(pre);
    let s2 = last_segment_start(pre);
    if p < k {
        assert(pre[p] == d[p]);
        assert(pre[p - 1] == d[p - 1]);
        assert(zwj_pict(pre, p));
        law_reverse_keeps_zwj_pictograph(pre, p);
        assert(pre.take(p) =~= d.take(p));
    } else {
        lemma_byte_offset_mono(d, k, p);
    }
    assert(s2 != byte_offset(d, p));
    if s2 >= origin {
        let k3 = choose|k3: int| 0 <= k3 <= pre.len() && byte_offset(pre, k3) == s2;
        assert(pre.take(k3) =~= d.take(k3));
        assert(byte_offset(d, k3) == s2);
        let k2 = choose|k2: int| 0 <= k2 <= d.len() && #[trigger] byte_offset(d, k2) == s2;
        if 0 <= k2 < k {
            if k2 == 0 {
                assert(d.take(0) =~= Seq::<char>::empty());
            } else {
                law_reverse_queries_keep_zwj_pictograph(d, k2, origin, p);
            }
        }
    }
}

/// WB3c for every forward query: a cursor's forward query from any scalar
/// offset (and each segment it replays on the way) never reports the offset
/// between a ZWJ and the `Extended_Pictographic` scalar right after it.
pub proof fn law_forward_queries_keep_zwj_pictograph(d: Seq<char>, k: int, origin: int, p: int)
    requires
        utf8_len(d) <= usize::MAX,
        0 <= k < d.len(),
        zwj_pict(d, p),
    ensures
        first_boundary_after(d, k, origin) != byte_offset(d, p),
    decreases d.len() - k,
{
    let n = d.len() as int;
    let rest = d.skip(k);
    assert(d =~= d.take(k) + rest);
    lemma_utf8_len_concat(d.take(k), rest);
    lemma_whole_document_forward(rest);
    let e = byte_offset(d, k) + first_segment_end(rest);
    if p > k {
        assert(rest[p - k] == d[p]);
        assert(rest[p - k - 1] == d[p - 1]);
        assert(zwj_pict(rest, p - k));
        law_forward_keeps_zwj_pictograph(rest, p - k);
        assert(d.take(p) =~= d.take(k) + rest.take(p - k));
        lemma_utf8_len_concat(d.take(k), rest.take(p - k));
    } else {
        lemma_byte_offset_mono(d, p, k);
    }
    assert(e != byte_offset(d, p));
    if e <= origin {
        let k3 = choose|k3: int| 0 <= k3 <= rest.len() && byte_offset(rest, k3) == first_segment_end(rest);
        assert(d.take(k + k3) =~= d.take(k) + rest.take(k3));
        lemma_utf8_len_concat(d.take(k), rest.take(k3));
        assert(byte_offset(d, k + k3) == e);
        let k2 = choose|k2: int| 0 <= k2 <= d.len() && #[trigger] byte_offset(d, k2) == e;
        if k < k2 < d.len() {
            law_forward_queries_keep_zwj_pictograph(d, k2, origin, p);
            assert(first_boundary_after(d, k, origin) == first_boundary_after(d, k2, origin));
        } else if k2 == n {
            assert(d.skip(n) =~= Seq::<char>::empty());
            assert(first_segment_end(d.skip(n)) == 0);
            lemma_byte_offset_full(d);
            lemma_byte_offset_mono(d, p, n);
            assert(first_boundary_after(d, k, origin) == first_boundary_after(d, n, origin));
        } else {
            assert(first_boundary_after(d, k, origin) == e);
        }
    } else {
        assert(first_boundary_after(d, k, origin) == e);
    }
}

} // verus!
