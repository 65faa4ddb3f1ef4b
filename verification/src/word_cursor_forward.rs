//! The forward word-boundary state machine: it consumes scalars left to right
//! from a known boundary and reports the next boundary, keeping a fixed-size
//! state between chunks.

use crate::utf8_len::{
    byte_offset, char_width, lemma_byte_offset_full, lemma_byte_offset_mono,
    lemma_byte_offset_step, utf8_len, utf8_width,
};
use crate::word_cat::{
    connector_matches, extended_pictographic, is_connector_after, is_extended_pictographic,
    is_hard_break, is_ignored, is_newline, pair_matches, word_cat, word_category, WordCat,
};
use vstd::prelude::*;

verus! {

broadcast use vstd::seq::group_seq_axioms;

/// The last scalar that rules are applied to (after WB4 skipping), or an
/// emoji joined by ZWJ (WB3c).
#[derive(Clone, Copy, Debug, PartialEq, Eq, Structural)]
pub enum Significant {
    Cat(WordCat),
    Emoji,
}

/// A connector whose join (WB6/WB7, WB7b/WB7c, WB11/WB12) waits on the next
/// significant scalar.
#[derive(Clone, Copy, Debug, PartialEq, Eq, Structural)]
pub struct ForwardPending {
    pub connector: WordCat,
    pub connector_offset: usize,
    pub left: WordCat,
}

/// The state of a forward boundary search.
#[derive(Clone, Copy, Debug, PartialEq, Eq, Structural)]
pub struct ForwardState {
    pub significant: Option<Significant>,
    pub significant_offset: usize,
    pub raw_previous: Option<WordCat>,
    pub skipped: bool,
    pub ri_odd: bool,
    pub pending: Option<ForwardPending>,
}

/// The state at the start of a segment beginning at `segment_start`.
pub open spec fn forward_init(segment_start: usize) -> ForwardState {
    ForwardState {
        significant: None,
        significant_offset: segment_start,
        raw_previous: None,
        skipped: false,
        ri_odd: false,
        pending: None,
    }
}

/// `s` after `category` at `at` became the significant scalar.
pub open spec fn forward_updated(s: ForwardState, category: WordCat, at: usize) -> ForwardState {
    ForwardState {
        significant: Some(Significant::Cat(category)),
        significant_offset: at,
        raw_previous: Some(category),
        skipped: false,
        ri_odd: if category != WordCat::RegionalIndicator {
            false
        } else {
            s.ri_odd
        },
        ..s
    }
}

/// The rules for a non-ignored scalar of `category` at `at` that follows the
/// significant category `prev` with no connector pending.
pub open spec fn forward_pair_step(s: ForwardState, prev: WordCat, category: WordCat, at: usize) -> (
    ForwardState,
    Option<usize>,
) {
    if is_hard_break(prev, category) {
        (s, Some(at))
    } else if prev == WordCat::CR && category == WordCat::LF {
        (forward_updated(s, category, at), None)
    } else if prev == WordCat::WSegSpace && category == WordCat::WSegSpace {
        if !s.skipped {
            (forward_updated(s, category, at), None)
        } else {
            (s, Some(at))
        }
    } else if prev == WordCat::HebrewLetter && category == WordCat::SingleQuote {
        (ForwardState { raw_previous: Some(category), skipped: false, ..s }, None)
    } else if pair_matches(prev, category) {
        (forward_updated(s, category, at), None)
    } else if is_connector_after(prev, category) {
        (
            ForwardState {
                pending: Some(ForwardPending { connector: category, connector_offset: at, left: prev }),
                raw_previous: Some(category),
                skipped: false,
                ..s
            },
            None,
        )
    } else if prev == WordCat::RegionalIndicator && category == WordCat::RegionalIndicator {
        if s.ri_odd {
            (forward_updated(ForwardState { ri_odd: false, ..s }, category, at), None)
        } else {
            (s, Some(at))
        }
    } else {
        (s, Some(at))
    }
}

/// One step of the forward machine on a scalar of `category` (pictographic or
/// not) at byte offset `at`: the new state and, when the scalar settles it,
/// the boundary. A step that reports a boundary leaves the state unchanged.
pub open spec fn forward_step(s: ForwardState, category: WordCat, pictographic: bool, at: usize) -> (
    ForwardState,
    Option<usize>,
) {
    if is_ignored(category) && s.significant is Some {
        if s.significant matches Some(Significant::Cat(p)) && is_newline(p) {
            (s, Some(at))
        } else {
            (ForwardState { raw_previous: Some(category), skipped: true, ..s }, None)
        }
    } else if s.significant is None {
        (
            ForwardState {
                significant: Some(Significant::Cat(category)),
                significant_offset: at,
                raw_previous: Some(category),
                ri_odd: category == WordCat::RegionalIndicator,
                ..s
            },
            None,
        )
    } else if s.raw_previous == Some(WordCat::ZWJ) && pictographic {
        (
            ForwardState {
                significant: Some(Significant::Emoji),
                significant_offset: at,
                raw_previous: Some(category),
                skipped: false,
                pending: None,
                ri_odd: false,
            },
            None,
        )
    } else if s.pending is Some {
        let p = s.pending->0;
        if connector_matches(p.left, p.connector, category) {
            (
                ForwardState {
                    pending: None,
                    significant: Some(Significant::Cat(category)),
                    significant_offset: at,
                    raw_previous: Some(category),
                    skipped: false,
                    ri_odd: category == WordCat::RegionalIndicator,
                },
                None,
            )
        } else {
            (s, Some(p.connector_offset))
        }
    } else {
        match s.significant->0 {
            Significant::Emoji => (s, Some(at)),
            Significant::Cat(prev) => forward_pair_step(s, prev, category, at),
        }
    }
}

/// The forward machine run over `chars`, the first of which starts at byte
/// offset `at`: it stops at the first scalar that settles a boundary.
pub open spec fn forward_scan(s: ForwardState, chars: Seq<char>, at: int) -> (
    ForwardState,
    Option<usize>,
)
    decreases chars.len(),
{
    if chars.len() == 0 {
        (s, None)
    } else {
        let step = forward_step(s, word_cat(chars[0]), extended_pictographic(chars[0]), at as usize);
        if step.1 is Some {
            step
        } else {
            forward_scan(step.0, chars.drop_first(), at + utf8_width(chars[0]))
        }
    }
}

/// The boundary that the end of the document settles.
pub open spec fn forward_finish(s: ForwardState, document_end: usize) -> usize {
    match s.pending {
        Some(p) => p.connector_offset,
        None => document_end,
    }
}

/// A step that settles a boundary leaves the state as it was.
pub proof fn lemma_forward_step_found_unchanged(
    s: ForwardState,
    category: WordCat,
    pictographic: bool,
    at: usize,
)
    ensures
        forward_step(s, category, pictographic, at).1 is Some ==> forward_step(
            s,
            category,
            pictographic,
            at,
        ).0 == s,
{
}

/// Running the machine over `a + b` is running it over `a` and, unless `a`
/// settled a boundary, continuing over `b` from where `a` ended.
pub proof fn lemma_forward_scan_concat(s: ForwardState, a: Seq<char>, b: Seq<char>, at: int)
    ensures
        forward_scan(s, a + b, at) == ({
            let first = forward_scan(s, a, at);
            if first.1 is Some {
                first
            } else {
                forward_scan(first.0, b, at + utf8_len(a))
            }
        }),
    decreases a.len(),
{
    if a.len() == 0 {
        assert(a + b =~= b);
    } else {
        assert((a + b).drop_first() =~= a.drop_first() + b);
        assert((a + b)[0] == a[0]);
        let step = forward_step(s, word_cat(a[0]), extended_pictographic(a[0]), at as usize);
        lemma_forward_scan_concat(step.0, a.drop_first(), b, at + utf8_width(a[0]));
    }
}

/// Scanning one more scalar.
pub proof fn lemma_forward_scan_push(s: ForwardState, a: Seq<char>, c: char, at: int)
    ensures
        forward_scan(s, a.push(c), at) == ({
            let first = forward_scan(s, a, at);
            if first.1 is Some {
                first
            } else {
                forward_step(
                    first.0,
                    word_cat(c),
                    extended_pictographic(c),
                    (at + utf8_len(a)) as usize,
                )
            }
        }),
{
    assert(a.push(c) =~= a + seq![c]);
    lemma_forward_scan_concat(s, a, seq![c], at);
    let first = forward_scan(s, a, at);
    assert(seq![c].drop_first() =~= Seq::<char>::empty());
    assert(seq![c][0] == c);
    let step = forward_step(
        first.0,
        word_cat(c),
        extended_pictographic(c),
        (at + utf8_len(a)) as usize,
    );
    assert(forward_scan(step.0, Seq::<char>::empty(), at + utf8_len(a) + utf8_width(c)) == (
    step.0,
    None::<usize>,
    ));
}

/// The offsets a forward scan keeps are ordered: the significant scalar lies
/// before the next scalar, a pending connector lies between them.
pub open spec fn forward_ordered(s: ForwardState, at: int) -> bool {
    &&& (s.significant is Some ==> s.significant_offset < at)
    &&& (s.pending matches Some(p) ==> s.significant is Some && s.significant_offset
        < p.connector_offset < at)
}

/// A boundary that a scan settles lies strictly after the significant scalar
/// it started with (or after its first scalar, when it started a segment) and
/// before the end of the scanned scalars; the offsets stay ordered.
pub proof fn lemma_forward_scan_bounds(s: ForwardState, chars: Seq<char>, at: int)
    requires
        forward_ordered(s, at),
        0 <= at,
        at + utf8_len(chars) <= usize::MAX,
    ensures
        forward_scan(s, chars, at).1 matches Some(b) ==> ({
            &&& b < at + utf8_len(chars)
            &&& (s.significant is Some ==> s.significant_offset < b)
            &&& (s.significant is None ==> at < b)
        }),
        forward_scan(s, chars, at).1 is None ==> ({
            let t = forward_scan(s, chars, at).0;
            &&& forward_ordered(t, at + utf8_len(chars))
            &&& (s.significant is Some ==> t.significant is Some && s.significant_offset
                <= t.significant_offset)
            &&& (s.significant is None && chars.len() > 0 ==> t.significant is Some && at
                <= t.significant_offset)
            &&& (chars.len() == 0 ==> t == s)
        }),
    decreases chars.len(),
{
    if chars.len() > 0 {
        let c = chars[0];
        let w = utf8_width(c);
        let step = forward_step(s, word_cat(c), extended_pictographic(c), at as usize);
        assert(utf8_len(chars) == w + utf8_len(chars.drop_first()));
        if step.1 is None {
            lemma_forward_scan_bounds(step.0, chars.drop_first(), at + w);
        }
    }
}

/// `b` is the byte offset at which some scalar of `s` begins (or its end).
pub open spec fn is_scalar_offset(s: Seq<char>, b: int) -> bool {
    exists|k: int| 0 <= k <= s.len() && byte_offset(s, k) == b
}

/// Every offset that `st` keeps is a scalar offset of `s`.
pub open spec fn forward_offsets_in(st: ForwardState, s: Seq<char>) -> bool {
    &&& (st.significant is Some ==> is_scalar_offset(s, st.significant_offset as int))
    &&& (st.pending matches Some(p) ==> is_scalar_offset(s, p.connector_offset as int))
}

/// Scanning the scalars of `s` from its `j`-th on reports only scalar offsets
/// of `s` as boundaries, and keeps only scalar offsets of `s`.
pub proof fn lemma_forward_scan_scalar_offsets(st: ForwardState, s: Seq<char>, j: int)
    requires
        0 <= j <= s.len(),
        forward_offsets_in(st, s),
        utf8_len(s) <= usize::MAX,
    ensures
        forward_scan(st, s.skip(j), byte_offset(s, j) as int).1 matches Some(b) ==> is_scalar_offset(s, b as int),
        forward_scan(st, s.skip(j), byte_offset(s, j) as int).1 is None ==> forward_offsets_in(
            forward_scan(st, s.skip(j), byte_offset(s, j) as int).0,
            s,
        ),
    decreases s.len() - j,
{
    if j < s.len() {
        let c = s[j];
        let at = byte_offset(s, j) as int;
        lemma_byte_offset_step(s, j);
        lemma_byte_offset_mono(s, j + 1, s.len() as int);
        lemma_byte_offset_full(s);
        assert(s.skip(j).drop_first() =~= s.skip(j + 1));
        assert(s.skip(j)[0] == c);
        assert(is_scalar_offset(s, at));
        let step = forward_step(st, word_cat(c), extended_pictographic(c), at as usize);
        if step.1 is None {
            lemma_forward_scan_scalar_offsets(step.0, s, j + 1);
        }
    }
}

impl ForwardState {
    /// The state at the start of a segment beginning at `segment_start`.
    pub fn new(segment_start: usize) -> (s: Self)
        ensures
            s == forward_init(segment_start),
    {
        ForwardState {
            significant: None,
            significant_offset: segment_start,
            raw_previous: None,
            skipped: false,
            ri_odd: false,
            pending: None,
        }
    }

    fn update_significant(&mut self, category: WordCat, at: usize)
        ensures
            *final(self) == forward_updated(*old(self), category, at),
    {
        self.significant = Some(Significant::Cat(category));
        self.significant_offset = at;
        self.raw_previous = Some(category);
        self.skipped = false;
        if category != WordCat::RegionalIndicator {
            self.ri_odd = false;
        }
    }

    /// Consumes the scalar `ch` at byte offset `at`; returns the boundary when
    /// `ch` settles one.
    pub fn push(&mut self, ch: char, at: usize) -> (r: Option<usize>)
        ensures
            (*final(self), r) == forward_step(
                *old(self),
                word_cat(ch),
                extended_pictographic(ch),
                at,
            ),
    {
        let category = word_category(ch);
        let pictographic = is_extended_pictographic(ch);

        if is_ignored(category) && self.significant.is_some() {
            if let Some(Significant::Cat(previous)) = self.significant {
                if is_newline(previous) {
                    return Some(at);
                }
            }
            self.raw_previous = Some(category);
            self.skipped = true;
            return None;
        }
        if self.significant.is_none() {
            self.significant = Some(Significant::Cat(category));
            self.significant_offset = at;
            self.raw_previous = Some(category);
            self.ri_odd = category == WordCat::RegionalIndicator;
            return None;
        }
        if self.raw_previous == Some(WordCat::ZWJ) && pictographic {
            self.significant = Some(Significant::Emoji);
            self.significant_offset = at;
            self.raw_previous = Some(category);
            self.skipped = false;
            self.pending = None;
            self.ri_odd = false;
            return None;
        }
        if let Some(pending) = self.pending {
            if connector_matches(pending.left, pending.connector, category) {
                self.pending = None;
                self.significant = Some(Significant::Cat(category));
                self.significant_offset = at;
                self.raw_previous = Some(category);
                self.skipped = false;
                self.ri_odd = category == WordCat::RegionalIndicator;
                return None;
            }
            return Some(pending.connector_offset);
        }
        let previous_category = match self.significant {
            Some(Significant::Cat(c)) => c,
            _ => {
                return Some(at);
            },
        };
        if is_hard_break(previous_category, category) {
            return Some(at);
        }
        if previous_category == WordCat::CR && category == WordCat::LF {
            self.update_significant(category, at);
            return None;
        }
        if previous_category == WordCat::WSegSpace && category == WordCat::WSegSpace {
            if !self.skipped {
                self.update_significant(category, at);
                return None;
            }
            return Some(at);
        }
        if previous_category == WordCat::HebrewLetter && category == WordCat::SingleQuote {
            self.raw_previous = Some(category);
            self.skipped = false;
            return None;
        }
        if pair_matches(previous_category, category) {
            self.update_significant(category, at);
            return None;
        }
        if is_connector_after(previous_category, category) {
            self.pending = Some(
                ForwardPending { connector: category, connector_offset: at, left: previous_category },
            );
            self.raw_previous = Some(category);
            self.skipped = false;
            return None;
        }
        if previous_category == WordCat::RegionalIndicator && category
            == WordCat::RegionalIndicator {
            if self.ri_odd {
                self.ri_odd = false;
                self.update_significant(category, at);
                return None;
            }
            return Some(at);
        }
        Some(at)
    }

    /// The boundary that the end of the document, at `document_end`, settles.
    pub fn finish(&self, document_end: usize) -> (r: usize)
        ensures
            r == forward_finish(*self, document_end),
    {
        match self.pending {
            Some(pending) => pending.connector_offset,
            None => document_end,
        }
    }

    /// Runs the machine over `chunk`, which begins at byte offset `chunk_start`,
    /// stopping at the first boundary that a scalar settles.
    pub fn scan(&mut self, chunk: &str, chunk_start: usize) -> (r: Option<usize>)
        requires
            chunk_start + utf8_len(chunk@) <= usize::MAX,
        ensures
            (*final(self), r) == forward_scan(*old(self), chunk@, chunk_start as int),
    {
        let ghost start_state = *self;
        let mut rel: usize = 0;
        for ch in it: chunk.chars()
            invariant
                it.seq() == chunk@,
                start_state == *old(self),
                0 <= it.index() <= chunk@.len(),
                rel == byte_offset(chunk@, it.index()),
                chunk_start + utf8_len(chunk@) <= usize::MAX,
                forward_scan(start_state, chunk@.take(it.index()), chunk_start as int) == (
                *self,
                None::<usize>,
                ),
        {
            let ghost k = it.index();
            proof {
                lemma_byte_offset_step(chunk@, k);
                lemma_byte_offset_mono(chunk@, k + 1, chunk@.len() as int);
                lemma_byte_offset_full(chunk@);
                lemma_forward_scan_push(start_state, chunk@.take(k), ch, chunk_start as int);
                assert(chunk@.take(k).push(ch) =~= chunk@.take(k + 1));
                assert(chunk@ =~= chunk@.take(k + 1) + chunk@.skip(k + 1));
                lemma_forward_scan_concat(
                    start_state,
                    chunk@.take(k + 1),
                    chunk@.skip(k + 1),
                    chunk_start as int,
                );
            }
            assert(ch == chunk@[k]);
            let at = chunk_start + rel;
            let ghost before = *self;
            let found = self.push(ch, at);
            proof {
                lemma_forward_step_found_unchanged(
                    before,
                    word_cat(ch),
                    extended_pictographic(ch),
                    at,
                );
            }
            if found.is_some() {
                return found;
            }
            rel = rel + char_width(ch);
        }
        proof {
            assert(chunk@.take(chunk@.len() as int) =~= chunk@);
        }
        None
    }
}

/// `s` with every offset it keeps moved `delta` bytes later.
pub open spec fn forward_shifted(s: ForwardState, delta: int) -> ForwardState {
    ForwardState {
        significant_offset: (s.significant_offset + delta) as usize,
        pending: match s.pending {
            Some(p) => Some(
                ForwardPending { connector_offset: (p.connector_offset + delta) as usize, ..p },
            ),
            None => None,
        },
        ..s
    }
}

/// A reported boundary moved `delta` bytes later.
pub open spec fn boundary_shifted(b: Option<usize>, delta: int) -> Option<usize> {
    match b {
        Some(x) => Some((x + delta) as usize),
        None => None,
    }
}

/// One step commutes with moving every offset by `delta`.
pub proof fn lemma_forward_step_shift(
    s: ForwardState,
    category: WordCat,
    pictographic: bool,
    at: int,
    delta: int,
)
    requires
        forward_ordered(s, at),
        s.significant_offset <= at,
        0 <= at,
        0 <= delta,
        at + delta <= usize::MAX,
    ensures
        ({
            let step = forward_step(s, category, pictographic, at as usize);
            forward_step(forward_shifted(s, delta), category, pictographic, (at + delta) as usize)
                == (forward_shifted(step.0, delta), boundary_shifted(step.1, delta))
        }),
{
}

/// Scanning commutes with moving every offset by `delta`: the machine reads
/// only categories, and offsets only pass through it.
pub proof fn lemma_forward_scan_shift(s: ForwardState, chars: Seq<char>, at: int, delta: int)
    requires
        forward_ordered(s, at),
        s.significant_offset <= at,
        0 <= at,
        0 <= delta,
        at + delta + utf8_len(chars) <= usize::MAX,
    ensures
        ({
            let scanned = forward_scan(s, chars, at);
            forward_scan(forward_shifted(s, delta), chars, at + delta) == (
                forward_shifted(scanned.0, delta),
                boundary_shifted(scanned.1, delta),
            )
        }),
    decreases chars.len(),
{
    if chars.len() > 0 {
        let c = chars[0];
        let w = utf8_width(c);
        assert(utf8_len(chars) == w + utf8_len(chars.drop_first()));
        lemma_forward_step_shift(s, word_cat(c), extended_pictographic(c), at, delta);
        let step = forward_step(s, word_cat(c), extended_pictographic(c), at as usize);
        if step.1 is None {
            assert(seq![c].drop_first() =~= Seq::<char>::empty());
            assert(seq![c][0] == c);
            assert(utf8_len(seq![c]) == w) by {
                assert(utf8_len(seq![c]) == w + utf8_len(seq![c].drop_first()));
            }
            lemma_forward_scan_bounds(s, seq![c], at);
            lemma_forward_scan_shift(step.0, chars.drop_first(), at + w, delta);
        }
    }
}

} // verus!
