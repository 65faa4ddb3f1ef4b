//! The reverse word-boundary state machine: it consumes scalars right to left
//! from a known boundary and reports the previous boundary, keeping a
//! fixed-size state between chunks.

use crate::utf8_len::{
    byte_offset, char_width, lemma_byte_offset_full, lemma_byte_offset_mono,
    lemma_byte_offset_step, lemma_utf8_len_concat, lemma_utf8_len_single, utf8_len, utf8_width,
};
use crate::word_cat::{
    connector_matches, extended_pictographic, is_connector_before, is_extended_pictographic,
    is_hard_break, is_ignored, is_newline, pair_matches, word_cat, word_category, WordCat,
};
use crate::word_cursor_forward::{is_scalar_offset, Significant};
use vstd::prelude::*;

verus! {

broadcast use vstd::seq::group_seq_axioms;

/// A connector whose join waits on the significant scalar to its left.
#[derive(Clone, Copy, Debug, PartialEq, Eq, Structural)]
pub struct ReversePending {
    pub connector: WordCat,
    pub right: WordCat,
    pub right_offset: usize,
}

/// A run of regional indicators being counted from its right end (WB15/WB16).
#[derive(Clone, Copy, Debug, PartialEq, Eq, Structural)]
pub struct ReverseRegional {
    pub odd: bool,
    pub rightmost_offset: usize,
    pub second_right_offset: usize,
}

/// The state of a reverse boundary search.
#[derive(Clone, Copy, Debug, PartialEq, Eq, Structural)]
pub struct ReverseState {
    pub significant: Option<Significant>,
    pub significant_offset: usize,
    pub right_pictographic: bool,
    pub skipped: bool,
    pub include_left: bool,
    pub pending: Option<ReversePending>,
    pub regional: Option<ReverseRegional>,
    pub leading_ignored_start: Option<usize>,
}

/// The state of a search that starts at `cursor_start`.
pub open spec fn reverse_init(cursor_start: usize) -> ReverseState {
    ReverseState {
        significant: None,
        significant_offset: cursor_start,
        right_pictographic: false,
        skipped: false,
        include_left: false,
        pending: None,
        regional: None,
        leading_ignored_start: None,
    }
}

/// The boundary that ends a counted run of regional indicators: pairs are
/// formed from the left, so an odd run leaves its rightmost indicator alone.
pub open spec fn regional_boundary_of(regional: ReverseRegional) -> usize {
    if !regional.odd {
        regional.second_right_offset
    } else {
        regional.rightmost_offset
    }
}

/// `s` after `category` at `at` became the significant scalar.
pub open spec fn reverse_updated(
    s: ReverseState,
    category: WordCat,
    at: usize,
    pictographic: bool,
) -> ReverseState {
    ReverseState {
        significant: Some(Significant::Cat(category)),
        significant_offset: at,
        right_pictographic: pictographic,
        skipped: false,
        ..s
    }
}

/// The rules for a non-ignored scalar of `category` at `at` left of the
/// significant category `right`, with nothing pending.
pub open spec fn reverse_pair_step(
    s: ReverseState,
    category: WordCat,
    right: WordCat,
    at: usize,
    pictographic: bool,
) -> (ReverseState, Option<usize>) {
    if is_hard_break(category, right) {
        (s, Some(s.significant_offset))
    } else if category == WordCat::CR && right == WordCat::LF && !s.skipped {
        (reverse_updated(s, category, at, pictographic), None)
    } else if category == WordCat::WSegSpace && right == WordCat::WSegSpace {
        if !s.skipped {
            (reverse_updated(s, category, at, pictographic), None)
        } else {
            (s, Some(s.significant_offset))
        }
    } else if is_connector_before(category, right) {
        (
            ReverseState {
                pending: Some(
                    ReversePending {
                        connector: category,
                        right: right,
                        right_offset: s.significant_offset,
                    },
                ),
                skipped: false,
                ..s
            },
            None,
        )
    } else if category == WordCat::RegionalIndicator && right == WordCat::RegionalIndicator {
        (
            ReverseState {
                regional: Some(
                    ReverseRegional {
                        odd: false,
                        rightmost_offset: s.significant_offset,
                        second_right_offset: at,
                    },
                ),
                ..s
            },
            None,
        )
    } else if pair_matches(category, right) {
        (reverse_updated(s, category, at, pictographic), None)
    } else {
        (s, Some(s.significant_offset))
    }
}

/// One step of the reverse machine on a scalar of `category` (pictographic or
/// not) that begins at byte offset `at`: the new state and, when the scalar
/// settles it, the boundary. A step that reports a boundary leaves the state
/// unchanged.
pub open spec fn reverse_step(s: ReverseState, category: WordCat, pictographic: bool, at: usize) -> (
    ReverseState,
    Option<usize>,
) {
    if s.regional is Some {
        let regional = s.regional->0;
        if is_ignored(category) {
            (ReverseState { skipped: true, ..s }, None)
        } else if category == WordCat::RegionalIndicator {
            (
                ReverseState {
                    regional: Some(ReverseRegional { odd: !regional.odd, ..regional }),
                    ..s
                },
                None,
            )
        } else {
            (s, Some(regional_boundary_of(regional)))
        }
    } else if s.significant is None {
        if is_ignored(category) {
            (ReverseState { skipped: true, leading_ignored_start: Some(at), ..s }, None)
        } else if is_newline(category) && s.leading_ignored_start is Some {
            (s, Some(s.leading_ignored_start->0))
        } else {
            (
                ReverseState {
                    significant: Some(Significant::Cat(category)),
                    significant_offset: at,
                    right_pictographic: pictographic,
                    skipped: false,
                    ..s
                },
                None,
            )
        }
    } else if is_ignored(category) {
        if category == WordCat::ZWJ && (s.significant matches Some(Significant::Cat(_)))
            && s.right_pictographic && !s.skipped {
            (
                ReverseState {
                    include_left: true,
                    significant: Some(Significant::Emoji),
                    skipped: true,
                    ..s
                },
                None,
            )
        } else {
            (ReverseState { skipped: true, ..s }, None)
        }
    } else if s.include_left {
        (reverse_updated(ReverseState { include_left: false, ..s }, category, at, pictographic), None)
    } else if s.pending is Some {
        let p = s.pending->0;
        if connector_matches(category, p.connector, p.right) {
            (reverse_updated(ReverseState { pending: None, ..s }, category, at, pictographic), None)
        } else {
            (s, Some(p.right_offset))
        }
    } else {
        match s.significant->0 {
            Significant::Emoji => (s, Some(s.significant_offset)),
            Significant::Cat(right) => reverse_pair_step(s, category, right, at, pictographic),
        }
    }
}

/// The reverse machine run over `chars`, the last of which ends at byte
/// offset `end`: it stops at the first scalar (from the right) that settles a
/// boundary.
pub open spec fn reverse_scan(s: ReverseState, chars: Seq<char>, end: int) -> (
    ReverseState,
    Option<usize>,
)
    decreases chars.len(),
{
    if chars.len() == 0 {
        (s, None)
    } else {
        let c = chars.last();
        let at = end - utf8_width(c);
        let step = reverse_step(s, word_cat(c), extended_pictographic(c), at as usize);
        if step.1 is Some {
            step
        } else {
            reverse_scan(step.0, chars.drop_last(), at)
        }
    }
}

/// The boundary that reaching the start of the document settles.
pub open spec fn reverse_finish(s: ReverseState) -> usize {
    if s.regional is Some {
        regional_boundary_of(s.regional->0)
    } else if s.pending is Some {
        s.pending->0.right_offset
    } else if s.skipped && !s.include_left && s.significant is Some {
        s.significant_offset
    } else {
        0
    }
}

/// A step that settles a boundary leaves the state as it was.
pub proof fn lemma_reverse_step_found_unchanged(
    s: ReverseState,
    category: WordCat,
    pictographic: bool,
    at: usize,
)
    ensures
        reverse_step(s, category, pictographic, at).1 is Some ==> reverse_step(
            s,
            category,
            pictographic,
            at,
        ).0 == s,
{
}

/// Running the machine over `a + b` (right to left) is running it over `b`
/// and, unless `b` settled a boundary, continuing over `a` from where `b`
/// began.
pub proof fn lemma_reverse_scan_concat(s: ReverseState, a: Seq<char>, b: Seq<char>, end: int)
    ensures
        reverse_scan(s, a + b, end) == ({
            let first = reverse_scan(s, b, end);
            if first.1 is Some {
                first
            } else {
                reverse_scan(first.0, a, end - utf8_len(b))
            }
        }),
    decreases b.len(),
{
    if b.len() == 0 {
        assert(a + b =~= a);
    } else {
        let c = b.last();
        assert((a + b).drop_last() =~= a + b.drop_last());
        assert((a + b).last() == c);
        assert(b =~= b.drop_last() + seq![c]);
        lemma_utf8_len_concat(b.drop_last(), seq![c]);
        lemma_utf8_len_single(c);
        let step = reverse_step(
            s,
            word_cat(c),
            extended_pictographic(c),
            (end - utf8_width(c)) as usize,
        );
        lemma_reverse_scan_concat(step.0, a, b.drop_last(), end - utf8_width(c));
    }
}

/// Every offset that a reverse state keeps lies in `[edge, hi)`: at or right
/// of the scalars still to be scanned, and left of where the search began.
pub open spec fn reverse_ordered(s: ReverseState, edge: int, hi: int) -> bool {
    &&& (s.significant is Some ==> edge <= s.significant_offset < hi)
    &&& (s.pending matches Some(p) ==> edge <= p.right_offset < hi)
    &&& (s.regional matches Some(r) ==> edge <= r.rightmost_offset < hi && edge
        <= r.second_right_offset < hi)
    &&& (s.leading_ignored_start matches Some(x) ==> edge <= x < hi)
}

/// A boundary that a reverse scan settles lies strictly right of the scanned
/// scalars' start and strictly left of where the search began; the kept
/// offsets stay ordered.
pub proof fn lemma_reverse_scan_bounds(s: ReverseState, chars: Seq<char>, end: int, hi: int)
    requires
        reverse_ordered(s, end, hi),
        end <= hi,
        0 <= end - utf8_len(chars),
        end <= usize::MAX,
    ensures
        reverse_scan(s, chars, end).1 matches Some(b) ==> end - utf8_len(chars) < b < hi,
        reverse_scan(s, chars, end).1 is None ==> reverse_ordered(
            reverse_scan(s, chars, end).0,
            end - utf8_len(chars),
            hi,
        ),
    decreases chars.len(),
{
    if chars.len() > 0 {
        let c = chars.last();
        let w = utf8_width(c);
        assert(chars =~= chars.drop_last() + seq![c]);
        lemma_utf8_len_concat(chars.drop_last(), seq![c]);
        lemma_utf8_len_single(c);
        let step = reverse_step(s, word_cat(c), extended_pictographic(c), (end - w) as usize);
        if step.1 is None {
            lemma_reverse_scan_bounds(step.0, chars.drop_last(), end - w, hi);
        }
    }
}

/// What reaching the document start settles lies left of where the search
/// began (or is the document start).
pub proof fn lemma_reverse_finish_bounds(s: ReverseState, edge: int, hi: int)
    requires
        reverse_ordered(s, edge, hi),
        0 <= edge,
    ensures
        reverse_finish(s) == 0 || edge <= reverse_finish(s) < hi,
{
}

/// Every offset that `st` keeps is a scalar offset of `s`.
pub open spec fn reverse_offsets_in(st: ReverseState, s: Seq<char>) -> bool {
    &&& (st.significant is Some ==> is_scalar_offset(s, st.significant_offset as int))
    &&& (st.pending matches Some(p) ==> is_scalar_offset(s, p.right_offset as int))
    &&& (st.regional matches Some(r) ==> is_scalar_offset(s, r.rightmost_offset as int)
        && is_scalar_offset(s, r.second_right_offset as int))
    &&& (st.leading_ignored_start matches Some(x) ==> is_scalar_offset(s, x as int))
}

/// Scanning the first `j` scalars of `s` right to left reports only scalar
/// offsets of `s` as boundaries, and keeps only scalar offsets of `s`.
pub proof fn lemma_reverse_scan_scalar_offsets(st: ReverseState, s: Seq<char>, j: int)
    requires
        0 <= j <= s.len(),
        reverse_offsets_in(st, s),
        utf8_len(s) <= usize::MAX,
    ensures
        reverse_scan(st, s.take(j), byte_offset(s, j) as int).1 matches Some(b) ==> is_scalar_offset(s, b as int),
        reverse_scan(st, s.take(j), byte_offset(s, j) as int).1 is None ==> reverse_offsets_in(
            reverse_scan(st, s.take(j), byte_offset(s, j) as int).0,
            s,
        ),
    decreases j,
{
    if j > 0 {
        let c = s[j - 1];
        lemma_byte_offset_step(s, j - 1);
        lemma_byte_offset_mono(s, j, s.len() as int);
        lemma_byte_offset_full(s);
        assert(s.take(j).drop_last() =~= s.take(j - 1));
        assert(s.take(j).last() == c);
        let at = byte_offset(s, j - 1) as int;
        assert(is_scalar_offset(s, at));
        let step = reverse_step(st, word_cat(c), extended_pictographic(c), at as usize);
        if step.1 is None {
            lemma_reverse_scan_scalar_offsets(step.0, s, j - 1);
        }
    }
}

/// What reaching the document start settles is a scalar offset.
pub proof fn lemma_reverse_finish_scalar_offset(st: ReverseState, s: Seq<char>)
    requires
        reverse_offsets_in(st, s),
    ensures
        is_scalar_offset(s, reverse_finish(st) as int),
{
    assert(byte_offset(s, 0) == 0) by {
        assert(s.take(0) =~= Seq::<char>::empty());
    }
}

impl ReverseState {
    /// The state of a search that starts at `cursor_start`.
    pub fn new(cursor_start: usize) -> (s: Self)
        ensures
            s == reverse_init(cursor_start),
    {
        ReverseState {
            significant: None,
            significant_offset: cursor_start,
            right_pictographic: false,
            skipped: false,
            include_left: false,
            pending: None,
            regional: None,
            leading_ignored_start: None,
        }
    }

    fn update_significant(&mut self, category: WordCat, at: usize, pictographic: bool)
        ensures
            *final(self) == reverse_updated(*old(self), category, at, pictographic),
    {
        self.significant = Some(Significant::Cat(category));
        self.significant_offset = at;
        self.right_pictographic = pictographic;
        self.skipped = false;
    }

    /// Consumes the scalar `ch` that begins at byte offset `at`; returns the
    /// boundary when `ch` settles one.
    pub fn push(&mut self, ch: char, at: usize) -> (r: Option<usize>)
        ensures
            (*final(self), r) == reverse_step(
                *old(self),
                word_cat(ch),
                extended_pictographic(ch),
                at,
            ),
    {
        let category = word_category(ch);
        let pictographic = is_extended_pictographic(ch);

        if let Some(regional) = self.regional {
            if is_ignored(category) {
                self.skipped = true;
                return None;
            }
            if category == WordCat::RegionalIndicator {
                self.regional = Some(
                    ReverseRegional {
                        odd: !regional.odd,
                        rightmost_offset: regional.rightmost_offset,
                        second_right_offset: regional.second_right_offset,
                    },
                );
                return None;
            }
            return Some(regional_boundary(regional));
        }
        if self.significant.is_none() {
            if is_ignored(category) {
                self.skipped = true;
                self.leading_ignored_start = Some(at);
                return None;
            }
            if is_newline(category) {
                if let Some(boundary) = self.leading_ignored_start {
                    return Some(boundary);
                }
            }
            self.significant = Some(Significant::Cat(category));
            self.significant_offset = at;
            self.right_pictographic = pictographic;
            self.skipped = false;
            return None;
        }
        if is_ignored(category) {
            let significant_is_cat = match self.significant {
                Some(Significant::Cat(_)) => true,
                _ => false,
            };
            if category == WordCat::ZWJ && significant_is_cat && self.right_pictographic
                && !self.skipped {
                self.include_left = true;
                self.significant = Some(Significant::Emoji);
            }
            self.skipped = true;
            return None;
        }
        if self.include_left {
            self.include_left = false;
            self.update_significant(category, at, pictographic);
            return None;
        }
        if let Some(pending) = self.pending {
            if connector_matches(category, pending.connector, pending.right) {
                self.pending = None;
                self.update_significant(category, at, pictographic);
                return None;
            }
            return Some(pending.right_offset);
        }
        let right = match self.significant {
            Some(Significant::Cat(c)) => c,
            _ => {
                return Some(self.significant_offset);
            },
        };
        if is_hard_break(category, right) {
            return Some(self.significant_offset);
        }
        if category == WordCat::CR && right == WordCat::LF && !self.skipped {
            self.update_significant(category, at, pictographic);
            return None;
        }
        if category == WordCat::WSegSpace && right == WordCat::WSegSpace {
            if !self.skipped {
                self.update_significant(category, at, pictographic);
                return None;
            }
            return Some(self.significant_offset);
        }
        if is_connector_before(category, right) {
            self.pending = Some(
                ReversePending { connector: category, right, right_offset: self.significant_offset },
            );
            self.skipped = false;
            return None;
        }
        if category == WordCat::RegionalIndicator && right == WordCat::RegionalIndicator {
            self.regional = Some(
                ReverseRegional {
                    odd: false,
                    rightmost_offset: self.significant_offset,
                    second_right_offset: at,
                },
            );
            return None;
        }
        if pair_matches(category, right) {
            self.update_significant(category, at, pictographic);
            return None;
        }
        Some(self.significant_offset)
    }

    /// The boundary that reaching the start of the document settles.
    pub fn finish(&self) -> (r: usize)
        ensures
            r == reverse_finish(*self),
    {
        if let Some(regional) = self.regional {
            return regional_boundary(regional);
        }
        if let Some(pending) = self.pending {
            return pending.right_offset;
        }
        if self.skipped && !self.include_left && self.significant.is_some() {
            return self.significant_offset;
        }
        0
    }

    /// Runs the machine right to left over `chunk`, which begins at byte
    /// offset `chunk_start`, stopping at the first boundary that a scalar
    /// settles.
    pub fn scan(&mut self, chunk: &str, chunk_start: usize) -> (r: Option<usize>)
        requires
            chunk_start + utf8_len(chunk@) <= usize::MAX,
        ensures
            (*final(self), r) == reverse_scan(
                *old(self),
                chunk@,
                chunk_start + utf8_len(chunk@),
            ),
    {
        let ghost start_state = *self;
        let ghost end = chunk_start + utf8_len(chunk@);
        let mut scalars: Vec<char> = Vec::new();
        let mut total: usize = 0;
        for ch in it: chunk.chars()
            invariant
                it.seq() == chunk@,
                0 <= it.index() <= chunk@.len(),
                scalars@ == chunk@.take(it.index()),
                total == byte_offset(chunk@, it.index()),
                chunk_start + utf8_len(chunk@) <= usize::MAX,
        {
            let ghost k = it.index();
            proof {
                lemma_byte_offset_step(chunk@, k);
                lemma_byte_offset_mono(chunk@, k + 1, chunk@.len() as int);
                lemma_byte_offset_full(chunk@);
            }
            assert(ch == chunk@[k]);
            scalars.push(ch);
            assert(scalars@ =~= chunk@.take(k + 1));
            total = total + char_width(ch);
        }
        proof {
            assert(chunk@.take(chunk@.len() as int) =~= chunk@);
            assert(chunk@.skip(chunk@.len() as int) =~= Seq::<char>::empty());
        }
        let mut i: usize = scalars.len();
        let mut rel: usize = total;
        while i > 0
            invariant
                scalars@ == chunk@,
                start_state == *old(self),
                end == chunk_start + utf8_len(chunk@),
                0 <= i <= chunk@.len(),
                rel == byte_offset(chunk@, i as int),
                chunk_start + utf8_len(chunk@) <= usize::MAX,
                reverse_scan(start_state, chunk@.skip(i as int), end) == (*self, None::<usize>),
            decreases i,
        {
            let ch = scalars[i - 1];
            let ghost k = (i - 1) as int;
            proof {
                lemma_byte_offset_step(chunk@, k);
                lemma_byte_offset_full(chunk@);
                assert(chunk@.skip(k) =~= seq![ch] + chunk@.skip(k + 1));
                assert(chunk@ =~= chunk@.take(k + 1) + chunk@.skip(k + 1));
                lemma_utf8_len_concat(chunk@.take(k + 1), chunk@.skip(k + 1));
                lemma_reverse_scan_concat(start_state, seq![ch], chunk@.skip(k + 1), end);
                assert(chunk@ =~= chunk@.take(k) + chunk@.skip(k));
                lemma_reverse_scan_concat(start_state, chunk@.take(k), chunk@.skip(k), end);
                lemma_utf8_len_single(ch);
                assert(seq![ch].drop_last() =~= Seq::<char>::empty());
                assert(seq![ch].last() == ch);
            }
            let at = chunk_start + rel - char_width(ch);
            let ghost before = *self;
            let found = self.push(ch, at);
            proof {
                lemma_reverse_step_found_unchanged(
                    before,
                    word_cat(ch),
                    extended_pictographic(ch),
                    at,
                );
                let step = reverse_step(before, word_cat(ch), extended_pictographic(ch), at);
                assert(reverse_scan(step.0, Seq::<char>::empty(), at as int) == (
                step.0,
                None::<usize>,
                ));
            }
            if found.is_some() {
                return found;
            }
            rel = rel - char_width(ch);
            i = i - 1;
        }
        proof {
            assert(chunk@.skip(0) =~= chunk@);
        }
        None
    }
}

/// The boundary that ends a counted run of regional indicators.
fn regional_boundary(regional: ReverseRegional) -> (r: usize)
    ensures
        r == regional_boundary_of(regional),
{
    if !regional.odd {
        regional.second_right_offset
    } else {
        regional.rightmost_offset
    }
}

} // verus!
