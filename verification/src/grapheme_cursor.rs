//! A grapheme-cluster cursor over non-contiguous UTF-8 chunks.
//!
//! The cursor holds a global byte offset and, for the candidate boundary at
//! that offset, at most one pending backward decision. It never retains the
//! chunks it is given: when a decision needs text before the chunk at hand it
//! asks for it by the offset where that text must end.

use crate::grapheme::{
    lemma_next_boundary_index, lemma_prev_boundary_index, next_boundary_index, prev_boundary_index,
};
use crate::grapheme_rules::{
    grapheme_info, ginfo, is_grapheme_boundary, lemma_scan_back_concat, lemma_scan_back_decided,
    lookback_finish, scan_back, scan_scalars_back, finish_at_start, Lookback,
};
use crate::utf8_len::{
    byte_offset, char_width, collect_scalars, lemma_byte_offset_full, lemma_byte_offset_injective,
    lemma_byte_offset_mono,
    lemma_byte_offset_step, lemma_utf8_len_concat, lemma_utf8_len_ge, utf8_len, utf8_width,
};
use vstd::prelude::*;

verus! {

/// Why a grapheme cursor could not answer with the chunk it was given.
#[derive(Clone, Copy, Debug, PartialEq, Eq, Structural)]
pub enum GraphemeIncomplete {
    /// The text that ends at this byte offset is needed; supply it with
    /// `provide_context` and ask again.
    PreContext(usize),
    /// The chunk that ends where the given one starts is needed.
    PrevChunk,
    /// The chunk that starts where the given one ends is needed.
    NextChunk,
    /// The cursor's offset is not a scalar offset of the given chunk, or the
    /// chunk runs past the document's end.
    InvalidOffset,
}

/// What the cursor knows of the candidate boundary at its offset.
#[derive(Clone, Copy, Debug, PartialEq, Eq, Structural)]
pub enum Decision {
    /// Nothing yet.
    Unknown,
    /// The offset is a boundary exactly when `boundary` holds.
    Known { boundary: bool },
    /// The text before the offset has been read back to `scan_end`, leaving
    /// `state`; the text that ends at `scan_end` decides.
    Pending { state: Lookback, scan_end: usize },
}

/// The scalar index `i` of `s` (placed at byte offset `start`) whose byte
/// offset is `offset`, if there is one; `i` may be `s.len()`, the end.
pub open spec fn scalar_index_in(s: Seq<char>, start: int, offset: int) -> Option<int> {
    if exists|i: int| 0 <= i <= s.len() && #[trigger] byte_offset(s, i) + start == offset {
        Some(choose|i: int| 0 <= i <= s.len() && #[trigger] byte_offset(s, i) + start == offset)
    } else {
        None
    }
}

/// The decision left by a backward read that ended at the start of a chunk
/// placed at `chunk_start`: decided, finished at the document start, or
/// waiting for the text that ends at `chunk_start`.
pub open spec fn settle(st: Lookback, chunk_start: usize) -> Decision {
    match st {
        Lookback::Decided { boundary } => Decision::Known { boundary },
        _ => {
            if chunk_start == 0 {
                Decision::Known { boundary: lookback_finish(st) }
            } else {
                Decision::Pending { state: st, scan_end: chunk_start }
            }
        },
    }
}

/// The answer a decision gives: the boundary, or the text it still needs.
pub open spec fn decision_answer(d: Decision) -> Result<bool, GraphemeIncomplete> {
    match d {
        Decision::Known { boundary } => Ok(boundary),
        Decision::Pending { scan_end, .. } => Err(GraphemeIncomplete::PreContext(scan_end)),
        Decision::Unknown => Err(GraphemeIncomplete::InvalidOffset),
    }
}

/// A cursor into a document of `len` bytes that finds extended (or legacy)
/// grapheme-cluster boundaries in chunks the caller supplies one at a time.
#[derive(Clone, Debug)]
pub struct GraphemeCursor {
    offset: usize,
    len: usize,
    is_extended: bool,
    resuming: bool,
    decision: Decision,
}

impl GraphemeCursor {
    /// The cursor's global byte offset.
    pub closed spec fn offset_of(self) -> usize {
        self.offset
    }

    /// The document length the cursor was created with.
    pub closed spec fn doc_len(self) -> usize {
        self.len
    }

    /// Whether the cursor finds extended rather than legacy clusters.
    pub closed spec fn extended(self) -> bool {
        self.is_extended
    }

    /// Whether the offset is a candidate that a traversal reached and has
    /// not yet judged.
    pub closed spec fn is_resuming(self) -> bool {
        self.resuming
    }

    /// What the cursor knows of the candidate at its offset.
    pub closed spec fn decision_of(self) -> Decision {
        self.decision
    }

    /// The offset lies in the document, and the document's edges are known
    /// boundaries (GB1, GB2).
    pub closed spec fn wf(self) -> bool {
        &&& self.offset <= self.len
        &&& (self.offset == 0 || self.offset == self.len) ==> self.decision == (Decision::Known {
            boundary: true,
        })
    }

    /// A cursor at rest at `offset`.
    pub closed spec fn fresh(offset: usize, len: usize, is_extended: bool) -> GraphemeCursor {
        GraphemeCursor {
            offset,
            len,
            is_extended,
            resuming: false,
            decision: if offset == 0 || offset == len {
                Decision::Known { boundary: true }
            } else {
                Decision::Unknown
            },
        }
    }

    /// The decision at the offset after looking at `chunk`, placed at
    /// `chunk_start`: an undecided offset inside the chunk is read backward
    /// from the scalar after it.
    pub closed spec fn decided_at(self, chunk: Seq<char>, chunk_start: usize) -> Decision {
        match self.decision {
            Decision::Unknown => match scalar_index_in(chunk, chunk_start as int, self.offset as int) {
                Some(i) => {
                    if i < chunk.len() {
                        settle(
                            scan_back(
                                Lookback::Start { after: ginfo(chunk[i]) },
                                chunk.take(i),
                                self.is_extended,
                            ),
                            chunk_start,
                        )
                    } else {
                        Decision::Unknown
                    }
                },
                None => Decision::Unknown,
            },
            d => d,
        }
    }

    /// What `is_boundary(chunk, chunk_start)` does.
    pub closed spec fn is_boundary_spec(self, chunk: Seq<char>, chunk_start: usize) -> (
        GraphemeCursor,
        Result<bool, GraphemeIncomplete>,
    ) {
        let d = self.decided_at(chunk, chunk_start);
        (GraphemeCursor { decision: d, ..self }, decision_answer(d))
    }

    /// What `provide_context(chunk, chunk_start)` does to a pending decision.
    pub closed spec fn provide_context_spec(self, chunk: Seq<char>, chunk_start: usize) -> GraphemeCursor {
        match self.decision {
            Decision::Pending { state, .. } => GraphemeCursor {
                decision: settle(scan_back(state, chunk, self.is_extended), chunk_start),
                ..self
            },
            _ => self,
        }
    }

    /// Forward traversal from the offset, the `i`-th scalar offset of
    /// `chunk`: steps over one scalar and judges the offset after it, until
    /// a boundary is found or the chunk cannot answer.
    pub closed spec fn step_forward(self, chunk: Seq<char>, chunk_start: usize, i: int) -> (
        GraphemeCursor,
        Result<Option<usize>, GraphemeIncomplete>,
    )
        decreases chunk.len() - i,
    {
        if i < 0 || i >= chunk.len() {
            (self, Err(GraphemeIncomplete::NextChunk))
        } else {
            let next = self.offset + utf8_width(chunk[i]);
            if next > self.len {
                (self, Err(GraphemeIncomplete::InvalidOffset))
            } else {
                let d = if next == self.len {
                    Decision::Known { boundary: true }
                } else if i + 1 < chunk.len() {
                    settle(
                        scan_back(
                            Lookback::Start { after: ginfo(chunk[i + 1]) },
                            chunk.take(i + 1),
                            self.is_extended,
                        ),
                        chunk_start,
                    )
                } else {
                    Decision::Unknown
                };
                let moved = GraphemeCursor {
                    offset: next as usize,
                    resuming: true,
                    decision: d,
                    ..self
                };
                match d {
                    Decision::Known { boundary } => {
                        if boundary {
                            (GraphemeCursor { resuming: false, ..moved }, Ok(Some(next as usize)))
                        } else {
                            GraphemeCursor { resuming: false, ..moved }.step_forward(
                                chunk,
                                chunk_start,
                                i + 1,
                            )
                        }
                    },
                    Decision::Pending { scan_end, .. } => (
                        moved,
                        Err(GraphemeIncomplete::PreContext(scan_end)),
                    ),
                    Decision::Unknown => (moved, Err(GraphemeIncomplete::NextChunk)),
                }
            }
        }
    }

    /// Forward traversal from the offset, located in `chunk`.
    pub closed spec fn advance_spec(self, chunk: Seq<char>, chunk_start: usize) -> (
        GraphemeCursor,
        Result<Option<usize>, GraphemeIncomplete>,
    ) {
        match scalar_index_in(chunk, chunk_start as int, self.offset as int) {
            Some(i) => self.step_forward(chunk, chunk_start, i),
            None => (self, Err(GraphemeIncomplete::InvalidOffset)),
        }
    }

    /// What `next_boundary(chunk, chunk_start)` does: a candidate that a
    /// traversal reached is judged first; otherwise the cursor moves on.
    pub closed spec fn next_boundary_spec(self, chunk: Seq<char>, chunk_start: usize) -> (
        GraphemeCursor,
        Result<Option<usize>, GraphemeIncomplete>,
    ) {
        if self.resuming {
            let d = self.decided_at(chunk, chunk_start);
            let judged = GraphemeCursor { decision: d, ..self };
            match d {
                Decision::Known { boundary } => {
                    if boundary {
                        (GraphemeCursor { resuming: false, ..judged }, Ok(Some(self.offset)))
                    } else {
                        GraphemeCursor { resuming: false, ..judged }.advance_spec(
                            chunk,
                            chunk_start,
                        )
                    }
                },
                _ => (judged, Err(decision_answer(d)->Err_0)),
            }
        } else if self.offset == self.len {
            (self, Ok(None))
        } else {
            self.advance_spec(chunk, chunk_start)
        }
    }

    /// Backward traversal from the offset, the `i`-th scalar offset of
    /// `chunk`: steps back over one scalar and judges the offset before it,
    /// until a boundary is found or the chunk cannot answer.
    pub closed spec fn step_backward(self, chunk: Seq<char>, chunk_start: usize, i: int) -> (
        GraphemeCursor,
        Result<Option<usize>, GraphemeIncomplete>,
    )
        decreases i,
    {
        if i <= 0 || i > chunk.len() {
            (self, Err(GraphemeIncomplete::PrevChunk))
        } else {
            let prev = self.offset - utf8_width(chunk[i - 1]);
            let d = settle(
                scan_back(
                    Lookback::Start { after: ginfo(chunk[i - 1]) },
                    chunk.take(i - 1),
                    self.is_extended,
                ),
                chunk_start,
            );
            let moved = GraphemeCursor { offset: prev as usize, resuming: true, decision: d, ..self };
            match d {
                Decision::Known { boundary } => {
                    if boundary {
                        (GraphemeCursor { resuming: false, ..moved }, Ok(Some(prev as usize)))
                    } else {
                        GraphemeCursor { resuming: false, ..moved }.step_backward(
                            chunk,
                            chunk_start,
                            i - 1,
                        )
                    }
                },
                Decision::Pending { scan_end, .. } => (
                    moved,
                    Err(GraphemeIncomplete::PreContext(scan_end)),
                ),
                Decision::Unknown => (moved, Err(GraphemeIncomplete::PrevChunk)),
            }
        }
    }

    /// Backward traversal from the offset, located in `chunk`.
    pub closed spec fn retreat_spec(self, chunk: Seq<char>, chunk_start: usize) -> (
        GraphemeCursor,
        Result<Option<usize>, GraphemeIncomplete>,
    ) {
        match scalar_index_in(chunk, chunk_start as int, self.offset as int) {
            Some(i) => self.step_backward(chunk, chunk_start, i),
            None => (self, Err(GraphemeIncomplete::InvalidOffset)),
        }
    }

    /// What `prev_boundary(chunk, chunk_start)` does.
    pub closed spec fn prev_boundary_spec(self, chunk: Seq<char>, chunk_start: usize) -> (
        GraphemeCursor,
        Result<Option<usize>, GraphemeIncomplete>,
    ) {
        if self.resuming {
            let d = self.decided_at(chunk, chunk_start);
            let judged = GraphemeCursor { decision: d, ..self };
            match d {
                Decision::Known { boundary } => {
                    if boundary {
                        (GraphemeCursor { resuming: false, ..judged }, Ok(Some(self.offset)))
                    } else {
                        GraphemeCursor { resuming: false, ..judged }.retreat_spec(
                            chunk,
                            chunk_start,
                        )
                    }
                },
                _ => (judged, Err(decision_answer(d)->Err_0)),
            }
        } else if self.offset == 0 {
            (self, Ok(None))
        } else {
            self.retreat_spec(chunk, chunk_start)
        }
    }
}

/// Finds the scalar index of the byte offset `offset` in `v`, placed at
/// `start`.
fn locate(v: &Vec<char>, start: usize, offset: usize) -> (r: Option<usize>)
    requires
        start + utf8_len(v@) <= usize::MAX,
    ensures
        match r {
            Some(i) => scalar_index_in(v@, start as int, offset as int) == Some(i as int),
            None => scalar_index_in(v@, start as int, offset as int) is None,
        },
{
    let mut i: usize = 0;
    let mut pos: usize = start;
    while i < v.len() && pos < offset
        invariant
            i <= v.len(),
            start + utf8_len(v@) <= usize::MAX,
            pos == start + byte_offset(v@, i as int),
            forall|j: int| 0 <= j < i ==> #[trigger] byte_offset(v@, j) + start < offset,
        decreases v.len() - i,
    {
        proof {
            lemma_byte_offset_step(v@, i as int);
            lemma_byte_offset_mono(v@, i + 1, v@.len() as int);
            lemma_byte_offset_full(v@);
        }
        pos = pos + char_width(v[i]);
        i = i + 1;
    }
    if pos == offset {
        proof {
            assert(byte_offset(v@, i as int) + start == offset);
            let k = choose|k: int| 0 <= k <= v@.len() && #[trigger] byte_offset(v@, k) + start == offset;
            lemma_byte_offset_injective(v@, k, i as int);
        }
        Some(i)
    } else {
        proof {
            assert forall|j: int| 0 <= j <= v@.len() implies #[trigger] byte_offset(v@, j) + start
                != offset by {
                if j > i {
                    lemma_byte_offset_mono(v@, i as int, j);
                }
            }
        }
        None
    }
}

/// The decision a backward read leaves at the start of its chunk.
fn settle_at(st: Lookback, chunk_start: usize) -> (d: Decision)
    ensures
        d == settle(st, chunk_start),
{
    match st {
        Lookback::Decided { boundary } => Decision::Known { boundary },
        _ => {
            if chunk_start == 0 {
                Decision::Known { boundary: finish_at_start(st) }
            } else {
                Decision::Pending { state: st, scan_end: chunk_start }
            }
        },
    }
}

fn answer_of(d: Decision) -> (r: Result<bool, GraphemeIncomplete>)
    ensures
        r == decision_answer(d),
{
    match d {
        Decision::Known { boundary } => Ok(boundary),
        Decision::Pending { scan_end, .. } => Err(GraphemeIncomplete::PreContext(scan_end)),
        Decision::Unknown => Err(GraphemeIncomplete::InvalidOffset),
    }
}

/// Reads `v[..upto]` backward from the candidate before `v[upto]`.
fn judge_before(v: &Vec<char>, upto: usize, chunk_start: usize, is_extended: bool) -> (d: Decision)
    requires
        upto < v.len(),
    ensures
        d == settle(
            scan_back(Lookback::Start { after: ginfo(v@[upto as int]) }, v@.take(upto as int), is_extended),
            chunk_start,
        ),
{
    let st = scan_scalars_back(Lookback::Start { after: grapheme_info(v[upto]) }, v, 0, upto, is_extended);
    assert(v@.subrange(0, upto as int) =~= v@.take(upto as int));
    settle_at(st, chunk_start)
}

impl GraphemeCursor {
    /// Creates a cursor at byte `offset` of a document of `len` bytes.
    pub fn new(offset: usize, len: usize, is_extended: bool) -> (r: GraphemeCursor)
        ensures
            r == GraphemeCursor::fresh(offset, len, is_extended),
            offset <= len ==> r.wf(),
    {
        GraphemeCursor {
            offset,
            len,
            is_extended,
            resuming: false,
            decision: if offset == 0 || offset == len {
                Decision::Known { boundary: true }
            } else {
                Decision::Unknown
            },
        }
    }

    /// The cursor's byte offset.
    pub fn cur_cursor(&self) -> (r: usize)
        ensures
            r == self.offset_of(),
    {
        self.offset
    }

    /// Moves the cursor to `offset`, forgetting what it knew, unless it is
    /// already there.
    pub fn set_cursor(&mut self, offset: usize)
        ensures
            *final(self) == if offset != old(self).offset_of() {
                GraphemeCursor::fresh(offset, old(self).doc_len(), old(self).extended())
            } else {
                *old(self)
            },
            old(self).wf() && offset <= old(self).doc_len() ==> final(self).wf(),
    {
        if offset != self.offset {
            *self = GraphemeCursor::new(offset, self.len, self.is_extended);
        }
    }

    fn decide_here(&self, v: &Vec<char>, chunk_start: usize) -> (d: Decision)
        requires
            chunk_start + utf8_len(v@) <= usize::MAX,
        ensures
            d == self.decided_at(v@, chunk_start),
    {
        match self.decision {
            Decision::Unknown => match locate(v, chunk_start, self.offset) {
                Some(i) => {
                    if i < v.len() {
                        judge_before(v, i, chunk_start, self.is_extended)
                    } else {
                        Decision::Unknown
                    }
                },
                None => Decision::Unknown,
            },
            d => d,
        }
    }

    /// Whether the cursor's offset is a boundary, judged with `chunk`, the
    /// text at byte `chunk_start`: an `Err` names the text still needed.
    pub fn is_boundary(&mut self, chunk: &str, chunk_start: usize) -> (r: Result<
        bool,
        GraphemeIncomplete,
    >)
        requires
            chunk_start + utf8_len(chunk@) <= usize::MAX,
        ensures
            (*final(self), r) == old(self).is_boundary_spec(chunk@, chunk_start),
            old(self).wf() ==> final(self).wf(),
    {
        let v = collect_scalars(chunk);
        let d = self.decide_here(&v, chunk_start);
        self.decision = d;
        answer_of(d)
    }

    /// Supplies the text that ends where a pending decision stopped reading.
    pub fn provide_context(&mut self, chunk: &str, chunk_start: usize)
        requires
            old(self).decision_of() is Pending,
            chunk_start + utf8_len(chunk@) == old(self).decision_of()->scan_end,
        ensures
            *final(self) == old(self).provide_context_spec(chunk@, chunk_start),
            old(self).wf() ==> final(self).wf(),
    {
        let v = collect_scalars(chunk);
        if let Decision::Pending { state, .. } = self.decision {
            let st = scan_scalars_back(state, &v, 0, v.len(), self.is_extended);
            assert(v@.subrange(0, v@.len() as int) =~= chunk@);
            self.decision = settle_at(st, chunk_start);
        }
    }

    fn walk_forward(&mut self, v: &Vec<char>, chunk_start: usize, i0: usize) -> (r: Result<
        Option<usize>,
        GraphemeIncomplete,
    >)
        requires
            !old(self).resuming,
            i0 <= v.len(),
            old(self).offset == chunk_start + byte_offset(v@, i0 as int),
            chunk_start + utf8_len(v@) <= usize::MAX,
        ensures
            (*final(self), r) == old(self).step_forward(v@, chunk_start, i0 as int),
            old(self).wf() ==> final(self).wf(),
    {
        let ghost target = self.step_forward(v@, chunk_start, i0 as int);
        let mut i = i0;
        loop
            invariant
                old(self).wf() ==> self.wf(),
                !self.resuming,
                i <= v.len(),
                self.offset == chunk_start + byte_offset(v@, i as int),
                chunk_start + utf8_len(v@) <= usize::MAX,
                self.step_forward(v@, chunk_start, i as int) == target,
                target == old(self).step_forward(v@, chunk_start, i0 as int),
            decreases v.len() - i,
        {
            if i >= v.len() {
                return Err(GraphemeIncomplete::NextChunk);
            }
            proof {
                lemma_byte_offset_step(v@, i as int);
                lemma_byte_offset_mono(v@, i + 1, v@.len() as int);
                lemma_byte_offset_full(v@);
            }
            let next = self.offset + char_width(v[i]);
            if next > self.len {
                return Err(GraphemeIncomplete::InvalidOffset);
            }
            let d = if next == self.len {
                Decision::Known { boundary: true }
            } else if i + 1 < v.len() {
                judge_before(v, i + 1, chunk_start, self.is_extended)
            } else {
                Decision::Unknown
            };
            self.offset = next;
            self.resuming = true;
            self.decision = d;
            match d {
                Decision::Known { boundary } => {
                    self.resuming = false;
                    if boundary {
                        return Ok(Some(next));
                    }
                    i = i + 1;
                },
                Decision::Pending { scan_end, .. } => {
                    return Err(GraphemeIncomplete::PreContext(scan_end));
                },
                Decision::Unknown => {
                    return Err(GraphemeIncomplete::NextChunk);
                },
            }
        }
    }

    fn walk_backward(&mut self, v: &Vec<char>, chunk_start: usize, i0: usize) -> (r: Result<
        Option<usize>,
        GraphemeIncomplete,
    >)
        requires
            !old(self).resuming,
            i0 <= v.len(),
            old(self).offset == chunk_start + byte_offset(v@, i0 as int),
            chunk_start + utf8_len(v@) <= usize::MAX,
        ensures
            (*final(self), r) == old(self).step_backward(v@, chunk_start, i0 as int),
            old(self).wf() ==> final(self).wf(),
    {
        let ghost target = self.step_backward(v@, chunk_start, i0 as int);
        let mut i = i0;
        loop
            invariant
                old(self).wf() ==> self.wf(),
                !self.resuming,
                i <= v.len(),
                self.offset == chunk_start + byte_offset(v@, i as int),
                chunk_start + utf8_len(v@) <= usize::MAX,
                self.step_backward(v@, chunk_start, i as int) == target,
                target == old(self).step_backward(v@, chunk_start, i0 as int),
            decreases i,
        {
            if i == 0 {
                return Err(GraphemeIncomplete::PrevChunk);
            }
            proof {
                lemma_byte_offset_step(v@, i - 1);
                if i - 1 > 0 {
                    lemma_byte_offset_mono(v@, 0, i - 1);
                }
            }
            let prev = self.offset - char_width(v[i - 1]);
            let d = judge_before(v, i - 1, chunk_start, self.is_extended);
            proof {
                if prev == 0 {
                    lemma_byte_offset_injective(v@, 0, i - 1);
                    assert(v@.take(0) =~= Seq::<char>::empty());
                }
            }
            self.offset = prev;
            self.resuming = true;
            self.decision = d;
            match d {
                Decision::Known { boundary } => {
                    self.resuming = false;
                    if boundary {
                        return Ok(Some(prev));
                    }
                    i = i - 1;
                },
                Decision::Pending { scan_end, .. } => {
                    return Err(GraphemeIncomplete::PreContext(scan_end));
                },
                Decision::Unknown => {
                    return Err(GraphemeIncomplete::PrevChunk);
                },
            }
        }
    }

    /// Moves the cursor to the next boundary after its offset, reading
    /// `chunk`, the text at byte `chunk_start`: `Ok(None)` at the document's
    /// end, and an `Err` names the text still needed.
    pub fn next_boundary(&mut self, chunk: &str, chunk_start: usize) -> (r: Result<
        Option<usize>,
        GraphemeIncomplete,
    >)
        requires
            chunk_start + utf8_len(chunk@) <= usize::MAX,
        ensures
            (*final(self), r) == old(self).next_boundary_spec(chunk@, chunk_start),
            old(self).wf() ==> final(self).wf(),
    {
        let v = collect_scalars(chunk);
        if self.resuming {
            let d = self.decide_here(&v, chunk_start);
            self.decision = d;
            match d {
                Decision::Known { boundary } => {
                    self.resuming = false;
                    if boundary {
                        return Ok(Some(self.offset));
                    }
                },
                Decision::Pending { scan_end, .. } => {
                    return Err(GraphemeIncomplete::PreContext(scan_end));
                },
                Decision::Unknown => {
                    return Err(GraphemeIncomplete::InvalidOffset);
                },
            }
        } else if self.offset == self.len {
            return Ok(None);
        }
        match locate(&v, chunk_start, self.offset) {
            Some(i) => {
                self.walk_forward(&v, chunk_start, i)
            },
            None => Err(GraphemeIncomplete::InvalidOffset),
        }
    }

    /// Moves the cursor to the previous boundary before its offset, reading
    /// `chunk`, the text at byte `chunk_start`: `Ok(None)` at the document's
    /// start, and an `Err` names the text still needed.
    pub fn prev_boundary(&mut self, chunk: &str, chunk_start: usize) -> (r: Result<
        Option<usize>,
        GraphemeIncomplete,
    >)
        requires
            chunk_start + utf8_len(chunk@) <= usize::MAX,
        ensures
            (*final(self), r) == old(self).prev_boundary_spec(chunk@, chunk_start),
            old(self).wf() ==> final(self).wf(),
    {
        let v = collect_scalars(chunk);
        if self.resuming {
            let d = self.decide_here(&v, chunk_start);
            self.decision = d;
            match d {
                Decision::Known { boundary } => {
                    self.resuming = false;
                    if boundary {
                        return Ok(Some(self.offset));
                    }
                },
                Decision::Pending { scan_end, .. } => {
                    return Err(GraphemeIncomplete::PreContext(scan_end));
                },
                Decision::Unknown => {
                    return Err(GraphemeIncomplete::InvalidOffset);
                },
            }
        } else if self.offset == 0 {
            return Ok(None);
        }
        match locate(&v, chunk_start, self.offset) {
            Some(i) => {
                self.walk_backward(&v, chunk_start, i)
            },
            None => Err(GraphemeIncomplete::InvalidOffset),
        }
    }
}

/// `chunk` is the part of the document `d` that begins at its scalar offset
/// `a`, which is byte offset `chunk_start`.
pub open spec fn piece_at(d: Seq<char>, chunk: Seq<char>, chunk_start: int, a: int) -> bool {
    &&& 0 <= a
    &&& a + chunk.len() <= d.len()
    &&& byte_offset(d, a) == chunk_start
    &&& d.subrange(a, a + chunk.len()) == chunk
}

/// What `decision` claims of the scalar offset `k` of `d` is true.
pub open spec fn fits(decision: Decision, d: Seq<char>, k: int, extended: bool) -> bool {
    match decision {
        Decision::Unknown => true,
        Decision::Known { boundary } => boundary == is_grapheme_boundary(d, k, extended),
        Decision::Pending { state, scan_end } => exists|j: int|
            0 <= j <= k && #[trigger] byte_offset(d, j) == scan_end && is_grapheme_boundary(
                d,
                k,
                extended,
            ) == lookback_finish(scan_back(state, d.take(j), extended)),
    }
}

/// Offsets and scalars inside a piece are those of the document.
pub proof fn lemma_piece_index(d: Seq<char>, chunk: Seq<char>, chunk_start: int, a: int, i: int)
    requires
        piece_at(d, chunk, chunk_start, a),
        0 <= i <= chunk.len(),
    ensures
        byte_offset(chunk, i) + chunk_start == byte_offset(d, a + i),
        chunk.take(i) == d.subrange(a, a + i),
        i < chunk.len() ==> chunk[i] == d[a + i],
{
    assert(d.take(a + i) =~= d.take(a) + chunk.take(i));
    lemma_utf8_len_concat(d.take(a), chunk.take(i));
    assert(chunk.take(i) =~= d.subrange(a, a + i));
}

/// A scalar offset found in a piece is the document's offset `a + i`.
pub proof fn lemma_index_in_piece(
    d: Seq<char>,
    chunk: Seq<char>,
    chunk_start: int,
    a: int,
    k: int,
    offset: int,
)
    requires
        piece_at(d, chunk, chunk_start, a),
        0 <= k <= d.len(),
        byte_offset(d, k) == offset,
    ensures
        scalar_index_in(chunk, chunk_start, offset) matches Some(i) ==> k == a + i && 0 <= i
            <= chunk.len(),
        a <= k <= a + chunk.len() ==> scalar_index_in(chunk, chunk_start, offset) == Some(k - a),
{
    if scalar_index_in(chunk, chunk_start, offset) is Some {
        let i = scalar_index_in(chunk, chunk_start, offset)->0;
        lemma_piece_index(d, chunk, chunk_start, a, i);
        lemma_byte_offset_injective(d, k, a + i);
    }
    if a <= k <= a + chunk.len() {
        lemma_piece_index(d, chunk, chunk_start, a, k - a);
        assert(byte_offset(chunk, k - a) + chunk_start == offset);
        let i = scalar_index_in(chunk, chunk_start, offset)->0;
        lemma_piece_index(d, chunk, chunk_start, a, i);
        lemma_byte_offset_injective(d, k, a + i);
    }
}

/// A backward read over `d[a..m]` that began at the candidate `k` leaves a
/// decision that is true of `k`.
pub proof fn lemma_settle_fits(
    d: Seq<char>,
    a: int,
    m: int,
    k: int,
    chunk_start: usize,
    st: Lookback,
    extended: bool,
)
    requires
        0 <= a <= m <= k <= d.len(),
        byte_offset(d, a) == chunk_start,
        is_grapheme_boundary(d, k, extended) == lookback_finish(scan_back(st, d.take(m), extended)),
    ensures
        fits(settle(scan_back(st, d.subrange(a, m), extended), chunk_start), d, k, extended),
{
    let st2 = scan_back(st, d.subrange(a, m), extended);
    assert(d.take(m) =~= d.take(a) + d.subrange(a, m));
    lemma_scan_back_concat(st, d.take(a), d.subrange(a, m), extended);
    match st2 {
        Lookback::Decided { boundary } => {
            lemma_scan_back_decided(boundary, d.take(a), extended);
        },
        _ => {
            if chunk_start == 0 {
                assert(d.take(0) =~= Seq::<char>::empty());
                lemma_byte_offset_injective(d, a, 0);
                assert(d.take(a) =~= Seq::<char>::empty());
            } else {
                assert(byte_offset(d, a) == chunk_start);
            }
        },
    }
}

/// Judging an offset from the scalar after it and the scalars before it in a
/// piece gives a decision that is true of it.
pub proof fn lemma_judge_fits(
    d: Seq<char>,
    chunk: Seq<char>,
    chunk_start: usize,
    a: int,
    i: int,
    extended: bool,
)
    requires
        piece_at(d, chunk, chunk_start as int, a),
        0 <= i < chunk.len(),
    ensures
        fits(
            settle(
                scan_back(Lookback::Start { after: ginfo(chunk[i]) }, chunk.take(i), extended),
                chunk_start,
            ),
            d,
            a + i,
            extended,
        ),
{
    lemma_piece_index(d, chunk, chunk_start as int, a, i);
    lemma_settle_fits(
        d,
        a,
        a + i,
        a + i,
        chunk_start,
        Lookback::Start { after: ginfo(d[a + i]) },
        extended,
    );
}

impl GraphemeCursor {
    /// The cursor lies at scalar offset `k` of the document `d`, whose length
    /// it holds, and what it knows of that offset is true of `d`.
    pub closed spec fn agrees_with(self, d: Seq<char>, k: int) -> bool {
        &&& self.wf()
        &&& utf8_len(d) == self.len
        &&& 0 <= k <= d.len()
        &&& byte_offset(d, k) == self.offset
        &&& fits(self.decision, d, k, self.is_extended)
    }

    /// Whatever the cursor knows of its offset stays true when it looks at a
    /// piece of the document.
    proof fn lemma_decided_at_fits(self, d: Seq<char>, k: int, chunk: Seq<char>, chunk_start: usize, a: int)
        requires
            self.agrees_with(d, k),
            piece_at(d, chunk, chunk_start as int, a),
        ensures
            fits(self.decided_at(chunk, chunk_start), d, k, self.is_extended),
    {
        if self.decision is Unknown {
            lemma_index_in_piece(d, chunk, chunk_start as int, a, k, self.offset as int);
            match scalar_index_in(chunk, chunk_start as int, self.offset as int) {
                Some(i) => {
                    if i < chunk.len() {
                        lemma_judge_fits(d, chunk, chunk_start, a, i, self.is_extended);
                    }
                },
                None => {},
            }
        }
    }
}

/// No scalar offset strictly between `k` and `k2` of `d` is a boundary, nor
/// `k` itself when `inclusive` holds.
pub open spec fn passed_forward(d: Seq<char>, k: int, k2: int, inclusive: bool, extended: bool) -> bool {
    &&& forall|p: int| k < p < k2 ==> !is_grapheme_boundary(d, p, extended)
    &&& (inclusive && k < k2 ==> !is_grapheme_boundary(d, k, extended))
}

/// No scalar offset strictly between `k2` and `k` of `d` is a boundary, nor
/// `k` itself when `inclusive` holds.
pub open spec fn passed_backward(d: Seq<char>, k: int, k2: int, inclusive: bool, extended: bool) -> bool {
    &&& forall|p: int| k2 < p < k ==> !is_grapheme_boundary(d, p, extended)
    &&& (inclusive && k2 < k ==> !is_grapheme_boundary(d, k, extended))
}

impl GraphemeCursor {
    proof fn lemma_step_forward_agrees(
        self,
        d: Seq<char>,
        chunk: Seq<char>,
        chunk_start: usize,
        a: int,
        i: int,
    )
        requires
            self.agrees_with(d, a + i),
            !self.resuming,
            piece_at(d, chunk, chunk_start as int, a),
            0 <= i <= chunk.len(),
        ensures
            ({
                let (c2, r) = self.step_forward(chunk, chunk_start, i);
                exists|k2: int|
                    #![trigger c2.agrees_with(d, k2)]
                    c2.agrees_with(d, k2) && a + i <= k2 && passed_forward(
                        d,
                        a + i,
                        k2,
                        false,
                        self.is_extended,
                    ) && (r matches Ok(x) ==> x == Some(c2.offset) && a + i < k2
                        && is_grapheme_boundary(d, k2, self.is_extended))
            }),
        decreases chunk.len() - i,
    {
        let (c2, r) = self.step_forward(chunk, chunk_start, i);
        let k = a + i;
        if i >= chunk.len() {
            assert(c2.agrees_with(d, k));
        } else {
            lemma_piece_index(d, chunk, chunk_start as int, a, i);
            lemma_piece_index(d, chunk, chunk_start as int, a, i + 1);
            lemma_byte_offset_step(d, k);
            lemma_byte_offset_mono(d, k + 1, d.len() as int);
            lemma_byte_offset_full(d);
            let next = self.offset + utf8_width(chunk[i]);
            assert(next == byte_offset(d, k + 1));
            let dec = if next == self.len {
                Decision::Known { boundary: true }
            } else if i + 1 < chunk.len() {
                settle(
                    scan_back(
                        Lookback::Start { after: ginfo(chunk[i + 1]) },
                        chunk.take(i + 1),
                        self.is_extended,
                    ),
                    chunk_start,
                )
            } else {
                Decision::Unknown
            };
            if next == self.len {
                lemma_byte_offset_injective(d, k + 1, d.len() as int);
            } else if i + 1 < chunk.len() {
                lemma_judge_fits(d, chunk, chunk_start, a, i + 1, self.is_extended);
            }
            let moved = GraphemeCursor {
                offset: next as usize,
                resuming: true,
                decision: dec,
                ..self
            };
            assert(moved.agrees_with(d, k + 1));
            match dec {
                Decision::Known { boundary } => {
                    let rested = GraphemeCursor { resuming: false, ..moved };
                    assert(rested.agrees_with(d, k + 1));
                    if !boundary {
                        rested.lemma_step_forward_agrees(d, chunk, chunk_start, a, i + 1);
                    }
                },
                _ => {},
            }
        }
    }

    proof fn lemma_step_backward_agrees(
        self,
        d: Seq<char>,
        chunk: Seq<char>,
        chunk_start: usize,
        a: int,
        i: int,
    )
        requires
            self.agrees_with(d, a + i),
            !self.resuming,
            piece_at(d, chunk, chunk_start as int, a),
            0 <= i <= chunk.len(),
        ensures
            ({
                let (c2, r) = self.step_backward(chunk, chunk_start, i);
                exists|k2: int|
                    #![trigger c2.agrees_with(d, k2)]
                    c2.agrees_with(d, k2) && k2 <= a + i && passed_backward(
                        d,
                        a + i,
                        k2,
                        false,
                        self.is_extended,
                    ) && (r matches Ok(x) ==> x == Some(c2.offset) && k2 < a + i
                        && is_grapheme_boundary(d, k2, self.is_extended))
            }),
        decreases i,
    {
        let (c2, r) = self.step_backward(chunk, chunk_start, i);
        let k = a + i;
        if i <= 0 {
            assert(c2.agrees_with(d, k));
        } else {
            lemma_piece_index(d, chunk, chunk_start as int, a, i);
            lemma_piece_index(d, chunk, chunk_start as int, a, i - 1);
            lemma_byte_offset_step(d, k - 1);
            let prev = self.offset - utf8_width(chunk[i - 1]);
            assert(prev == byte_offset(d, k - 1));
            let dec = settle(
                scan_back(
                    Lookback::Start { after: ginfo(chunk[i - 1]) },
                    chunk.take(i - 1),
                    self.is_extended,
                ),
                chunk_start,
            );
            lemma_judge_fits(d, chunk, chunk_start, a, i - 1, self.is_extended);
            if prev == 0 {
                assert(d.take(0) =~= Seq::<char>::empty());
                lemma_byte_offset_injective(d, k - 1, 0);
                lemma_byte_offset_injective(d, a, 0);
                assert(chunk.take(0) =~= Seq::<char>::empty());
            }
            lemma_byte_offset_mono(d, k - 1, k);
            let moved = GraphemeCursor { offset: prev as usize, resuming: true, decision: dec, ..self };
            assert(moved.agrees_with(d, k - 1));
            match dec {
                Decision::Known { boundary } => {
                    let rested = GraphemeCursor { resuming: false, ..moved };
                    assert(rested.agrees_with(d, k - 1));
                    if !boundary {
                        rested.lemma_step_backward_agrees(d, chunk, chunk_start, a, i - 1);
                    }
                },
                _ => {},
            }
        }
    }
}

/// A cursor created at a scalar offset of a document agrees with it.
pub proof fn law_fresh_agrees(d: Seq<char>, k: int, extended: bool)
    requires
        0 <= k <= d.len(),
        utf8_len(d) <= usize::MAX,
    ensures
        GraphemeCursor::fresh(byte_offset(d, k) as usize, utf8_len(d) as usize, extended).agrees_with(
            d,
            k,
        ),
{
    lemma_byte_offset_mono(d, k, d.len() as int);
    lemma_byte_offset_full(d);
    assert(d.take(0) =~= Seq::<char>::empty());
    if byte_offset(d, k) == 0 {
        lemma_byte_offset_injective(d, k, 0);
    }
    if byte_offset(d, k) == utf8_len(d) {
        lemma_byte_offset_injective(d, k, d.len() as int);
    }
}

/// `is_boundary` never answers wrongly: given any piece of a document the
/// cursor agrees with, an answer is the offset's boundary status in that
/// document, and the cursor keeps agreeing with it.
pub proof fn law_is_boundary_agrees(
    c: GraphemeCursor,
    d: Seq<char>,
    k: int,
    chunk: Seq<char>,
    chunk_start: usize,
    a: int,
)
    requires
        c.agrees_with(d, k),
        piece_at(d, chunk, chunk_start as int, a),
    ensures
        c.is_boundary_spec(chunk, chunk_start).0.agrees_with(d, k),
        c.is_boundary_spec(chunk, chunk_start).1 matches Ok(b) ==> b == is_grapheme_boundary(
            d,
            k,
            c.extended(),
        ),
{
    c.lemma_decided_at_fits(d, k, chunk, chunk_start, a);
}

/// Supplying the text that a pending decision asked for, taken from a
/// document the cursor agrees with, keeps it in agreement.
pub proof fn law_provide_context_agrees(
    c: GraphemeCursor,
    d: Seq<char>,
    k: int,
    chunk: Seq<char>,
    chunk_start: usize,
    a: int,
)
    requires
        c.agrees_with(d, k),
        c.decision_of() is Pending,
        chunk_start + utf8_len(chunk) == c.decision_of()->scan_end,
        piece_at(d, chunk, chunk_start as int, a),
    ensures
        c.provide_context_spec(chunk, chunk_start).agrees_with(d, k),
{
    if let Decision::Pending { state, scan_end } = c.decision {
        let j = choose|j: int|
            0 <= j <= k && #[trigger] byte_offset(d, j) == scan_end && is_grapheme_boundary(
                d,
                k,
                c.is_extended,
            ) == lookback_finish(scan_back(state, d.take(j), c.is_extended));
        lemma_piece_index(d, chunk, chunk_start as int, a, chunk.len() as int);
        lemma_byte_offset_full(chunk);
        lemma_byte_offset_injective(d, j, a + chunk.len());
        assert(chunk == d.subrange(a, j));
        lemma_settle_fits(d, a, j, k, chunk_start, state, c.is_extended);
    }
}

/// `next_boundary` never answers wrongly: given any piece of a document the
/// cursor agrees with, the cursor moves forward to a scalar offset `k2` it
/// still agrees with, passing no boundary (nor, when it was resuming, its
/// own offset unless it reports it); a reported boundary is `k2`, after the
/// offset unless the cursor was resuming, and `Ok(None)` comes only at the
/// document's end.
pub proof fn law_next_boundary_agrees(
    c: GraphemeCursor,
    d: Seq<char>,
    k: int,
    chunk: Seq<char>,
    chunk_start: usize,
    a: int,
)
    requires
        c.agrees_with(d, k),
        piece_at(d, chunk, chunk_start as int, a),
    ensures
        ({
            let (c2, r) = c.next_boundary_spec(chunk, chunk_start);
            &&& exists|k2: int|
                #![trigger c2.agrees_with(d, k2)]
                c2.agrees_with(d, k2) && k <= k2 && passed_forward(
                    d,
                    k,
                    k2,
                    c.is_resuming(),
                    c.extended(),
                ) && (r matches Ok(Some(b)) ==> b == c2.offset_of() && (k < k2 || c.is_resuming())
                    && is_grapheme_boundary(d, k2, c.extended()))
            &&& r matches Ok(None) ==> k == d.len()
        }),
{
    let (c2, r) = c.next_boundary_spec(chunk, chunk_start);
    lemma_byte_offset_full(d);
    if c.resuming {
        c.lemma_decided_at_fits(d, k, chunk, chunk_start, a);
        let dec = c.decided_at(chunk, chunk_start);
        let judged = GraphemeCursor { decision: dec, ..c };
        assert(judged.agrees_with(d, k));
        if let Decision::Known { boundary } = dec {
            let rested = GraphemeCursor { resuming: false, ..judged };
            assert(rested.agrees_with(d, k));
            if !boundary {
                lemma_index_in_piece(d, chunk, chunk_start as int, a, k, c.offset as int);
                if let Some(i) = scalar_index_in(chunk, chunk_start as int, c.offset as int) {
                    rested.lemma_step_forward_agrees(d, chunk, chunk_start, a, i);
                }
            }
        }
    } else if c.offset == c.len {
        lemma_byte_offset_injective(d, k, d.len() as int);
    } else {
        lemma_index_in_piece(d, chunk, chunk_start as int, a, k, c.offset as int);
        if let Some(i) = scalar_index_in(chunk, chunk_start as int, c.offset as int) {
            c.lemma_step_forward_agrees(d, chunk, chunk_start, a, i);
        }
    }
}

/// `prev_boundary` never answers wrongly: the mirror image of
/// `law_next_boundary_agrees`, with `Ok(None)` only at the document's start.
pub proof fn law_prev_boundary_agrees(
    c: GraphemeCursor,
    d: Seq<char>,
    k: int,
    chunk: Seq<char>,
    chunk_start: usize,
    a: int,
)
    requires
        c.agrees_with(d, k),
        piece_at(d, chunk, chunk_start as int, a),
    ensures
        ({
            let (c2, r) = c.prev_boundary_spec(chunk, chunk_start);
            &&& exists|k2: int|
                #![trigger c2.agrees_with(d, k2)]
                c2.agrees_with(d, k2) && k2 <= k && passed_backward(
                    d,
                    k,
                    k2,
                    c.is_resuming(),
                    c.extended(),
                ) && (r matches Ok(Some(b)) ==> b == c2.offset_of() && (k2 < k || c.is_resuming())
                    && is_grapheme_boundary(d, k2, c.extended()))
            &&& r matches Ok(None) ==> k == 0
        }),
{
    let (c2, r) = c.prev_boundary_spec(chunk, chunk_start);
    assert(d.take(0) =~= Seq::<char>::empty());
    if c.resuming {
        c.lemma_decided_at_fits(d, k, chunk, chunk_start, a);
        let dec = c.decided_at(chunk, chunk_start);
        let judged = GraphemeCursor { decision: dec, ..c };
        assert(judged.agrees_with(d, k));
        if let Decision::Known { boundary } = dec {
            let rested = GraphemeCursor { resuming: false, ..judged };
            assert(rested.agrees_with(d, k));
            if !boundary {
                lemma_index_in_piece(d, chunk, chunk_start as int, a, k, c.offset as int);
                if let Some(i) = scalar_index_in(chunk, chunk_start as int, c.offset as int) {
                    rested.lemma_step_backward_agrees(d, chunk, chunk_start, a, i);
                }
            }
        }
    } else if c.offset == 0 {
        lemma_byte_offset_injective(d, k, 0);
    } else {
        lemma_index_in_piece(d, chunk, chunk_start as int, a, k, c.offset as int);
        if let Some(i) = scalar_index_in(chunk, chunk_start as int, c.offset as int) {
            c.lemma_step_backward_agrees(d, chunk, chunk_start, a, i);
        }
    }
}

impl GraphemeCursor {
    proof fn lemma_step_forward_whole(self, d: Seq<char>, i: int)
        requires
            self.agrees_with(d, i),
            !self.resuming,
            0 <= i < d.len(),
        ensures
            self.step_forward(d, 0, i).1 is Ok,
        decreases d.len() - i,
    {
        assert(d.subrange(0, d.len() as int) =~= d);
        lemma_byte_offset_step(d, i);
        lemma_byte_offset_mono(d, i + 1, d.len() as int);
        lemma_byte_offset_full(d);
        let next = self.offset + utf8_width(d[i]);
        if next != self.len {
            assert(i + 1 < d.len());
            lemma_judge_fits(d, d, 0, 0, i + 1, self.is_extended);
            let dec = settle(
                scan_back(Lookback::Start { after: ginfo(d[i + 1]) }, d.take(i + 1), self.is_extended),
                0,
            );
            let rested = GraphemeCursor {
                offset: next as usize,
                resuming: false,
                decision: dec,
                ..self
            };
            if dec == (Decision::Known { boundary: false }) {
                assert(rested.agrees_with(d, i + 1));
                rested.lemma_step_forward_whole(d, i + 1);
            }
        }
    }

    proof fn lemma_step_backward_whole(self, d: Seq<char>, i: int)
        requires
            self.agrees_with(d, i),
            !self.resuming,
            0 < i <= d.len(),
        ensures
            self.step_backward(d, 0, i).1 is Ok,
        decreases i,
    {
        assert(d.subrange(0, d.len() as int) =~= d);
        lemma_byte_offset_step(d, i - 1);
        lemma_judge_fits(d, d, 0, 0, i - 1, self.is_extended);
        let dec = settle(
            scan_back(Lookback::Start { after: ginfo(d[i - 1]) }, d.take(i - 1), self.is_extended),
            0,
        );
        let prev = self.offset - utf8_width(d[i - 1]);
        let rested = GraphemeCursor { offset: prev as usize, resuming: false, decision: dec, ..self };
        if dec == (Decision::Known { boundary: false }) {
            if i - 1 == 0 {
                assert(d.take(0) =~= Seq::<char>::empty());
            }
            lemma_byte_offset_mono(d, i - 1, i);
            assert(rested.agrees_with(d, i - 1));
            rested.lemma_step_backward_whole(d, i - 1);
        }
    }
}

/// Given the whole document as one chunk at byte 0, a cursor that waits for
/// no earlier text answers every query without asking for more.
pub proof fn law_whole_text_answers(c: GraphemeCursor, d: Seq<char>, k: int)
    requires
        c.agrees_with(d, k),
        !(c.decision_of() is Pending),
    ensures
        c.is_boundary_spec(d, 0).1 is Ok,
        c.next_boundary_spec(d, 0).1 is Ok,
        c.prev_boundary_spec(d, 0).1 is Ok,
{
    assert(d.subrange(0, d.len() as int) =~= d);
    assert(d.take(0) =~= Seq::<char>::empty());
    lemma_byte_offset_full(d);
    assert(piece_at(d, d, 0, 0));
    lemma_index_in_piece(d, d, 0, 0, k, c.offset as int);
    if c.offset == c.len {
        lemma_byte_offset_injective(d, k, d.len() as int);
    }
    if c.offset == 0 {
        lemma_byte_offset_injective(d, k, 0);
    }
    if k < d.len() {
        lemma_judge_fits(d, d, 0, 0, k, c.is_extended);
    }
    let dec = c.decided_at(d, 0);
    c.lemma_decided_at_fits(d, k, d, 0, 0);
    if c.resuming {
        let rested = GraphemeCursor { resuming: false, ..GraphemeCursor { decision: dec, ..c } };
        if dec == (Decision::Known { boundary: false }) {
            assert(rested.agrees_with(d, k));
            rested.lemma_step_forward_whole(d, k);
            rested.lemma_step_backward_whole(d, k);
        }
    } else {
        if c.offset != c.len {
            c.lemma_step_forward_whole(d, k);
        }
        if c.offset != 0 {
            c.lemma_step_backward_whole(d, k);
        }
    }
}

/// Context supplied as one chunk or as two adjacent chunks, the later one
/// first, leaves the same cursor: while the decision still waits after the
/// later chunk the earlier one completes it, and once it no longer waits the
/// earlier chunk is not needed.
pub proof fn law_context_pieces_compose(
    c: GraphemeCursor,
    x: Seq<char>,
    y: Seq<char>,
    chunk_start: usize,
)
    requires
        c.decision_of() is Pending,
        chunk_start + utf8_len(x + y) == c.decision_of()->scan_end,
    ensures
        ({
            let c1 = c.provide_context_spec(y, (chunk_start + utf8_len(x)) as usize);
            &&& c1.decision_of() is Pending ==> c1.provide_context_spec(x, chunk_start)
                == c.provide_context_spec(x + y, chunk_start)
            &&& !(c1.decision_of() is Pending) ==> c1 == c.provide_context_spec(x + y, chunk_start)
        }),
{
    if let Decision::Pending { state, .. } = c.decision {
        lemma_scan_back_concat(state, x, y, c.is_extended);
        lemma_utf8_len_concat(x, y);
        let st = scan_back(state, y, c.is_extended);
        if let Lookback::Decided { boundary } = st {
            lemma_scan_back_decided(boundary, x, c.is_extended);
        } else if chunk_start + utf8_len(x) == 0 {
            lemma_utf8_len_ge(x);
            assert(x + y =~= y);
            assert(x =~= Seq::<char>::empty());
        }
    }
}

/// A boundary that `next_boundary` reports from a cursor at rest is the end
/// of the cluster that `GraphemeIndices::next` takes at that offset.
pub proof fn law_next_boundary_matches_clusters(
    c: GraphemeCursor,
    d: Seq<char>,
    k: int,
    chunk: Seq<char>,
    chunk_start: usize,
    a: int,
)
    requires
        c.agrees_with(d, k),
        !c.is_resuming(),
        piece_at(d, chunk, chunk_start as int, a),
    ensures
        c.next_boundary_spec(chunk, chunk_start).1 matches Ok(Some(b)) ==> k < d.len() && b
            == byte_offset(d, next_boundary_index(d, k, c.extended())),
{
    law_next_boundary_agrees(c, d, k, chunk, chunk_start, a);
    let (c2, r) = c.next_boundary_spec(chunk, chunk_start);
    if r matches Ok(Some(b)) {
        let k2 = choose|k2: int|
            #![trigger c2.agrees_with(d, k2)]
            c2.agrees_with(d, k2) && k <= k2 && passed_forward(
                d,
                k,
                k2,
                c.is_resuming(),
                c.extended(),
            ) && (r matches Ok(Some(b)) ==> b == c2.offset_of() && (k < k2 || c.is_resuming())
                && is_grapheme_boundary(d, k2, c.extended()));
        lemma_next_boundary_index(d, k, c.is_extended);
        let j = next_boundary_index(d, k, c.is_extended);
        if j < k2 {
            assert(!is_grapheme_boundary(d, j, c.is_extended));
        } else if k2 < j {
            assert(!is_grapheme_boundary(d, k2, c.is_extended));
        }
    }
}

/// A boundary that `prev_boundary` reports from a cursor at rest is the
/// start of the cluster that `GraphemeIndices::next_back` takes at that
/// offset.
pub proof fn law_prev_boundary_matches_clusters(
    c: GraphemeCursor,
    d: Seq<char>,
    k: int,
    chunk: Seq<char>,
    chunk_start: usize,
    a: int,
)
    requires
        c.agrees_with(d, k),
        !c.is_resuming(),
        piece_at(d, chunk, chunk_start as int, a),
    ensures
        c.prev_boundary_spec(chunk, chunk_start).1 matches Ok(Some(b)) ==> 0 < k && b
            == byte_offset(d, prev_boundary_index(d, k, c.extended())),
{
    law_prev_boundary_agrees(c, d, k, chunk, chunk_start, a);
    let (c2, r) = c.prev_boundary_spec(chunk, chunk_start);
    if r matches Ok(Some(b)) {
        let k2 = choose|k2: int|
            #![trigger c2.agrees_with(d, k2)]
            c2.agrees_with(d, k2) && k2 <= k && passed_backward(
                d,
                k,
                k2,
                c.is_resuming(),
                c.extended(),
            ) && (r matches Ok(Some(b)) ==> b == c2.offset_of() && (k2 < k || c.is_resuming())
                && is_grapheme_boundary(d, k2, c.extended()));
        lemma_prev_boundary_index(d, k, c.is_extended);
        let j = prev_boundary_index(d, k, c.is_extended);
        if j < k2 {
            assert(!is_grapheme_boundary(d, k2, c.is_extended));
        } else if k2 < j {
            assert(!is_grapheme_boundary(d, j, c.is_extended));
        }
    }
}

} // verus!
