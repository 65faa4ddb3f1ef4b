//! A fixed-size cursor over Unicode word boundaries in non-contiguous UTF-8
//! chunks, with typed chunk requests and typed contract violations.

use crate::utf8_len::{
    byte_offset, lemma_byte_offset_full, lemma_byte_offset_injective, lemma_byte_offset_mono,
    lemma_str_len,
    lemma_utf8_len_concat, lemma_utf8_len_ge, str_len, utf8_len,
};
use crate::word_cursor_forward::{
    forward_finish, forward_init, forward_ordered, forward_scan, forward_shifted, is_scalar_offset,
    lemma_forward_scan_shift,
    lemma_forward_scan_bounds, lemma_forward_scan_concat, lemma_forward_scan_scalar_offsets,
    ForwardState,
};
use crate::word_cursor_reverse::{
    lemma_reverse_finish_bounds, lemma_reverse_finish_scalar_offset, lemma_reverse_scan_bounds,
    lemma_reverse_scan_concat, lemma_reverse_scan_scalar_offsets, reverse_finish, reverse_init, reverse_ordered, reverse_scan, ReverseState,
};
use vstd::prelude::*;

verus! {

/// The result of a streaming word-boundary traversal step.
#[derive(Clone, Copy, Debug, PartialEq, Eq, Structural)]
pub enum WordCursorResult {
    /// The next boundary in the requested direction, as a global byte offset.
    Boundary(usize),
    /// Forward traversal needs a chunk beginning at this exact byte offset.
    NextChunk(usize),
    /// Reverse traversal needs a chunk ending at this exact byte offset.
    PrevChunk(usize),
    /// Arbitrary-offset forward traversal needs context ending at this exact byte offset.
    PreContext(usize),
    /// Arbitrary-offset reverse traversal needs context beginning at this exact byte offset.
    PostContext(usize),
    /// There is no further boundary in the requested direction.
    End,
}

/// A violated [`WordCursor`] input contract.
#[derive(Clone, Copy, Debug, PartialEq, Eq, Structural)]
pub enum WordCursorError {
    /// The cursor offset is greater than the document length.
    InvalidOffset,
    /// The supplied chunk is empty before the requested document edge.
    EmptyChunk,
    /// The chunk's global byte range exceeds the document length or overflows `usize`.
    ChunkOutOfBounds,
    /// The chunk starts or ends after the exact requested offset.
    Gap {
        /// The exact offset requested by the cursor.
        expected: usize,
        /// The offset supplied by the caller.
        actual: usize,
    },
    /// The chunk starts or ends before the exact requested offset.
    Overlap {
        /// The exact offset requested by the cursor.
        expected: usize,
        /// The offset supplied by the caller.
        actual: usize,
    },
    /// Traversal direction changed while a boundary query was incomplete.
    WrongDirection,
}

/// A traversal direction.
#[derive(Clone, Copy, Debug, PartialEq, Eq, Structural)]
pub enum Direction {
    Forward,
    Reverse,
}

/// Where a cursor stands in a boundary query.
#[derive(Clone, Copy, Debug, PartialEq, Eq, Structural)]
pub enum CursorState {
    Idle,
    ForwardPreContext { origin: usize },
    ForwardReplay { origin: usize },
    ForwardSearch,
    ReversePostContext { origin: usize },
    ReverseReplay { origin: usize },
    ReverseSearch,
}

/// The direction of the query that `state` is in the middle of, if any.
pub open spec fn direction_of(state: CursorState) -> Option<Direction> {
    match state {
        CursorState::Idle => None,
        CursorState::ForwardPreContext { .. } | CursorState::ForwardReplay { .. }
        | CursorState::ForwardSearch => Some(Direction::Forward),
        CursorState::ReversePostContext { .. } | CursorState::ReverseReplay { .. }
        | CursorState::ReverseSearch => Some(Direction::Reverse),
    }
}

impl CursorState {
    /// The direction of the query that this state is in the middle of, if any.
    pub fn direction(self) -> (r: Option<Direction>)
        ensures
            r == direction_of(self),
    {
        match self {
            CursorState::Idle => None,
            CursorState::ForwardPreContext { .. } | CursorState::ForwardReplay { .. }
            | CursorState::ForwardSearch => Some(Direction::Forward),
            CursorState::ReversePostContext { .. } | CursorState::ReverseReplay { .. }
            | CursorState::ReverseSearch => Some(Direction::Reverse),
        }
    }
}

/// The violation, if any, in supplying a forward chunk of `chunk_len` bytes
/// at `chunk_start` to a cursor at `offset` in a document of `len` bytes: the
/// chunk must lie in the document, begin exactly at `offset`, and be
/// non-empty unless `offset` is the document end.
pub open spec fn forward_chunk_error(offset: usize, len: usize, chunk_len: nat, chunk_start: usize) -> Option<
    WordCursorError,
> {
    if chunk_start + chunk_len > len {
        Some(WordCursorError::ChunkOutOfBounds)
    } else if chunk_start < offset {
        Some(WordCursorError::Overlap { expected: offset, actual: chunk_start })
    } else if chunk_start > offset {
        Some(WordCursorError::Gap { expected: offset, actual: chunk_start })
    } else if chunk_len == 0 && offset < len {
        Some(WordCursorError::EmptyChunk)
    } else {
        None
    }
}

/// The violation, if any, in supplying a reverse chunk of `chunk_len` bytes
/// at `chunk_start` to a cursor at `offset` in a document of `len` bytes: the
/// chunk must lie in the document, end exactly at `offset`, and be non-empty
/// unless `offset` is the document start.
pub open spec fn reverse_chunk_error(offset: usize, len: usize, chunk_len: nat, chunk_start: usize) -> Option<
    WordCursorError,
> {
    let chunk_end = chunk_start + chunk_len;
    if chunk_end > len {
        Some(WordCursorError::ChunkOutOfBounds)
    } else if chunk_end < offset {
        Some(WordCursorError::Gap { expected: offset, actual: chunk_end as usize })
    } else if chunk_end > offset {
        Some(WordCursorError::Overlap { expected: offset, actual: chunk_end as usize })
    } else if chunk_len == 0 && offset > 0 {
        Some(WordCursorError::EmptyChunk)
    } else {
        None
    }
}

/// `Err(e)` for a violation `e`, else `Ok(())`.
pub open spec fn as_check(e: Option<WordCursorError>) -> Result<(), WordCursorError> {
    match e {
        Some(e) => Err(e),
        None => Ok(()),
    }
}

/// A fixed-size cursor over Unicode word boundaries in non-contiguous UTF-8 chunks.
///
/// Chunks are borrowed only for the duration of a method call and are never retained. A forward
/// chunk must begin at the cursor's requested offset; a reverse chunk must end there. When a
/// boundary is returned, traversal state resets and the caller starts the next query at that
/// boundary. A boundary query may inspect beyond the boundary it eventually returns, so a caller
/// must be prepared to re-supply source bytes for the next query.
///
/// A cursor created or reset at an arbitrary scalar offset first requests bounded context. Forward
/// traversal requests preceding chunks back to document start and then replays chunks forward;
/// reverse traversal requests following chunks to document end and then replays chunks backward.
/// This establishes exact UAX #29 state without retaining source text or guessing at a chunk edge.
#[derive(Clone, Debug)]
pub struct WordCursor {
    offset: usize,
    len: usize,
    state: CursorState,
    known_boundary: bool,
    forward: ForwardState,
    reverse: ReverseState,
}

impl WordCursor {
    /// The cursor's global byte offset.
    pub closed spec fn offset_of(self) -> usize {
        self.offset
    }

    /// The document length the cursor was created with.
    pub closed spec fn doc_len(self) -> usize {
        self.len
    }

    /// The stage of the query the cursor is in.
    pub closed spec fn state_of(self) -> CursorState {
        self.state
    }

    /// Whether the cursor's offset is known to be a word boundary.
    pub closed spec fn at_known_boundary(self) -> bool {
        self.known_boundary
    }

    /// Whether the forward search state is that of a segment beginning at
    /// the cursor's offset.
    pub closed spec fn forward_at_segment_start(self) -> bool {
        self.forward == forward_init(self.offset)
    }

    /// Whether the reverse search state is that of a segment ending at the
    /// cursor's offset.
    pub closed spec fn reverse_at_segment_end(self) -> bool {
        self.reverse == reverse_init(self.offset)
    }

    /// The cursor's well-formedness: its offset lies in the document, a cursor
    /// at an unknown boundary lies strictly inside it, a query's origin lies
    /// where it was taken, and a search state keeps its offsets ordered
    /// around the cursor.
    pub closed spec fn wf(self) -> bool {
        &&& self.offset <= self.len
        &&& match self.state {
            CursorState::Idle => {
                &&& self.forward == forward_init(self.offset)
                &&& self.reverse == reverse_init(self.offset)
                &&& (!self.known_boundary ==> 0 < self.offset < self.len)
            },
            CursorState::ForwardPreContext { origin } => 0 < self.offset <= origin < self.len,
            CursorState::ForwardReplay { origin } => origin < self.len && forward_ordered(
                self.forward,
                self.offset as int,
            ),
            CursorState::ForwardSearch => forward_ordered(self.forward, self.offset as int),
            CursorState::ReversePostContext { origin } => 0 < origin <= self.offset < self.len,
            CursorState::ReverseReplay { origin } => 0 < origin && reverse_ordered(
                self.reverse,
                self.offset as int,
                self.len as int,
            ),
            CursorState::ReverseSearch => reverse_ordered(
                self.reverse,
                self.offset as int,
                self.len as int,
            ),
        }
    }

    /// A cursor at rest at `offset` in a document of `len` bytes, with no
    /// query under way.
    pub closed spec fn fresh(offset: usize, len: usize, known_boundary: bool) -> WordCursor {
        WordCursor {
            offset,
            len,
            state: CursorState::Idle,
            known_boundary,
            forward: forward_init(offset),
            reverse: reverse_init(offset),
        }
    }

    /// The cursor after it reported the boundary `boundary`.
    pub closed spec fn finished(self, boundary: usize) -> WordCursor {
        WordCursor::fresh(boundary, self.len, true)
    }

    /// A forward boundary candidate `boundary`: while replaying toward
    /// `origin`, a boundary at or before it restarts the search there and
    /// asks for the chunk that begins at it; otherwise it is reported.
    pub closed spec fn forward_settle(self, replay: Option<usize>, boundary: usize) -> (
        WordCursor,
        WordCursorResult,
    ) {
        if replay matches Some(origin) && boundary <= origin {
            (
                WordCursor { forward: forward_init(boundary), offset: boundary, ..self },
                WordCursorResult::NextChunk(boundary),
            )
        } else {
            (self.finished(boundary), WordCursorResult::Boundary(boundary))
        }
    }

    /// The search part of a forward query over a validated `chunk` that
    /// begins at `chunk_start`.
    pub closed spec fn forward_search(self, chunk: Seq<char>, chunk_start: usize) -> (
        WordCursor,
        WordCursorResult,
    ) {
        let replay = match self.state {
            CursorState::ForwardReplay { origin } => Some(origin),
            _ => None,
        };
        let scanned = forward_scan(self.forward, chunk, chunk_start as int);
        match scanned.1 {
            Some(boundary) => WordCursor { forward: scanned.0, ..self }.forward_settle(
                replay,
                boundary,
            ),
            None => {
                let end = (chunk_start + utf8_len(chunk)) as usize;
                let advanced = WordCursor { forward: scanned.0, offset: end, ..self };
                if end == self.len {
                    advanced.forward_settle(replay, forward_finish(scanned.0, self.len))
                } else {
                    (advanced, WordCursorResult::NextChunk(end))
                }
            },
        }
    }

    /// What `next_boundary(chunk, chunk_start)` does: the cursor afterwards
    /// and the result.
    pub closed spec fn next_boundary_spec(self, chunk: Seq<char>, chunk_start: usize) -> (
        WordCursor,
        Result<WordCursorResult, WordCursorError>,
    ) {
        let forward_error = forward_chunk_error(self.offset, self.len, utf8_len(chunk), chunk_start);
        let reverse_error = reverse_chunk_error(self.offset, self.len, utf8_len(chunk), chunk_start);
        if direction_of(self.state) == Some(Direction::Reverse) {
            (self, Err(WordCursorError::WrongDirection))
        } else {
            match self.state {
                CursorState::ForwardPreContext { origin } => {
                    if reverse_error is Some {
                        (self, Err(reverse_error->0))
                    } else if chunk_start == 0 {
                        (
                            WordCursor {
                                offset: 0,
                                forward: forward_init(0),
                                state: CursorState::ForwardReplay { origin },
                                ..self
                            },
                            Ok(WordCursorResult::NextChunk(0)),
                        )
                    } else {
                        (
                            WordCursor { offset: chunk_start, ..self },
                            Ok(WordCursorResult::PreContext(chunk_start)),
                        )
                    }
                },
                CursorState::Idle => {
                    if forward_error is Some {
                        (self, Err(forward_error->0))
                    } else if self.offset == self.len {
                        (self, Ok(WordCursorResult::End))
                    } else if !self.known_boundary {
                        (
                            WordCursor {
                                state: CursorState::ForwardPreContext { origin: self.offset },
                                ..self
                            },
                            Ok(WordCursorResult::PreContext(self.offset)),
                        )
                    } else {
                        let searched = WordCursor { state: CursorState::ForwardSearch, ..self }.forward_search(
                            chunk,
                            chunk_start,
                        );
                        (searched.0, Ok(searched.1))
                    }
                },
                _ => {
                    if forward_error is Some {
                        (self, Err(forward_error->0))
                    } else {
                        let searched = self.forward_search(chunk, chunk_start);
                        (searched.0, Ok(searched.1))
                    }
                },
            }
        }
    }

    /// A reverse boundary candidate `boundary`: while replaying toward
    /// `origin`, a boundary at or after it restarts the search there and asks
    /// for the chunk that ends at it; otherwise it is reported.
    pub closed spec fn reverse_settle(self, replay: Option<usize>, boundary: usize) -> (
        WordCursor,
        WordCursorResult,
    ) {
        if replay matches Some(origin) && boundary >= origin {
            (
                WordCursor { reverse: reverse_init(boundary), offset: boundary, ..self },
                WordCursorResult::PrevChunk(boundary),
            )
        } else {
            (self.finished(boundary), WordCursorResult::Boundary(boundary))
        }
    }

    /// The search part of a reverse query over a validated `chunk` that
    /// begins at `chunk_start` (and ends at the cursor).
    pub closed spec fn reverse_search(self, chunk: Seq<char>, chunk_start: usize) -> (
        WordCursor,
        WordCursorResult,
    ) {
        let replay = match self.state {
            CursorState::ReverseReplay { origin } => Some(origin),
            _ => None,
        };
        let scanned = reverse_scan(self.reverse, chunk, chunk_start + utf8_len(chunk));
        match scanned.1 {
            Some(boundary) => WordCursor { reverse: scanned.0, ..self }.reverse_settle(
                replay,
                boundary,
            ),
            None => {
                let advanced = WordCursor { reverse: scanned.0, offset: chunk_start, ..self };
                if chunk_start == 0 {
                    advanced.reverse_settle(replay, reverse_finish(scanned.0))
                } else {
                    (advanced, WordCursorResult::PrevChunk(chunk_start))
                }
            },
        }
    }

    /// What `prev_boundary(chunk, chunk_start)` does: the cursor afterwards
    /// and the result.
    pub closed spec fn prev_boundary_spec(self, chunk: Seq<char>, chunk_start: usize) -> (
        WordCursor,
        Result<WordCursorResult, WordCursorError>,
    ) {
        let forward_error = forward_chunk_error(self.offset, self.len, utf8_len(chunk), chunk_start);
        let reverse_error = reverse_chunk_error(self.offset, self.len, utf8_len(chunk), chunk_start);
        if direction_of(self.state) == Some(Direction::Forward) {
            (self, Err(WordCursorError::WrongDirection))
        } else {
            match self.state {
                CursorState::ReversePostContext { origin } => {
                    if forward_error is Some {
                        (self, Err(forward_error->0))
                    } else {
                        let end = (chunk_start + utf8_len(chunk)) as usize;
                        if end == self.len {
                            (
                                WordCursor {
                                    offset: end,
                                    reverse: reverse_init(self.len),
                                    state: CursorState::ReverseReplay { origin },
                                    ..self
                                },
                                Ok(WordCursorResult::PrevChunk(self.len)),
                            )
                        } else {
                            (
                                WordCursor { offset: end, ..self },
                                Ok(WordCursorResult::PostContext(end)),
                            )
                        }
                    }
                },
                CursorState::Idle => {
                    if reverse_error is Some {
                        (self, Err(reverse_error->0))
                    } else if self.offset == 0 {
                        (self, Ok(WordCursorResult::End))
                    } else if !self.known_boundary {
                        (
                            WordCursor {
                                state: CursorState::ReversePostContext { origin: self.offset },
                                ..self
                            },
                            Ok(WordCursorResult::PostContext(self.offset)),
                        )
                    } else {
                        let searched = WordCursor { state: CursorState::ReverseSearch, ..self }.reverse_search(
                            chunk,
                            chunk_start,
                        );
                        (searched.0, Ok(searched.1))
                    }
                },
                _ => {
                    if reverse_error is Some {
                        (self, Err(reverse_error->0))
                    } else {
                        let searched = self.reverse_search(chunk, chunk_start);
                        (searched.0, Ok(searched.1))
                    }
                },
            }
        }
    }

    /// Creates a cursor at `offset` in a document whose UTF-8 byte length is `len`.
    ///
    /// Both values are global byte offsets. Because no source is supplied here, the caller is
    /// responsible for choosing an offset on a UTF-8 scalar boundary; subsequent exact chunk
    /// contracts prevent the cursor from silently accepting gaps or overlap.
    pub fn new(offset: usize, len: usize) -> (r: Result<Self, WordCursorError>)
        ensures
            offset > len ==> r == Err::<WordCursor, WordCursorError>(
                WordCursorError::InvalidOffset,
            ),
            offset <= len ==> r == Ok::<WordCursor, WordCursorError>(
                WordCursor::fresh(offset, len, offset == 0 || offset == len),
            ),
    {
        if offset > len {
            return Err(WordCursorError::InvalidOffset);
        }
        Ok(
            WordCursor {
                offset,
                len,
                state: CursorState::Idle,
                known_boundary: offset == 0 || offset == len,
                forward: ForwardState::new(offset),
                reverse: ReverseState::new(offset),
            },
        )
    }

    /// Returns the cursor's current global byte offset.
    pub fn cur_cursor(&self) -> (r: usize)
        ensures
            r == self.offset_of(),
    {
        self.offset
    }

    /// Resets the cursor to another byte offset in the same document.
    pub fn set_cursor(&mut self, offset: usize) -> (r: Result<(), WordCursorError>)
        ensures
            offset > old(self).doc_len() ==> r == Err::<(), WordCursorError>(
                WordCursorError::InvalidOffset,
            ) && *final(self) == *old(self),
            offset <= old(self).doc_len() ==> r == Ok::<(), WordCursorError>(()) && *final(self)
                == WordCursor::fresh(
                offset,
                old(self).doc_len(),
                offset == 0 || offset == old(self).doc_len(),
            ),
    {
        if offset > self.len {
            return Err(WordCursorError::InvalidOffset);
        }
        self.offset = offset;
        self.state = CursorState::Idle;
        self.known_boundary = offset == 0 || offset == self.len;
        self.forward = ForwardState::new(offset);
        self.reverse = ReverseState::new(offset);
        Ok(())
    }

    /// Finds the next word boundary using a chunk that begins at `chunk_start`.
    ///
    /// On [`WordCursorResult::NextChunk`], retry with a non-empty chunk beginning at the returned
    /// offset. [`WordCursorResult::PreContext`] requests a non-empty chunk ending at the returned
    /// offset. A chunk edge before the document end is never interpreted as a word boundary.
    pub fn next_boundary(&mut self, chunk: &str, chunk_start: usize) -> (r: Result<
        WordCursorResult,
        WordCursorError,
    >)
        ensures
            (*final(self), r) == old(self).next_boundary_spec(chunk@, chunk_start),
    {
        proof {
            lemma_str_len(chunk);
        }
        match self.begin(Direction::Forward) {
            Err(e) => {
                return Err(e);
            },
            Ok(()) => {},
        }
        match self.state {
            CursorState::Idle => {
                match self.validate_forward_chunk(chunk, chunk_start) {
                    Err(e) => {
                        return Err(e);
                    },
                    Ok(()) => {},
                }
                if self.offset == self.len {
                    return Ok(WordCursorResult::End);
                }
                if !self.known_boundary {
                    let origin = self.offset;
                    self.state = CursorState::ForwardPreContext { origin };
                    return Ok(WordCursorResult::PreContext(origin));
                }
                self.state = CursorState::ForwardSearch;
            },
            CursorState::ForwardPreContext { origin } => {
                match self.validate_reverse_chunk(chunk, chunk_start) {
                    Err(e) => {
                        return Err(e);
                    },
                    Ok(()) => {},
                }
                self.offset = chunk_start;
                if self.offset == 0 {
                    self.forward = ForwardState::new(0);
                    self.state = CursorState::ForwardReplay { origin };
                    return Ok(WordCursorResult::NextChunk(0));
                }
                return Ok(WordCursorResult::PreContext(self.offset));
            },
            CursorState::ForwardReplay { .. } | CursorState::ForwardSearch => {
                match self.validate_forward_chunk(chunk, chunk_start) {
                    Err(e) => {
                        return Err(e);
                    },
                    Ok(()) => {},
                }
            },
            _ => {
                return Err(WordCursorError::WrongDirection);
            },
        }

        let replay_origin = match self.state {
            CursorState::ForwardReplay { origin } => Some(origin),
            _ => None,
        };
        let found = self.forward.scan(chunk, chunk_start);
        match found {
            Some(boundary) => {
                Ok(self.settle_forward(replay_origin, boundary))
            },
            None => {
                self.offset = chunk_start + str_len(chunk);
                if self.offset == self.len {
                    let boundary = self.forward.finish(self.len);
                    return Ok(self.settle_forward(replay_origin, boundary));
                }
                Ok(WordCursorResult::NextChunk(self.offset))
            },
        }
    }

    /// Finds the previous word boundary using a chunk beginning at `chunk_start` and ending at
    /// the cursor's exact requested offset.
    ///
    /// On [`WordCursorResult::PrevChunk`], retry with a non-empty chunk ending at the returned
    /// offset. [`WordCursorResult::PostContext`] requests a non-empty chunk beginning at the
    /// returned offset. A chunk edge after document start is never interpreted as a word boundary.
    pub fn prev_boundary(&mut self, chunk: &str, chunk_start: usize) -> (r: Result<
        WordCursorResult,
        WordCursorError,
    >)
        ensures
            (*final(self), r) == old(self).prev_boundary_spec(chunk@, chunk_start),
    {
        proof {
            lemma_str_len(chunk);
        }
        match self.begin(Direction::Reverse) {
            Err(e) => {
                return Err(e);
            },
            Ok(()) => {},
        }
        match self.state {
            CursorState::Idle => {
                match self.validate_reverse_chunk(chunk, chunk_start) {
                    Err(e) => {
                        return Err(e);
                    },
                    Ok(()) => {},
                }
                if self.offset == 0 {
                    return Ok(WordCursorResult::End);
                }
                if !self.known_boundary {
                    let origin = self.offset;
                    self.state = CursorState::ReversePostContext { origin };
                    return Ok(WordCursorResult::PostContext(origin));
                }
                self.state = CursorState::ReverseSearch;
            },
            CursorState::ReversePostContext { origin } => {
                match self.validate_forward_chunk(chunk, chunk_start) {
                    Err(e) => {
                        return Err(e);
                    },
                    Ok(()) => {},
                }
                self.offset = chunk_start + str_len(chunk);
                if self.offset == self.len {
                    self.reverse = ReverseState::new(self.len);
                    self.state = CursorState::ReverseReplay { origin };
                    return Ok(WordCursorResult::PrevChunk(self.len));
                }
                return Ok(WordCursorResult::PostContext(self.offset));
            },
            CursorState::ReverseReplay { .. } | CursorState::ReverseSearch => {
                match self.validate_reverse_chunk(chunk, chunk_start) {
                    Err(e) => {
                        return Err(e);
                    },
                    Ok(()) => {},
                }
            },
            _ => {
                return Err(WordCursorError::WrongDirection);
            },
        }

        let replay_origin = match self.state {
            CursorState::ReverseReplay { origin } => Some(origin),
            _ => None,
        };
        let found = self.reverse.scan(chunk, chunk_start);
        match found {
            Some(boundary) => {
                Ok(self.settle_reverse(replay_origin, boundary))
            },
            None => {
                self.offset = chunk_start;
                if self.offset == 0 {
                    let boundary = self.reverse.finish();
                    return Ok(self.settle_reverse(replay_origin, boundary));
                }
                Ok(WordCursorResult::PrevChunk(self.offset))
            },
        }
    }

    fn begin(&self, direction: Direction) -> (r: Result<(), WordCursorError>)
        ensures
            r == (if direction_of(self.state) is Some && direction_of(self.state) != Some(
                direction,
            ) {
                Err::<(), WordCursorError>(WordCursorError::WrongDirection)
            } else {
                Ok(())
            }),
    {
        match self.state.direction() {
            Some(active) => {
                if active != direction {
                    Err(WordCursorError::WrongDirection)
                } else {
                    Ok(())
                }
            },
            None => Ok(()),
        }
    }

    fn settle_forward(&mut self, replay: Option<usize>, boundary: usize) -> (r: WordCursorResult)
        ensures
            (*final(self), r) == old(self).forward_settle(replay, boundary),
    {
        match replay {
            Some(origin) => {
                if boundary <= origin {
                    self.forward = ForwardState::new(boundary);
                    self.offset = boundary;
                    return WordCursorResult::NextChunk(boundary);
                }
            },
            None => {},
        }
        self.finish_boundary(boundary)
    }

    fn settle_reverse(&mut self, replay: Option<usize>, boundary: usize) -> (r: WordCursorResult)
        ensures
            (*final(self), r) == old(self).reverse_settle(replay, boundary),
    {
        match replay {
            Some(origin) => {
                if boundary >= origin {
                    self.reverse = ReverseState::new(boundary);
                    self.offset = boundary;
                    return WordCursorResult::PrevChunk(boundary);
                }
            },
            None => {},
        }
        self.finish_boundary(boundary)
    }

    fn finish_boundary(&mut self, boundary: usize) -> (r: WordCursorResult)
        ensures
            *final(self) == old(self).finished(boundary),
            r == WordCursorResult::Boundary(boundary),
    {
        self.offset = boundary;
        self.state = CursorState::Idle;
        self.known_boundary = true;
        self.forward = ForwardState::new(boundary);
        self.reverse = ReverseState::new(boundary);
        WordCursorResult::Boundary(boundary)
    }

    fn validate_forward_chunk(&self, chunk: &str, chunk_start: usize) -> (r: Result<
        (),
        WordCursorError,
    >)
        ensures
            r == as_check(forward_chunk_error(self.offset, self.len, utf8_len(chunk@), chunk_start)),
    {
        proof {
            lemma_str_len(chunk);
        }
        let chunk_end = match chunk_start.checked_add(str_len(chunk)) {
            Some(end) => end,
            None => {
                return Err(WordCursorError::ChunkOutOfBounds);
            },
        };
        if chunk_end > self.len {
            return Err(WordCursorError::ChunkOutOfBounds);
        }
        if chunk_start < self.offset {
            return Err(WordCursorError::Overlap { expected: self.offset, actual: chunk_start });
        }
        if chunk_start > self.offset {
            return Err(WordCursorError::Gap { expected: self.offset, actual: chunk_start });
        }
        if chunk.is_empty() && self.offset < self.len {
            return Err(WordCursorError::EmptyChunk);
        }
        Ok(())
    }

    fn validate_reverse_chunk(&self, chunk: &str, chunk_start: usize) -> (r: Result<
        (),
        WordCursorError,
    >)
        ensures
            r == as_check(reverse_chunk_error(self.offset, self.len, utf8_len(chunk@), chunk_start)),
    {
        proof {
            lemma_str_len(chunk);
        }
        let chunk_end = match chunk_start.checked_add(str_len(chunk)) {
            Some(end) => end,
            None => {
                return Err(WordCursorError::ChunkOutOfBounds);
            },
        };
        if chunk_end > self.len {
            return Err(WordCursorError::ChunkOutOfBounds);
        }
        if chunk_end < self.offset {
            return Err(WordCursorError::Gap { expected: self.offset, actual: chunk_end });
        }
        if chunk_end > self.offset {
            return Err(WordCursorError::Overlap { expected: self.offset, actual: chunk_end });
        }
        if chunk.is_empty() && self.offset > 0 {
            return Err(WordCursorError::EmptyChunk);
        }
        Ok(())
    }
}

/// A fresh cursor is well formed when its offset lies in the document and,
/// if not known to be a boundary, strictly inside it.
pub proof fn lemma_fresh_wf(offset: usize, len: usize, known_boundary: bool)
    requires
        offset <= len,
        !known_boundary ==> 0 < offset < len,
    ensures
        WordCursor::fresh(offset, len, known_boundary).wf(),
        WordCursor::fresh(offset, len, known_boundary).offset_of() == offset,
        WordCursor::fresh(offset, len, known_boundary).doc_len() == len,
        WordCursor::fresh(offset, len, known_boundary).state_of() == CursorState::Idle,
        WordCursor::fresh(offset, len, known_boundary).at_known_boundary() == known_boundary,
{
}

/// The search part of a forward query keeps the cursor well formed, reports
/// a boundary in the document and strictly after the scalars already
/// consumed, and otherwise asks for the chunk at the new offset.
proof fn lemma_forward_search(c: WordCursor, chunk: Seq<char>, chunk_start: usize)
    requires
        c.wf(),
        c.state is ForwardSearch || c.state is ForwardReplay,
        chunk_start == c.offset,
        chunk_start + utf8_len(chunk) <= c.len,
    ensures
        ({
            let (d, r) = c.forward_search(chunk, chunk_start);
            &&& d.wf()
            &&& d.len == c.len
            &&& (r matches WordCursorResult::Boundary(b) ==> d == WordCursor::fresh(b, c.len, true)
                && b <= c.len && (c.forward.significant is Some ==> c.forward.significant_offset
                < b) && (c.forward.significant is None && chunk.len() > 0 ==> chunk_start < b)
                && (c.state matches CursorState::ForwardReplay { origin } ==> origin < b))
            &&& (r matches WordCursorResult::NextChunk(x) ==> d.offset == x && d.state == c.state
                && (x == chunk_start + utf8_len(chunk) || x < chunk_start + utf8_len(chunk)))
            &&& (r is Boundary || r is NextChunk)
            &&& (r matches WordCursorResult::NextChunk(x) && x == chunk_start + utf8_len(chunk)
                && x < c.len ==> d == WordCursor {
                forward: forward_scan(c.forward, chunk, chunk_start as int).0,
                offset: (chunk_start + utf8_len(chunk)) as usize,
                ..c
            } && forward_scan(c.forward, chunk, chunk_start as int).1 is None)
        }),
{
    lemma_forward_scan_bounds(c.forward, chunk, chunk_start as int);
    let scanned = forward_scan(c.forward, chunk, chunk_start as int);
    if scanned.1 is None {
        let t = scanned.0;
        if chunk.len() == 0 {
        }
    }
}

/// The search part of a reverse query keeps the cursor well formed, reports
/// a boundary strictly left of the scalars already consumed, and otherwise
/// asks for the chunk that ends at the new offset.
proof fn lemma_reverse_search(c: WordCursor, chunk: Seq<char>, chunk_start: usize)
    requires
        c.wf(),
        c.state is ReverseSearch || c.state is ReverseReplay,
        chunk_start + utf8_len(chunk) == c.offset,
    ensures
        ({
            let (d, r) = c.reverse_search(chunk, chunk_start);
            &&& d.wf()
            &&& d.len == c.len
            &&& (r matches WordCursorResult::Boundary(b) ==> d == WordCursor::fresh(b, c.len, true)
                && b <= c.len && (c.state matches CursorState::ReverseReplay { origin } ==> b
                < origin))
            &&& (r matches WordCursorResult::PrevChunk(x) ==> d.offset == x && d.state == c.state
                && (x == chunk_start || x > chunk_start))
            &&& (r is Boundary || r is PrevChunk)
            &&& (c.reverse == reverse_init(c.offset) && chunk.len() > 0 ==> (r matches WordCursorResult::Boundary(b) ==> b < c.offset))
            &&& (r matches WordCursorResult::PrevChunk(x) && x == chunk_start && x > 0 ==> d
                == WordCursor {
                reverse: reverse_scan(c.reverse, chunk, c.offset as int).0,
                offset: chunk_start,
                ..c
            } && reverse_scan(c.reverse, chunk, c.offset as int).1 is None)
        }),
{
    lemma_reverse_scan_bounds(c.reverse, chunk, c.offset as int, c.len as int);
    let scanned = reverse_scan(c.reverse, chunk, c.offset as int);
    if scanned.1 is None {
        lemma_reverse_finish_bounds(scanned.0, chunk_start as int, c.len as int);
    }
    if c.reverse == reverse_init(c.offset) && chunk.len() > 0 {
        lemma_reverse_scan_bounds(c.reverse, chunk, c.offset as int, c.offset as int);
        if scanned.1 is None {
            lemma_reverse_finish_bounds(scanned.0, chunk_start as int, c.offset as int);
        }
    }
}

/// What a forward query step does, in terms of the cursor's public state:
/// a failed step changes nothing; the wrong direction fails exactly while a
/// reverse query is under way; otherwise the step fails exactly when the
/// chunk breaks the request (a chunk ending at the cursor while context is
/// requested, else a chunk beginning at it); a boundary resets the cursor
/// there; every request names the cursor's new offset; `End` comes exactly
/// at the document end; forward steps never ask for reverse-direction input;
/// and the cursor stays well formed.
pub proof fn law_next_boundary_step(c: WordCursor, chunk: Seq<char>, chunk_start: usize)
    requires
        c.wf(),
    ensures
        ({
            let (d, r) = c.next_boundary_spec(chunk, chunk_start);
            let request_error = if c.state_of() is ForwardPreContext {
                reverse_chunk_error(c.offset_of(), c.doc_len(), utf8_len(chunk), chunk_start)
            } else {
                forward_chunk_error(c.offset_of(), c.doc_len(), utf8_len(chunk), chunk_start)
            };
            &&& d.wf()
            &&& d.doc_len() == c.doc_len()
            &&& (r is Err ==> d == c)
            &&& (r == Err::<WordCursorResult, WordCursorError>(WordCursorError::WrongDirection)
                <==> direction_of(c.state_of()) == Some(Direction::Reverse))
            &&& (direction_of(c.state_of()) != Some(Direction::Reverse) ==> (r is Err
                <==> request_error is Some) && (r matches Err(e) ==> request_error == Some(e)))
            &&& (r matches Ok(WordCursorResult::Boundary(b)) ==> d == WordCursor::fresh(
                b,
                c.doc_len(),
                true,
            ))
            &&& (r matches Ok(WordCursorResult::NextChunk(x)) ==> d.offset_of() == x)
            &&& (r matches Ok(WordCursorResult::PreContext(x)) ==> d.offset_of() == x
                && d.state_of() is ForwardPreContext)
            &&& (r == Ok::<WordCursorResult, WordCursorError>(WordCursorResult::End) <==> (
            c.state_of() == CursorState::Idle && request_error is None && c.offset_of()
                == c.doc_len()))
            &&& (r == Ok::<WordCursorResult, WordCursorError>(WordCursorResult::End) ==> d == c)
            &&& !(r matches Ok(WordCursorResult::PrevChunk(_)))
            &&& !(r matches Ok(WordCursorResult::PostContext(_)))
        }),
{
    let forward_error = forward_chunk_error(c.offset, c.len, utf8_len(chunk), chunk_start);
    if direction_of(c.state) != Some(Direction::Reverse) {
        match c.state {
            CursorState::Idle => {
                if forward_error is None && c.offset != c.len && c.known_boundary {
                    lemma_forward_search(
                        WordCursor { state: CursorState::ForwardSearch, ..c },
                        chunk,
                        chunk_start,
                    );
                }
            },
            CursorState::ForwardPreContext { origin } => {},
            _ => {
                if forward_error is None {
                    lemma_forward_search(c, chunk, chunk_start);
                }
            },
        }
    }
}

/// What a reverse query step does, in terms of the cursor's public state:
/// the mirror image of [`law_next_boundary_step`].
pub proof fn law_prev_boundary_step(c: WordCursor, chunk: Seq<char>, chunk_start: usize)
    requires
        c.wf(),
    ensures
        ({
            let (d, r) = c.prev_boundary_spec(chunk, chunk_start);
            let request_error = if c.state_of() is ReversePostContext {
                forward_chunk_error(c.offset_of(), c.doc_len(), utf8_len(chunk), chunk_start)
            } else {
                reverse_chunk_error(c.offset_of(), c.doc_len(), utf8_len(chunk), chunk_start)
            };
            &&& d.wf()
            &&& d.doc_len() == c.doc_len()
            &&& (r is Err ==> d == c)
            &&& (r == Err::<WordCursorResult, WordCursorError>(WordCursorError::WrongDirection)
                <==> direction_of(c.state_of()) == Some(Direction::Forward))
            &&& (direction_of(c.state_of()) != Some(Direction::Forward) ==> (r is Err
                <==> request_error is Some) && (r matches Err(e) ==> request_error == Some(e)))
            &&& (r matches Ok(WordCursorResult::Boundary(b)) ==> d == WordCursor::fresh(
                b,
                c.doc_len(),
                true,
            ))
            &&& (r matches Ok(WordCursorResult::PrevChunk(x)) ==> d.offset_of() == x)
            &&& (r matches Ok(WordCursorResult::PostContext(x)) ==> d.offset_of() == x
                && d.state_of() is ReversePostContext)
            &&& (r == Ok::<WordCursorResult, WordCursorError>(WordCursorResult::End) <==> (
            c.state_of() == CursorState::Idle && request_error is None && c.offset_of() == 0))
            &&& (r == Ok::<WordCursorResult, WordCursorError>(WordCursorResult::End) ==> d == c)
            &&& !(r matches Ok(WordCursorResult::NextChunk(_)))
            &&& !(r matches Ok(WordCursorResult::PreContext(_)))
        }),
{
    let reverse_error = reverse_chunk_error(c.offset, c.len, utf8_len(chunk), chunk_start);
    if direction_of(c.state) != Some(Direction::Forward) {
        match c.state {
            CursorState::Idle => {
                if reverse_error is None && c.offset != 0 && c.known_boundary {
                    lemma_reverse_search(
                        WordCursor { state: CursorState::ReverseSearch, ..c },
                        chunk,
                        chunk_start,
                    );
                }
            },
            CursorState::ReversePostContext { origin } => {},
            _ => {
                if reverse_error is None {
                    lemma_reverse_search(c, chunk, chunk_start);
                }
            },
        }
    }
}

/// Partition invariance, forward: during a forward search, supplying `a`
/// and then, on the request for the chunk after it, `b` gives the same cursor
/// and result as supplying `a + b` at once.
pub proof fn law_forward_chunks_compose(c: WordCursor, a: Seq<char>, b: Seq<char>, start: usize)
    requires
        c.wf(),
        c.state_of() == CursorState::Idle && c.at_known_boundary() || c.state_of()
            is ForwardSearch || c.state_of() is ForwardReplay,
        b.len() > 0,
        start + utf8_len(a) + utf8_len(b) <= c.doc_len(),
        c.next_boundary_spec(a, start).1 == Ok::<WordCursorResult, WordCursorError>(
            WordCursorResult::NextChunk((start + utf8_len(a)) as usize),
        ),
    ensures
        c.next_boundary_spec(a, start).0.next_boundary_spec(b, (start + utf8_len(a)) as usize)
            == c.next_boundary_spec(a + b, start),
{
    lemma_utf8_len_concat(a, b);
    lemma_forward_scan_concat(c.forward, a, b, start as int);
    if c.state == CursorState::Idle {
        lemma_forward_search(WordCursor { state: CursorState::ForwardSearch, ..c }, a, start);
    } else {
        lemma_forward_search(c, a, start);
    }
}

/// Partition invariance, reverse: during a reverse search, supplying `b`
/// (which ends at the cursor) and then, on the request for the chunk before
/// it, `a` gives the same cursor and result as supplying `a + b` at once.
pub proof fn law_reverse_chunks_compose(c: WordCursor, a: Seq<char>, b: Seq<char>, start: usize)
    requires
        c.wf(),
        c.state_of() == CursorState::Idle && c.at_known_boundary() || c.state_of()
            is ReverseSearch || c.state_of() is ReverseReplay,
        a.len() > 0,
        start + utf8_len(a) + utf8_len(b) <= usize::MAX,
        c.prev_boundary_spec(b, (start + utf8_len(a)) as usize).1 == Ok::<
            WordCursorResult,
            WordCursorError,
        >(WordCursorResult::PrevChunk((start + utf8_len(a)) as usize)),
    ensures
        c.prev_boundary_spec(b, (start + utf8_len(a)) as usize).0.prev_boundary_spec(a, start)
            == c.prev_boundary_spec(a + b, start),
{
    lemma_utf8_len_concat(a, b);
    lemma_reverse_scan_concat(c.reverse, a, b, c.offset as int);
    if c.state == CursorState::Idle {
        lemma_reverse_search(
            WordCursor { state: CursorState::ReverseSearch, ..c },
            b,
            (start + utf8_len(a)) as usize,
        );
    } else {
        lemma_reverse_search(c, b, (start + utf8_len(a)) as usize);
    }
}

/// Progress: a forward query begun at a known boundary reports a boundary
/// strictly after it and within the document.
pub proof fn law_forward_progress(c: WordCursor, chunk: Seq<char>, start: usize)
    requires
        c.wf(),
        c.state_of() == CursorState::Idle,
        c.at_known_boundary(),
    ensures
        c.next_boundary_spec(chunk, start).1 matches Ok(WordCursorResult::Boundary(b)) ==> c.offset_of()
            < b <= c.doc_len(),
{
    if forward_chunk_error(c.offset, c.len, utf8_len(chunk), start) is None && c.offset != c.len {
        lemma_forward_search(WordCursor { state: CursorState::ForwardSearch, ..c }, chunk, start);
    }
}

/// Progress: a reverse query begun at a known boundary reports a boundary
/// strictly before it.
pub proof fn law_reverse_progress(c: WordCursor, chunk: Seq<char>, start: usize)
    requires
        c.wf(),
        c.state_of() == CursorState::Idle,
        c.at_known_boundary(),
    ensures
        c.prev_boundary_spec(chunk, start).1 matches Ok(WordCursorResult::Boundary(b)) ==> b
            < c.offset_of(),
{
    if reverse_chunk_error(c.offset, c.len, utf8_len(chunk), start) is None && c.offset != 0 {
        lemma_reverse_search(WordCursor { state: CursorState::ReverseSearch, ..c }, chunk, start);
    }
}

/// A forward query from an arbitrary offset replays from the document start
/// and reports only a boundary strictly after the offset it began at; a
/// reverse query replays from the document end and reports only a boundary
/// strictly before it.
pub proof fn law_replay_reports_past_origin(c: WordCursor, chunk: Seq<char>, start: usize)
    requires
        c.wf(),
    ensures
        c.state_of() matches CursorState::ForwardReplay { origin } ==> (c.next_boundary_spec(
            chunk,
            start,
        ).1 matches Ok(WordCursorResult::Boundary(b)) ==> origin < b),
        c.state_of() matches CursorState::ReverseReplay { origin } ==> (c.prev_boundary_spec(
            chunk,
            start,
        ).1 matches Ok(WordCursorResult::Boundary(b)) ==> b < origin),
{
    if c.state is ForwardReplay && forward_chunk_error(c.offset, c.len, utf8_len(chunk), start) is None {
        lemma_forward_search(c, chunk, start);
    }
    if c.state is ReverseReplay && reverse_chunk_error(c.offset, c.len, utf8_len(chunk), start) is None {
        lemma_reverse_search(c, chunk, start);
    }
}

/// The byte offset at which the first word segment of the document `s` ends.
pub open spec fn first_segment_end(s: Seq<char>) -> int {
    let scanned = forward_scan(forward_init(0), s, 0);
    match scanned.1 {
        Some(b) => b as int,
        None => forward_finish(scanned.0, utf8_len(s) as usize) as int,
    }
}

/// The byte offset at which the last word segment of the document `s` begins.
pub open spec fn last_segment_start(s: Seq<char>) -> int {
    let scanned = reverse_scan(reverse_init(utf8_len(s) as usize), s, utf8_len(s) as int);
    match scanned.1 {
        Some(b) => b as int,
        None => reverse_finish(scanned.0) as int,
    }
}

/// A cursor at the start of a whole document, given the whole document as
/// one chunk, reports the end of its first word segment (or `End` for an
/// empty document); that end is a scalar offset strictly inside the
/// document or at its end.
pub proof fn lemma_whole_document_forward(s: Seq<char>)
    requires
        utf8_len(s) <= usize::MAX,
    ensures
        ({
            let c = WordCursor::fresh(0, utf8_len(s) as usize, true);
            &&& s.len() == 0 ==> c.next_boundary_spec(s, 0).1 == Ok::<
                WordCursorResult,
                WordCursorError,
            >(WordCursorResult::End)
            &&& s.len() > 0 ==> c.next_boundary_spec(s, 0).1 == Ok::<
                WordCursorResult,
                WordCursorError,
            >(WordCursorResult::Boundary(first_segment_end(s) as usize))
        }),
        s.len() > 0 ==> 0 < first_segment_end(s) <= utf8_len(s) && is_scalar_offset(
            s,
            first_segment_end(s),
        ),
{
    let len = utf8_len(s) as usize;
    lemma_utf8_len_ge(s);
    lemma_fresh_wf(0, len, true);
    let c = WordCursor::fresh(0, len, true);
    if s.len() > 0 {
        lemma_forward_search(WordCursor { state: CursorState::ForwardSearch, ..c }, s, 0);
        assert(s.skip(0) =~= s);
        assert(byte_offset(s, 0) == 0) by {
            assert(s.take(0) =~= Seq::<char>::empty());
        }
        lemma_forward_scan_scalar_offsets(forward_init(0), s, 0);
        lemma_byte_offset_full(s);
        assert(is_scalar_offset(s, utf8_len(s) as int));
    } else {
        assert(utf8_len(s) == 0);
    }
}

/// A cursor at the end of a whole document, given the whole document as one
/// chunk, reports the start of its last word segment (or `End` for an empty
/// document); that start is a scalar offset strictly before the end.
pub proof fn lemma_whole_document_reverse(s: Seq<char>)
    requires
        utf8_len(s) <= usize::MAX,
    ensures
        ({
            let len = utf8_len(s) as usize;
            let c = WordCursor::fresh(len, len, true);
            &&& s.len() == 0 ==> c.prev_boundary_spec(s, 0).1 == Ok::<
                WordCursorResult,
                WordCursorError,
            >(WordCursorResult::End)
            &&& s.len() > 0 ==> c.prev_boundary_spec(s, 0).1 == Ok::<
                WordCursorResult,
                WordCursorError,
            >(WordCursorResult::Boundary(last_segment_start(s) as usize))
        }),
        s.len() > 0 ==> 0 <= last_segment_start(s) < utf8_len(s) && is_scalar_offset(
            s,
            last_segment_start(s),
        ),
{
    let len = utf8_len(s) as usize;
    lemma_utf8_len_ge(s);
    lemma_fresh_wf(len, len, true);
    let c = WordCursor::fresh(len, len, true);
    if s.len() > 0 {
        lemma_reverse_search(WordCursor { state: CursorState::ReverseSearch, ..c }, s, 0);
        assert(s.take(s.len() as int) =~= s);
        lemma_byte_offset_full(s);
        lemma_reverse_scan_scalar_offsets(reverse_init(len), s, s.len() as int);
        let scanned = reverse_scan(reverse_init(len), s, len as int);
        if scanned.1 is None {
            lemma_reverse_finish_scalar_offset(scanned.0, s);
        }
    } else {
        assert(utf8_len(s) == 0);
    }
}

/// A cursor at rest at a known boundary `start`, given the rest of the
/// document as one chunk, reports `start` plus the end of the first word
/// segment of that rest: the segment that the contiguous iterators yield
/// there.
pub proof fn law_forward_search_from_boundary(rest: Seq<char>, start: usize)
    requires
        rest.len() > 0,
        start + utf8_len(rest) <= usize::MAX,
    ensures
        WordCursor::fresh(start, (start + utf8_len(rest)) as usize, true).next_boundary_spec(
            rest,
            start,
        ).1 == Ok::<WordCursorResult, WordCursorError>(
            WordCursorResult::Boundary((start + first_segment_end(rest)) as usize),
        ),
{
    lemma_utf8_len_ge(rest);
    let len = (start + utf8_len(rest)) as usize;
    lemma_fresh_wf(start, len, true);
    assert(forward_shifted(forward_init(0), start as int) == forward_init(start));
    lemma_forward_scan_shift(forward_init(0), rest, 0, start as int);
}

/// A cursor at rest at a known boundary, given the whole text before it as
/// one chunk at byte 0, reports the start of the last word segment of that
/// text: the segment that the contiguous iterators yield from the back.
pub proof fn law_reverse_search_from_boundary(prefix: Seq<char>, len: usize)
    requires
        prefix.len() > 0,
        utf8_len(prefix) <= len,
    ensures
        WordCursor::fresh(utf8_len(prefix) as usize, len, true).prev_boundary_spec(prefix, 0).1
            == Ok::<WordCursorResult, WordCursorError>(
            WordCursorResult::Boundary(last_segment_start(prefix) as usize),
        ),
{
    let end = utf8_len(prefix) as usize;
    lemma_utf8_len_ge(prefix);
    lemma_fresh_wf(end, len, true);
    let c = WordCursor::fresh(end, len, true);
    lemma_reverse_search(WordCursor { state: CursorState::ReverseSearch, ..c }, prefix, 0);
}

/// Replay, forward: a cursor replaying toward `origin` from a segment start,
/// given the rest of the document as one chunk, finds the end `e` of the
/// contiguous segment that begins there; while `e <= origin` it restarts at
/// `e` and asks for the chunk there, and once past `origin` it reports `e`.
/// So a query from an arbitrary offset reports the first boundary of the
/// contiguous segmentation after that offset.
pub proof fn law_forward_replay_step(c: WordCursor, rest: Seq<char>, origin: usize)
    requires
        c.wf(),
        c.state_of() == (CursorState::ForwardReplay { origin }),
        c.forward_at_segment_start(),
        rest.len() > 0,
        c.offset_of() + utf8_len(rest) == c.doc_len(),
    ensures
        ({
            let e = c.offset_of() + first_segment_end(rest);
            let (d, r) = c.next_boundary_spec(rest, c.offset_of());
            &&& e <= origin ==> r == Ok::<WordCursorResult, WordCursorError>(
                WordCursorResult::NextChunk(e as usize),
            ) && d.state_of() == c.state_of() && d.offset_of() == e && d.forward_at_segment_start()
                && d.doc_len() == c.doc_len() && d.wf()
            &&& e > origin ==> r == Ok::<WordCursorResult, WordCursorError>(
                WordCursorResult::Boundary(e as usize),
            ) && d == WordCursor::fresh(e as usize, c.doc_len(), true)
        }),
{
    lemma_utf8_len_ge(rest);
    lemma_whole_document_forward(rest);
    lemma_forward_scan_bounds(forward_init(0), rest, 0);
    assert(forward_shifted(forward_init(0), c.offset as int) == forward_init(c.offset));
    lemma_forward_scan_shift(forward_init(0), rest, 0, c.offset as int);
    lemma_forward_search(c, rest, c.offset);
    law_next_boundary_step(c, rest, c.offset);
}

/// Replay, reverse: a cursor replaying toward `origin` from a segment end,
/// given the whole text before it as one chunk at byte 0, finds the start
/// `s` of the contiguous segment that ends there; while `s >= origin` it
/// restarts at `s` and asks for the chunk that ends there, and once before
/// `origin` it reports `s`.
pub proof fn law_reverse_replay_step(c: WordCursor, prefix: Seq<char>, origin: usize)
    requires
        c.wf(),
        c.state_of() == (CursorState::ReverseReplay { origin }),
        c.reverse_at_segment_end(),
        prefix.len() > 0,
        utf8_len(prefix) == c.offset_of(),
    ensures
        ({
            let s = last_segment_start(prefix);
            let (d, r) = c.prev_boundary_spec(prefix, 0);
            &&& s >= origin ==> r == Ok::<WordCursorResult, WordCursorError>(
                WordCursorResult::PrevChunk(s as usize),
            ) && d.state_of() == c.state_of() && d.offset_of() == s && d.reverse_at_segment_end()
                && d.doc_len() == c.doc_len() && d.wf()
            &&& s < origin ==> r == Ok::<WordCursorResult, WordCursorError>(
                WordCursorResult::Boundary(s as usize),
            ) && d == WordCursor::fresh(s as usize, c.doc_len(), true)
        }),
{
    lemma_utf8_len_ge(prefix);
    lemma_reverse_search(c, prefix, 0);
    law_prev_boundary_step(c, prefix, 0);
}

/// A forward query at byte `start` fed `pieces` in order: each next piece
/// goes in while the cursor asks for the chunk that begins where the previous
/// piece ended. The cursor and the result when it stops.
pub open spec fn feed_forward(c: WordCursor, pieces: Seq<Seq<char>>, start: int) -> (
    WordCursor,
    Result<WordCursorResult, WordCursorError>,
)
    decreases pieces.len(),
{
    if pieces.len() == 0 {
        (c, Ok(WordCursorResult::NextChunk(start as usize)))
    } else {
        let end = start + utf8_len(pieces[0]);
        let stepped = c.next_boundary_spec(pieces[0], start as usize);
        if pieces.len() > 1 && stepped.1 == Ok::<WordCursorResult, WordCursorError>(
            WordCursorResult::NextChunk(end as usize),
        ) {
            feed_forward(stepped.0, pieces.drop_first(), end)
        } else {
            stepped
        }
    }
}

/// A reverse query at byte `end` fed `pieces` from the last to the first:
/// each earlier piece goes in while the cursor asks for the chunk that ends
/// where the later piece began. The cursor and the result when it stops.
pub open spec fn feed_backward(c: WordCursor, pieces: Seq<Seq<char>>, end: int) -> (
    WordCursor,
    Result<WordCursorResult, WordCursorError>,
)
    decreases pieces.len(),
{
    if pieces.len() == 0 {
        (c, Ok(WordCursorResult::PrevChunk(end as usize)))
    } else {
        let start = end - utf8_len(pieces.last());
        let stepped = c.prev_boundary_spec(pieces.last(), start as usize);
        if pieces.len() > 1 && stepped.1 == Ok::<WordCursorResult, WordCursorError>(
            WordCursorResult::PrevChunk(start as usize),
        ) {
            feed_backward(stepped.0, pieces.drop_last(), start)
        } else {
            stepped
        }
    }
}

/// A forward search given a chunk that settles nothing up to its end, or
/// settles a boundary inside it, answers the same when the chunk goes on.
proof fn lemma_forward_longer_chunk(c: WordCursor, a: Seq<char>, b: Seq<char>, start: usize)
    requires
        c.wf(),
        c.state_of() == CursorState::Idle && c.at_known_boundary() || c.state_of()
            is ForwardSearch || c.state_of() is ForwardReplay,
        c.offset_of() == start,
        a.len() > 0,
        b.len() > 0,
        start + utf8_len(a) + utf8_len(b) <= c.doc_len(),
        c.next_boundary_spec(a, start).1 != Ok::<WordCursorResult, WordCursorError>(
            WordCursorResult::NextChunk((start + utf8_len(a)) as usize),
        ),
    ensures
        c.next_boundary_spec(a + b, start) == c.next_boundary_spec(a, start),
{
    lemma_utf8_len_concat(a, b);
    lemma_utf8_len_ge(a);
    lemma_utf8_len_ge(b);
    lemma_forward_scan_concat(c.forward, a, b, start as int);
    lemma_forward_scan_bounds(c.forward, a, start as int);
    let searching = if c.state == CursorState::Idle {
        WordCursor { state: CursorState::ForwardSearch, ..c }
    } else {
        c
    };
    lemma_forward_search(searching, a, start);
}

proof fn lemma_feed_forward(c: WordCursor, pieces: Seq<Seq<char>>, start: int)
    requires
        c.wf(),
        c.state_of() == CursorState::Idle && c.at_known_boundary() || c.state_of()
            is ForwardSearch || c.state_of() is ForwardReplay,
        c.offset_of() == start,
        pieces.len() > 0,
        forall|i: int| 0 <= i < pieces.len() ==> #[trigger] pieces[i].len() > 0,
        start + utf8_len(pieces.flatten()) <= c.doc_len(),
    ensures
        feed_forward(c, pieces, start) == c.next_boundary_spec(pieces.flatten(), start as usize),
    decreases pieces.len(),
{
    let p0 = pieces[0];
    let tail = pieces.drop_first();
    assert(pieces.flatten() == p0 + tail.flatten());
    if pieces.len() == 1 {
        assert(tail.flatten() =~= Seq::<char>::empty());
        assert(pieces.flatten() =~= p0);
    } else {
        assert(tail[0] == pieces[1]);
        assert(tail.flatten() == tail[0] + tail.drop_first().flatten());
        assert forall|i: int| 0 <= i < tail.len() implies #[trigger] tail[i].len() > 0 by {
            assert(tail[i] == pieces[i + 1]);
        }
        lemma_utf8_len_concat(p0, tail.flatten());
        lemma_utf8_len_ge(tail.flatten());
        let end = start + utf8_len(p0);
        let stepped = c.next_boundary_spec(p0, start as usize);
        if stepped.1 == Ok::<WordCursorResult, WordCursorError>(
            WordCursorResult::NextChunk(end as usize),
        ) {
            law_next_boundary_step(c, p0, start as usize);
            law_forward_chunks_compose(c, p0, tail.flatten(), start as usize);
            if c.state == CursorState::Idle {
                lemma_forward_search(WordCursor { state: CursorState::ForwardSearch, ..c }, p0, start as usize);
            } else {
                lemma_forward_search(c, p0, start as usize);
            }
            lemma_feed_forward(stepped.0, tail, end);
        } else {
            lemma_forward_longer_chunk(c, p0, tail.flatten(), start as usize);
        }
    }
}

/// Partition invariance to the contiguous answer, forward: a cursor at rest
/// at a known boundary `start`, fed the rest of the document cut into any
/// non-empty pieces, each supplied when asked for, reports `start` plus the
/// end of the first word segment of that rest.
pub proof fn law_forward_any_partition(pieces: Seq<Seq<char>>, start: usize)
    requires
        pieces.len() > 0,
        forall|i: int| 0 <= i < pieces.len() ==> #[trigger] pieces[i].len() > 0,
        start + utf8_len(pieces.flatten()) <= usize::MAX,
    ensures
        feed_forward(
            WordCursor::fresh(start, (start + utf8_len(pieces.flatten())) as usize, true),
            pieces,
            start as int,
        ).1 == Ok::<WordCursorResult, WordCursorError>(
            WordCursorResult::Boundary((start + first_segment_end(pieces.flatten())) as usize),
        ),
{
    let rest = pieces.flatten();
    assert(rest == pieces[0] + pieces.drop_first().flatten());
    assert(rest.len() > 0);
    let len = (start + utf8_len(rest)) as usize;
    lemma_fresh_wf(start, len, true);
    lemma_feed_forward(WordCursor::fresh(start, len, true), pieces, start as int);
    law_forward_search_from_boundary(rest, start);
}

/// A reverse search given a chunk that settles nothing back to its start,
/// or settles a boundary inside it, answers the same when the chunk reaches
/// further back.
proof fn lemma_reverse_longer_chunk(c: WordCursor, a: Seq<char>, b: Seq<char>, start: usize)
    requires
        c.wf(),
        c.state_of() == CursorState::Idle && c.at_known_boundary() || c.state_of()
            is ReverseSearch || c.state_of() is ReverseReplay,
        c.offset_of() == start + utf8_len(a) + utf8_len(b),
        a.len() > 0,
        b.len() > 0,
        c.prev_boundary_spec(b, (start + utf8_len(a)) as usize).1 != Ok::<
            WordCursorResult,
            WordCursorError,
        >(WordCursorResult::PrevChunk((start + utf8_len(a)) as usize)),
    ensures
        c.prev_boundary_spec(a + b, start) == c.prev_boundary_spec(
            b,
            (start + utf8_len(a)) as usize,
        ),
{
    lemma_utf8_len_concat(a, b);
    lemma_utf8_len_ge(a);
    lemma_utf8_len_ge(b);
    lemma_reverse_scan_concat(c.reverse, a, b, c.offset as int);
    let searching = if c.state == CursorState::Idle {
        WordCursor { state: CursorState::ReverseSearch, ..c }
    } else {
        c
    };
    lemma_reverse_search(searching, b, (start + utf8_len(a)) as usize);
}

proof fn lemma_feed_backward(c: WordCursor, pieces: Seq<Seq<char>>, end: int)
    requires
        c.wf(),
        c.state_of() == CursorState::Idle && c.at_known_boundary() || c.state_of()
            is ReverseSearch || c.state_of() is ReverseReplay,
        c.offset_of() == end,
        pieces.len() > 0,
        forall|i: int| 0 <= i < pieces.len() ==> #[trigger] pieces[i].len() > 0,
        utf8_len(pieces.flatten()) <= end,
    ensures
        feed_backward(c, pieces, end) == c.prev_boundary_spec(
            pieces.flatten(),
            (end - utf8_len(pieces.flatten())) as usize,
        ),
    decreases pieces.len(),
{
    let last = pieces.last();
    let init = pieces.drop_last();
    assert(pieces =~= init.push(last));
    init.lemma_flatten_push(last);
    assert(pieces.flatten() == init.flatten() + last);
    lemma_utf8_len_concat(init.flatten(), last);
    if pieces.len() == 1 {
        assert(init.flatten() =~= Seq::<char>::empty());
        assert(pieces.flatten() =~= last);
    } else {
        assert(init[0] == pieces[0]);
        assert(init.flatten() == init[0] + init.drop_first().flatten());
        assert forall|i: int| 0 <= i < init.len() implies #[trigger] init[i].len() > 0 by {
            assert(init[i] == pieces[i]);
        }
        lemma_utf8_len_ge(init.flatten());
        let start = end - utf8_len(last);
        let s0 = start - utf8_len(init.flatten());
        let stepped = c.prev_boundary_spec(last, start as usize);
        if stepped.1 == Ok::<WordCursorResult, WordCursorError>(
            WordCursorResult::PrevChunk(start as usize),
        ) {
            law_prev_boundary_step(c, last, start as usize);
            law_reverse_chunks_compose(c, init.flatten(), last, s0 as usize);
            if c.state == CursorState::Idle {
                lemma_reverse_search(WordCursor { state: CursorState::ReverseSearch, ..c }, last, start as usize);
            } else {
                lemma_reverse_search(c, last, start as usize);
            }
            lemma_feed_backward(stepped.0, init, start);
        } else {
            lemma_reverse_longer_chunk(c, init.flatten(), last, s0 as usize);
        }
    }
}

/// Partition invariance to the contiguous answer, reverse: a cursor at rest
/// at a known boundary, fed the whole text before it cut into any non-empty
/// pieces, each supplied (from the last) when asked for, reports the start
/// of the last word segment of that text.
pub proof fn law_reverse_any_partition(pieces: Seq<Seq<char>>, len: usize)
    requires
        pieces.len() > 0,
        forall|i: int| 0 <= i < pieces.len() ==> #[trigger] pieces[i].len() > 0,
        utf8_len(pieces.flatten()) <= len,
    ensures
        feed_backward(
            WordCursor::fresh(utf8_len(pieces.flatten()) as usize, len, true),
            pieces,
            utf8_len(pieces.flatten()) as int,
        ).1 == Ok::<WordCursorResult, WordCursorError>(
            WordCursorResult::Boundary(last_segment_start(pieces.flatten()) as usize),
        ),
{
    let prefix = pieces.flatten();
    assert(prefix == pieces[0] + pieces.drop_first().flatten());
    assert(prefix.len() > 0);
    let e = utf8_len(prefix) as usize;
    lemma_fresh_wf(e, len, true);
    lemma_feed_backward(WordCursor::fresh(e, len, true), pieces, e as int);
    law_reverse_search_from_boundary(prefix, len);
}

/// A chunk edge is never guessed to be a boundary: a forward query reports
/// the end of the chunk it was given only when that is the document's end,
/// and a reverse query reports the start of its chunk only when that is the
/// document's start.
pub proof fn law_chunk_edges_are_not_guessed(c: WordCursor, chunk: Seq<char>, start: usize)
    requires
        c.wf(),
    ensures
        c.next_boundary_spec(chunk, start).1 == Ok::<WordCursorResult, WordCursorError>(
            WordCursorResult::Boundary((start + utf8_len(chunk)) as usize),
        ) ==> start + utf8_len(chunk) == c.doc_len(),
        c.prev_boundary_spec(chunk, start).1 == Ok::<WordCursorResult, WordCursorError>(
            WordCursorResult::Boundary(start),
        ) ==> start == 0,
{
    lemma_utf8_len_ge(chunk);
    if forward_chunk_error(c.offset, c.len, utf8_len(chunk), start) is None && (c.state
        is Idle || c.state is ForwardSearch || c.state is ForwardReplay) {
        lemma_forward_scan_bounds(c.forward, chunk, start as int);
    }
    if reverse_chunk_error(c.offset, c.len, utf8_len(chunk), start) is None && (c.state
        is Idle || c.state is ReverseSearch || c.state is ReverseReplay) {
        lemma_reverse_scan_bounds(c.reverse, chunk, c.offset as int, c.len as int);
    }
}

/// The first boundary after byte `origin` of the contiguous word
/// segmentation of `d`, searching from the segment that begins at its
/// scalar offset `k`.
pub open spec fn first_boundary_after(d: Seq<char>, k: int, origin: int) -> int
    decreases d.len() - k,
{
    let e = byte_offset(d, k) + first_segment_end(d.skip(k));
    if e > origin || k >= d.len() {
        e
    } else {
        let k2 = choose|k2: int| 0 <= k2 <= d.len() && #[trigger] byte_offset(d, k2) == e;
        if k < k2 <= d.len() {
            first_boundary_after(d, k2, origin)
        } else {
            e
        }
    }
}

/// A forward replay at the scalar offset `k` of `d`, given the rest of `d`
/// each time it asks for the chunk that begins at a restart point. The cursor
/// and the result when it stops.
pub open spec fn replay_with_rest(c: WordCursor, d: Seq<char>, k: int) -> (
    WordCursor,
    Result<WordCursorResult, WordCursorError>,
)
    decreases d.len() - k,
{
    let stepped = c.next_boundary_spec(d.skip(k), byte_offset(d, k) as usize);
    match stepped.1 {
        Ok(WordCursorResult::NextChunk(x)) => {
            let k2 = choose|k2: int| 0 <= k2 <= d.len() && #[trigger] byte_offset(d, k2) == x;
            if k < k2 < d.len() {
                replay_with_rest(stepped.0, d, k2)
            } else {
                stepped
            }
        },
        _ => stepped,
    }
}

/// The end of the segment that begins at a scalar offset `k` of `d` is a
/// later scalar offset of `d`.
proof fn lemma_segment_end_in_document(d: Seq<char>, k: int)
    requires
        0 <= k < d.len(),
        utf8_len(d) <= usize::MAX,
    ensures
        ({
            let e = byte_offset(d, k) + first_segment_end(d.skip(k));
            exists|k2: int| k < k2 <= d.len() && #[trigger] byte_offset(d, k2) == e
        }),
{
    let rest = d.skip(k);
    assert(d =~= d.take(k) + rest);
    lemma_utf8_len_concat(d.take(k), rest);
    lemma_whole_document_forward(rest);
    let fse = first_segment_end(rest);
    let j = choose|j: int| 0 <= j <= rest.len() && byte_offset(rest, j) == fse;
    assert(rest.take(0) =~= Seq::<char>::empty());
    assert(d.take(k + j) =~= d.take(k) + rest.take(j));
    lemma_utf8_len_concat(d.take(k), rest.take(j));
    assert(byte_offset(d, k + j) == byte_offset(d, k) + fse);
    assert(j > 0);
}

/// Arbitrary-offset queries, forward: a cursor replaying toward `origin`
/// from the segment that begins at scalar offset `k` of `d` (as it does from
/// the document start once its pre-context requests are answered), given
/// the rest of the document whenever it asks, reports the first boundary of
/// the contiguous segmentation after `origin`.
pub proof fn law_replay_finds_first_boundary_after(
    c: WordCursor,
    d: Seq<char>,
    k: int,
    origin: usize,
)
    requires
        c.wf(),
        c.state_of() == (CursorState::ForwardReplay { origin }),
        c.forward_at_segment_start(),
        0 <= k < d.len(),
        c.offset_of() == byte_offset(d, k),
        c.doc_len() == utf8_len(d),
    ensures
        replay_with_rest(c, d, k).1 == Ok::<WordCursorResult, WordCursorError>(
            WordCursorResult::Boundary(first_boundary_after(d, k, origin as int) as usize),
        ),
    decreases d.len() - k,
{
    let rest = d.skip(k);
    assert(d =~= d.take(k) + rest);
    lemma_utf8_len_concat(d.take(k), rest);
    assert(rest.len() > 0);
    law_forward_replay_step(c, rest, origin);
    lemma_segment_end_in_document(d, k);
    let e = byte_offset(d, k) + first_segment_end(rest);
    if e <= origin {
        let k2 = choose|k2: int| 0 <= k2 <= d.len() && #[trigger] byte_offset(d, k2) == e;
        let w = choose|k2: int| k < k2 <= d.len() && #[trigger] byte_offset(d, k2) == e;
        lemma_byte_offset_injective(d, k2, w);
        lemma_byte_offset_full(d);
        if k2 == d.len() {
            assert(e == c.len);
        }
        let stepped = c.next_boundary_spec(rest, byte_offset(d, k) as usize);
        law_replay_finds_first_boundary_after(stepped.0, d, k2, origin);
    }
}

/// The last boundary before byte `origin` of the contiguous word
/// segmentation of `d` taken from the back, searching from the segment
/// that ends at its scalar offset `k`.
pub open spec fn last_boundary_before(d: Seq<char>, k: int, origin: int) -> int
    decreases k,
{
    let s = last_segment_start(d.take(k));
    if s < origin || k <= 0 {
        s
    } else {
        let k2 = choose|k2: int| 0 <= k2 <= d.len() && #[trigger] byte_offset(d, k2) == s;
        if 0 <= k2 < k {
            last_boundary_before(d, k2, origin)
        } else {
            s
        }
    }
}

/// A reverse replay at the scalar offset `k` of `d`, given all of `d` before
/// it each time it asks for the chunk that ends at a restart point. The
/// cursor and the result when it stops.
pub open spec fn replay_with_prefix(c: WordCursor, d: Seq<char>, k: int) -> (
    WordCursor,
    Result<WordCursorResult, WordCursorError>,
)
    decreases k,
{
    let stepped = c.prev_boundary_spec(d.take(k), 0);
    match stepped.1 {
        Ok(WordCursorResult::PrevChunk(x)) => {
            let k2 = choose|k2: int| 0 <= k2 <= d.len() && #[trigger] byte_offset(d, k2) == x;
            if 0 < k2 < k {
                replay_with_prefix(stepped.0, d, k2)
            } else {
                stepped
            }
        },
        _ => stepped,
    }
}

/// Arbitrary-offset queries, reverse: a cursor replaying toward `origin`
/// from the segment that ends at scalar offset `k` of `d` (as it does from
/// the document end once its post-context requests are answered), given all
/// of the document before it whenever it asks, reports the last boundary of
/// the contiguous segmentation, taken from the back, before `origin`.
pub proof fn law_replay_finds_last_boundary_before(
    c: WordCursor,
    d: Seq<char>,
    k: int,
    origin: usize,
)
    requires
        c.wf(),
        c.state_of() == (CursorState::ReverseReplay { origin }),
        c.reverse_at_segment_end(),
        0 < k <= d.len(),
        c.offset_of() == byte_offset(d, k),
        c.doc_len() == utf8_len(d),
    ensures
        replay_with_prefix(c, d, k).1 == Ok::<WordCursorResult, WordCursorError>(
            WordCursorResult::Boundary(last_boundary_before(d, k, origin as int) as usize),
        ),
    decreases k,
{
    let prefix = d.take(k);
    assert(d =~= prefix + d.skip(k));
    lemma_utf8_len_concat(prefix, d.skip(k));
    law_reverse_replay_step(c, prefix, origin);
    lemma_whole_document_reverse(prefix);
    let s = last_segment_start(prefix);
    if s >= origin {
        let j = choose|j: int| 0 <= j <= prefix.len() && byte_offset(prefix, j) == s;
        assert(prefix.take(j) =~= d.take(j));
        assert(byte_offset(d, j) == s);
        lemma_byte_offset_full(prefix);
        if j == k {
            assert(s == utf8_len(prefix));
        }
        let k2 = choose|k2: int| 0 <= k2 <= d.len() && #[trigger] byte_offset(d, k2) == s;
        lemma_byte_offset_injective(d, k2, j);
        if j == 0 {
            assert(d.take(0) =~= Seq::<char>::empty());
        }
        let stepped = c.prev_boundary_spec(prefix, 0);
        law_replay_finds_last_boundary_before(stepped.0, d, k2, origin);
    }
}

/// What a fresh cursor is, in terms of the cursor's public state, for any
/// offset and length.
pub proof fn law_fresh_accessors(offset: usize, len: usize, known_boundary: bool)
    ensures
        WordCursor::fresh(offset, len, known_boundary).offset_of() == offset,
        WordCursor::fresh(offset, len, known_boundary).doc_len() == len,
        WordCursor::fresh(offset, len, known_boundary).state_of() == CursorState::Idle,
        WordCursor::fresh(offset, len, known_boundary).at_known_boundary() == known_boundary,
        WordCursor::fresh(offset, len, known_boundary).forward_at_segment_start(),
        WordCursor::fresh(offset, len, known_boundary).reverse_at_segment_end(),
{
}

/// The answers of a forward query step: an offset not known to be a
/// boundary first asks for the text before it; a context chunk moves the
/// request to its start, or, at the document start, begins the replay there;
/// a chunk request names an offset before the document end; a boundary lies
/// in the document, at or before the chunk's end, and the cursor rests there;
/// a context request names an offset after the start and no later than the
/// query's origin.
pub proof fn law_next_boundary_results(c: WordCursor, chunk: Seq<char>, start: usize)
    requires
        c.wf(),
    ensures
        ({
            let (d, r) = c.next_boundary_spec(chunk, start);
            &&& (c.state_of() == CursorState::Idle && !c.at_known_boundary() && forward_chunk_error(
                c.offset_of(),
                c.doc_len(),
                utf8_len(chunk),
                start,
            ) is None) ==> r == Ok::<WordCursorResult, WordCursorError>(
                WordCursorResult::PreContext(c.offset_of()),
            ) && d.state_of() == (CursorState::ForwardPreContext { origin: c.offset_of() })
                && d.offset_of() == c.offset_of()
            &&& (c.state_of() is ForwardPreContext && reverse_chunk_error(
                c.offset_of(),
                c.doc_len(),
                utf8_len(chunk),
                start,
            ) is None) ==> (start == 0 ==> r == Ok::<WordCursorResult, WordCursorError>(
                WordCursorResult::NextChunk(0),
            ) && d.state_of() == (CursorState::ForwardReplay {
                origin: c.state_of()->ForwardPreContext_origin,
            }) && d.offset_of() == 0 && d.forward_at_segment_start()) && (start > 0 ==> r
                == Ok::<WordCursorResult, WordCursorError>(WordCursorResult::PreContext(start))
                && d.state_of() == c.state_of() && d.offset_of() == start)
            &&& (r matches Ok(WordCursorResult::NextChunk(n)) ==> n < c.doc_len() && d.offset_of()
                == n && direction_of(d.state_of()) == Some(Direction::Forward))
            &&& (r matches Ok(WordCursorResult::Boundary(b)) ==> b <= c.doc_len() && b <= start
                + utf8_len(chunk) && d == WordCursor::fresh(b, c.doc_len(), true))
            &&& (r matches Ok(WordCursorResult::PreContext(n)) ==> (d.state_of() matches CursorState::ForwardPreContext { origin } && 0 < n <= origin))
        }),
{
    law_next_boundary_step(c, chunk, start);
    lemma_utf8_len_ge(chunk);
    if forward_chunk_error(c.offset, c.len, utf8_len(chunk), start) is None {
        if c.state is Idle && c.known_boundary && c.offset != c.len {
            lemma_forward_search(WordCursor { state: CursorState::ForwardSearch, ..c }, chunk, start);
            lemma_forward_scan_bounds(c.forward, chunk, start as int);
        } else if c.state is ForwardSearch || c.state is ForwardReplay {
            lemma_forward_search(c, chunk, start);
            lemma_forward_scan_bounds(c.forward, chunk, start as int);
        }
    }
}

/// The answers of a reverse query step: the mirror image of
/// `law_next_boundary_results`, with the text after an unknown offset asked
/// for first, and the replay begun at the document end.
pub proof fn law_prev_boundary_results(c: WordCursor, chunk: Seq<char>, start: usize)
    requires
        c.wf(),
    ensures
        ({
            let (d, r) = c.prev_boundary_spec(chunk, start);
            let end = start + utf8_len(chunk);
            &&& (c.state_of() == CursorState::Idle && !c.at_known_boundary() && reverse_chunk_error(
                c.offset_of(),
                c.doc_len(),
                utf8_len(chunk),
                start,
            ) is None) ==> r == Ok::<WordCursorResult, WordCursorError>(
                WordCursorResult::PostContext(c.offset_of()),
            ) && d.state_of() == (CursorState::ReversePostContext { origin: c.offset_of() })
                && d.offset_of() == c.offset_of()
            &&& (c.state_of() is ReversePostContext && forward_chunk_error(
                c.offset_of(),
                c.doc_len(),
                utf8_len(chunk),
                start,
            ) is None) ==> (end == c.doc_len() ==> r == Ok::<WordCursorResult, WordCursorError>(
                WordCursorResult::PrevChunk(c.doc_len()),
            ) && d.state_of() == (CursorState::ReverseReplay {
                origin: c.state_of()->ReversePostContext_origin,
            }) && d.offset_of() == c.doc_len() && d.reverse_at_segment_end()) && (end
                < c.doc_len() ==> r == Ok::<WordCursorResult, WordCursorError>(
                WordCursorResult::PostContext(end as usize),
            ) && d.state_of() == c.state_of() && d.offset_of() == end)
            &&& (r matches Ok(WordCursorResult::PrevChunk(n)) ==> 0 < n <= c.doc_len()
                && d.offset_of() == n && direction_of(d.state_of()) == Some(Direction::Reverse))
            &&& (r matches Ok(WordCursorResult::Boundary(b)) ==> start <= b && d == WordCursor::fresh(
                b,
                c.doc_len(),
                true,
            ))
            &&& (r matches Ok(WordCursorResult::PostContext(n)) ==> (d.state_of() matches CursorState::ReversePostContext { origin } && origin <= n < c.doc_len()))
        }),
{
    law_prev_boundary_step(c, chunk, start);
    lemma_utf8_len_ge(chunk);
    if reverse_chunk_error(c.offset, c.len, utf8_len(chunk), start) is None {
        if c.state is Idle && c.known_boundary && c.offset != 0 {
            lemma_reverse_search(WordCursor { state: CursorState::ReverseSearch, ..c }, chunk, start);
            lemma_reverse_scan_bounds(c.reverse, chunk, c.offset as int, c.len as int);
        } else if c.state is ReverseSearch || c.state is ReverseReplay {
            lemma_reverse_search(c, chunk, start);
            lemma_reverse_scan_bounds(c.reverse, chunk, c.offset as int, c.len as int);
        }
    }
}

/// A forward query from a cursor created at scalar offset `ko` of `d`,
/// answered with whole chunks: the rest of the document from the cursor on
/// the first call, all of the document before the requested context end,
/// and the rest of the document from each requested chunk start. The cursor
/// and the result when it stops.
pub open spec fn forward_query_whole(d: Seq<char>, ko: int) -> (
    WordCursor,
    Result<WordCursorResult, WordCursorError>,
) {
    let o = byte_offset(d, ko) as usize;
    let len = utf8_len(d) as usize;
    let first = WordCursor::fresh(o, len, o == 0 || o == len).next_boundary_spec(d.skip(ko), o);
    match first.1 {
        Ok(WordCursorResult::PreContext(_)) => {
            let second = first.0.next_boundary_spec(d.take(ko), 0);
            match second.1 {
                Ok(WordCursorResult::NextChunk(_)) => replay_with_rest(second.0, d, 0),
                _ => second,
            }
        },
        _ => first,
    }
}

/// A reverse query from a cursor created at scalar offset `ko` of `d`,
/// answered with whole chunks: all of the document before the cursor on the
/// first call, the rest of the document from the requested context start,
/// and all of the document before each requested chunk end.
pub open spec fn reverse_query_whole(d: Seq<char>, ko: int) -> (
    WordCursor,
    Result<WordCursorResult, WordCursorError>,
) {
    let o = byte_offset(d, ko) as usize;
    let len = utf8_len(d) as usize;
    let first = WordCursor::fresh(o, len, o == 0 || o == len).prev_boundary_spec(d.take(ko), 0);
    match first.1 {
        Ok(WordCursorResult::PostContext(_)) => {
            let second = first.0.prev_boundary_spec(d.skip(ko), o);
            match second.1 {
                Ok(WordCursorResult::PrevChunk(_)) => replay_with_prefix(
                    second.0,
                    d,
                    d.len() as int,
                ),
                _ => second,
            }
        },
        _ => first,
    }
}

/// Arbitrary-offset queries, forward, end to end: a cursor created at any
/// scalar offset `o` of a document, asking for context back to the start
/// and then replaying, reports the first boundary of the contiguous
/// segmentation after `o`, or `End` at the document end.
pub proof fn law_forward_query_from_any_offset(d: Seq<char>, ko: int)
    requires
        0 <= ko <= d.len(),
        utf8_len(d) <= usize::MAX,
    ensures
        ko == d.len() ==> forward_query_whole(d, ko).1 == Ok::<WordCursorResult, WordCursorError>(
            WordCursorResult::End,
        ),
        ko < d.len() ==> forward_query_whole(d, ko).1 == Ok::<WordCursorResult, WordCursorError>(
            WordCursorResult::Boundary(first_boundary_after(d, 0, byte_offset(d, ko) as int) as usize),
        ),
{
    let n = d.len() as int;
    let o = byte_offset(d, ko) as usize;
    let len = utf8_len(d) as usize;
    lemma_byte_offset_full(d);
    lemma_utf8_len_ge(d);
    assert(d =~= d.take(ko) + d.skip(ko));
    lemma_utf8_len_concat(d.take(ko), d.skip(ko));
    assert(d.take(0) =~= Seq::<char>::empty());
    assert(d.skip(0) =~= d);
    assert(d.take(n) =~= d);
    if o == 0 {
        lemma_byte_offset_injective(d, ko, 0);
    }
    if o == len {
        lemma_byte_offset_injective(d, ko, n);
    }
    let c0 = WordCursor::fresh(o, len, o == 0 || o == len);
    lemma_fresh_wf(o, len, o == 0 || o == len);
    law_next_boundary_step(c0, d.skip(ko), o);
    if ko == n {
    } else if ko == 0 {
        law_forward_search_from_boundary(d, 0);
        lemma_whole_document_forward(d);
    } else {
        law_next_boundary_results(c0, d.skip(ko), o);
        let first = c0.next_boundary_spec(d.skip(ko), o);
        law_next_boundary_step(first.0, d.take(ko), 0);
        law_next_boundary_results(first.0, d.take(ko), 0);
        let second = first.0.next_boundary_spec(d.take(ko), 0);
        law_replay_finds_first_boundary_after(second.0, d, 0, o);
    }
}

/// Arbitrary-offset queries, reverse, end to end: a cursor created at any
/// scalar offset `o` of a document, asking for context up to the end and
/// then replaying, reports the last boundary before `o` of the contiguous
/// segmentation taken from the back, or `End` at the document start.
pub proof fn law_reverse_query_from_any_offset(d: Seq<char>, ko: int)
    requires
        0 <= ko <= d.len(),
        utf8_len(d) <= usize::MAX,
    ensures
        ko == 0 ==> reverse_query_whole(d, ko).1 == Ok::<WordCursorResult, WordCursorError>(
            WordCursorResult::End,
        ),
        0 < ko ==> reverse_query_whole(d, ko).1 == Ok::<WordCursorResult, WordCursorError>(
            WordCursorResult::Boundary(
                last_boundary_before(d, d.len() as int, byte_offset(d, ko) as int) as usize,
            ),
        ),
{
    let n = d.len() as int;
    let o = byte_offset(d, ko) as usize;
    let len = utf8_len(d) as usize;
    lemma_byte_offset_full(d);
    lemma_utf8_len_ge(d);
    assert(d =~= d.take(ko) + d.skip(ko));
    lemma_utf8_len_concat(d.take(ko), d.skip(ko));
    assert(d.take(0) =~= Seq::<char>::empty());
    assert(d.skip(n) =~= Seq::<char>::empty());
    assert(d.take(n) =~= d);
    if o == 0 {
        lemma_byte_offset_injective(d, ko, 0);
    }
    if o == len {
        lemma_byte_offset_injective(d, ko, n);
    }
    let c0 = WordCursor::fresh(o, len, o == 0 || o == len);
    lemma_fresh_wf(o, len, o == 0 || o == len);
    law_prev_boundary_step(c0, d.take(ko), 0);
    if ko == 0 {
    } else if ko == n {
        law_reverse_search_from_boundary(d, len);
        lemma_whole_document_reverse(d);
    } else {
        law_prev_boundary_results(c0, d.take(ko), 0);
        let first = c0.prev_boundary_spec(d.take(ko), 0);
        law_prev_boundary_step(first.0, d.skip(ko), o);
        law_prev_boundary_results(first.0, d.skip(ko), o);
        let second = first.0.prev_boundary_spec(d.skip(ko), o);
        law_replay_finds_last_boundary_before(second.0, d, n, o);
    }
}

/// A forward query's requests for the text before its offset answered with
/// `pieces`, from the last to the first: each earlier piece goes in while the
/// cursor asks for the text that ends where the later piece began. The
/// cursor and the result when it stops.
pub open spec fn feed_context(c: WordCursor, pieces: Seq<Seq<char>>, end: int) -> (
    WordCursor,
    Result<WordCursorResult, WordCursorError>,
)
    decreases pieces.len(),
{
    if pieces.len() == 0 {
        (c, Ok(WordCursorResult::PreContext(end as usize)))
    } else {
        let start = end - utf8_len(pieces.last());
        let stepped = c.next_boundary_spec(pieces.last(), start as usize);
        if pieces.len() > 1 && stepped.1 == Ok::<WordCursorResult, WordCursorError>(
            WordCursorResult::PreContext(start as usize),
        ) {
            feed_context(stepped.0, pieces.drop_last(), start)
        } else {
            stepped
        }
    }
}

/// A forward replay at scalar offset `k` of `d`, fed at each restart point
/// the rest of `d` cut into the pieces `cuts(k)`.
pub open spec fn replay_with_cuts(
    c: WordCursor,
    d: Seq<char>,
    k: int,
    cuts: spec_fn(int) -> Seq<Seq<char>>,
) -> (WordCursor, Result<WordCursorResult, WordCursorError>)
    decreases d.len() - k,
{
    let stepped = feed_forward(c, cuts(k), byte_offset(d, k) as int);
    match stepped.1 {
        Ok(WordCursorResult::NextChunk(x)) => {
            let k2 = choose|k2: int| 0 <= k2 <= d.len() && #[trigger] byte_offset(d, k2) == x;
            if k < k2 < d.len() {
                replay_with_cuts(stepped.0, d, k2, cuts)
            } else {
                stepped
            }
        },
        _ => stepped,
    }
}

/// A forward query from a cursor created at scalar offset `ko` of `d`: the
/// first call is given `first`, the requests for the text before `ko` are
/// answered with `pre` (cut anywhere), and each replay request at a scalar
/// offset `k` with `cuts(k)`.
pub open spec fn forward_query_cut(
    d: Seq<char>,
    ko: int,
    first: Seq<char>,
    pre: Seq<Seq<char>>,
    cuts: spec_fn(int) -> Seq<Seq<char>>,
) -> (WordCursor, Result<WordCursorResult, WordCursorError>) {
    let o = byte_offset(d, ko) as usize;
    let len = utf8_len(d) as usize;
    let r1 = WordCursor::fresh(o, len, o == 0 || o == len).next_boundary_spec(first, o);
    match r1.1 {
        Ok(WordCursorResult::PreContext(_)) => {
            let r2 = feed_context(r1.0, pre, o as int);
            match r2.1 {
                Ok(WordCursorResult::NextChunk(_)) => replay_with_cuts(r2.0, d, 0, cuts),
                _ => r2,
            }
        },
        _ => r1,
    }
}

proof fn lemma_feed_context(c: WordCursor, pieces: Seq<Seq<char>>, end: int, origin: usize)
    requires
        c.wf(),
        c.state_of() == (CursorState::ForwardPreContext { origin }),
        c.offset_of() == end,
        pieces.len() > 0,
        forall|i: int| 0 <= i < pieces.len() ==> #[trigger] pieces[i].len() > 0,
        utf8_len(pieces.flatten()) == end,
    ensures
        feed_context(c, pieces, end).1 == Ok::<WordCursorResult, WordCursorError>(
            WordCursorResult::NextChunk(0),
        ),
        feed_context(c, pieces, end).0.state_of() == (CursorState::ForwardReplay { origin }),
        feed_context(c, pieces, end).0.offset_of() == 0,
        feed_context(c, pieces, end).0.forward_at_segment_start(),
        feed_context(c, pieces, end).0.wf(),
        feed_context(c, pieces, end).0.doc_len() == c.doc_len(),
    decreases pieces.len(),
{
    let last = pieces.last();
    let init = pieces.drop_last();
    assert(pieces =~= init.push(last));
    init.lemma_flatten_push(last);
    lemma_utf8_len_concat(init.flatten(), last);
    lemma_utf8_len_ge(last);
    let start = end - utf8_len(last);
    law_next_boundary_step(c, last, start as usize);
    law_next_boundary_results(c, last, start as usize);
    if pieces.len() > 1 {
        assert(init[0] == pieces[0]);
        assert(init.flatten() == init[0] + init.drop_first().flatten());
        lemma_utf8_len_concat(init[0], init.drop_first().flatten());
        lemma_utf8_len_ge(init[0]);
        assert forall|i: int| 0 <= i < init.len() implies #[trigger] init[i].len() > 0 by {
            assert(init[i] == pieces[i]);
        }
        let stepped = c.next_boundary_spec(last, start as usize);
        lemma_feed_context(stepped.0, init, start, origin);
    } else {
        assert(init.flatten() =~= Seq::<char>::empty());
    }
}

proof fn lemma_replay_with_cuts(
    c: WordCursor,
    d: Seq<char>,
    k: int,
    cuts: spec_fn(int) -> Seq<Seq<char>>,
    origin: usize,
)
    requires
        c.wf(),
        c.state_of() == (CursorState::ForwardReplay { origin }),
        c.forward_at_segment_start(),
        0 <= k < d.len(),
        c.offset_of() == byte_offset(d, k),
        c.doc_len() == utf8_len(d),
        forall|j: int|
            0 <= j < d.len() ==> (#[trigger] cuts(j)).flatten() == d.skip(j) && cuts(j).len() > 0
                && forall|i: int| 0 <= i < cuts(j).len() ==> #[trigger] cuts(j)[i].len() > 0,
    ensures
        replay_with_cuts(c, d, k, cuts) == replay_with_rest(c, d, k),
    decreases d.len() - k,
{
    let rest = d.skip(k);
    assert(d =~= d.take(k) + rest);
    lemma_utf8_len_concat(d.take(k), rest);
    lemma_feed_forward(c, cuts(k), byte_offset(d, k) as int);
    law_forward_replay_step(c, rest, origin);
    lemma_segment_end_in_document(d, k);
    let stepped = c.next_boundary_spec(rest, byte_offset(d, k) as usize);
    if let Ok(WordCursorResult::NextChunk(x)) = stepped.1 {
        let k2 = choose|k2: int| 0 <= k2 <= d.len() && #[trigger] byte_offset(d, k2) == x;
        if k < k2 < d.len() {
            lemma_replay_with_cuts(stepped.0, d, k2, cuts, origin);
        }
    }
}

/// Arbitrary-offset queries, forward, under any cuts: a cursor created at a
/// scalar offset `ko` strictly inside a document, given any first chunk
/// that begins there, the text before it in any pieces, and the rest of the
/// document from each restart point in any pieces, reports the first
/// boundary of the contiguous segmentation after `ko`.
pub proof fn law_forward_query_any_partition(
    d: Seq<char>,
    ko: int,
    first: Seq<char>,
    pre: Seq<Seq<char>>,
    cuts: spec_fn(int) -> Seq<Seq<char>>,
)
    requires
        0 < ko < d.len(),
        utf8_len(d) <= usize::MAX,
        first.len() > 0,
        byte_offset(d, ko) + utf8_len(first) <= utf8_len(d),
        pre.len() > 0,
        forall|i: int| 0 <= i < pre.len() ==> #[trigger] pre[i].len() > 0,
        pre.flatten() == d.take(ko),
        forall|j: int|
            0 <= j < d.len() ==> (#[trigger] cuts(j)).flatten() == d.skip(j) && cuts(j).len() > 0
                && forall|i: int| 0 <= i < cuts(j).len() ==> #[trigger] cuts(j)[i].len() > 0,
    ensures
        forward_query_cut(d, ko, first, pre, cuts).1 == Ok::<WordCursorResult, WordCursorError>(
            WordCursorResult::Boundary(first_boundary_after(d, 0, byte_offset(d, ko) as int) as usize),
        ),
{
    let n = d.len() as int;
    let o = byte_offset(d, ko) as usize;
    let len = utf8_len(d) as usize;
    lemma_byte_offset_full(d);
    lemma_byte_offset_mono(d, 0, ko);
    lemma_byte_offset_mono(d, ko, n);
    assert(d.take(0) =~= Seq::<char>::empty());
    lemma_utf8_len_ge(first);
    let c0 = WordCursor::fresh(o, len, false);
    lemma_fresh_wf(o, len, false);
    law_next_boundary_results(c0, first, o);
    let r1 = c0.next_boundary_spec(first, o);
    law_next_boundary_step(c0, first, o);
    assert(d =~= d.take(ko) + d.skip(ko));
    lemma_utf8_len_concat(d.take(ko), d.skip(ko));
    assert(utf8_len(pre.flatten()) == o);
    lemma_feed_context(r1.0, pre, o as int, o);
    let r2 = feed_context(r1.0, pre, o as int);
    assert(d.skip(0) =~= d);
    lemma_replay_with_cuts(r2.0, d, 0, cuts, o);
    law_replay_finds_first_boundary_after(r2.0, d, 0, o);
}

/// A reverse query's requests for the text after its offset answered with
/// `pieces`, from the first to the last: each later piece goes in while the
/// cursor asks for the text that begins where the earlier piece ended. The
/// cursor and the result when it stops.
pub open spec fn feed_post_context(c: WordCursor, pieces: Seq<Seq<char>>, start: int) -> (
    WordCursor,
    Result<WordCursorResult, WordCursorError>,
)
    decreases pieces.len(),
{
    if pieces.len() == 0 {
        (c, Ok(WordCursorResult::PostContext(start as usize)))
    } else {
        let end = start + utf8_len(pieces[0]);
        let stepped = c.prev_boundary_spec(pieces[0], start as usize);
        if pieces.len() > 1 && stepped.1 == Ok::<WordCursorResult, WordCursorError>(
            WordCursorResult::PostContext(end as usize),
        ) {
            feed_post_context(stepped.0, pieces.drop_first(), end)
        } else {
            stepped
        }
    }
}

/// A reverse replay at scalar offset `k` of `d`, fed at each restart point
/// all of `d` before it cut into the pieces `cuts(k)`.
pub open spec fn replay_with_prefix_cuts(
    c: WordCursor,
    d: Seq<char>,
    k: int,
    cuts: spec_fn(int) -> Seq<Seq<char>>,
) -> (WordCursor, Result<WordCursorResult, WordCursorError>)
    decreases k,
{
    let stepped = feed_backward(c, cuts(k), byte_offset(d, k) as int);
    match stepped.1 {
        Ok(WordCursorResult::PrevChunk(x)) => {
            let k2 = choose|k2: int| 0 <= k2 <= d.len() && #[trigger] byte_offset(d, k2) == x;
            if 0 < k2 < k {
                replay_with_prefix_cuts(stepped.0, d, k2, cuts)
            } else {
                stepped
            }
        },
        _ => stepped,
    }
}

/// A reverse query from a cursor created at scalar offset `ko` of `d`: the
/// first call is given `first` (the text just before `ko`), the requests
/// for the text after `ko` are answered with `post` (cut anywhere), and
/// each replay request at a scalar offset `k` with `cuts(k)`.
pub open spec fn reverse_query_cut(
    d: Seq<char>,
    ko: int,
    first: Seq<char>,
    post: Seq<Seq<char>>,
    cuts: spec_fn(int) -> Seq<Seq<char>>,
) -> (WordCursor, Result<WordCursorResult, WordCursorError>) {
    let o = byte_offset(d, ko) as usize;
    let len = utf8_len(d) as usize;
    let r1 = WordCursor::fresh(o, len, o == 0 || o == len).prev_boundary_spec(
        first,
        (o - utf8_len(first)) as usize,
    );
    match r1.1 {
        Ok(WordCursorResult::PostContext(_)) => {
            let r2 = feed_post_context(r1.0, post, o as int);
            match r2.1 {
                Ok(WordCursorResult::PrevChunk(_)) => replay_with_prefix_cuts(
                    r2.0,
                    d,
                    d.len() as int,
                    cuts,
                ),
                _ => r2,
            }
        },
        _ => r1,
    }
}

proof fn lemma_feed_post_context(c: WordCursor, pieces: Seq<Seq<char>>, start: int, origin: usize)
    requires
        c.wf(),
        c.state_of() == (CursorState::ReversePostContext { origin }),
        c.offset_of() == start,
        pieces.len() > 0,
        forall|i: int| 0 <= i < pieces.len() ==> #[trigger] pieces[i].len() > 0,
        start + utf8_len(pieces.flatten()) == c.doc_len(),
    ensures
        feed_post_context(c, pieces, start).1 == Ok::<WordCursorResult, WordCursorError>(
            WordCursorResult::PrevChunk(c.doc_len()),
        ),
        feed_post_context(c, pieces, start).0.state_of() == (CursorState::ReverseReplay { origin }),
        feed_post_context(c, pieces, start).0.offset_of() == c.doc_len(),
        feed_post_context(c, pieces, start).0.reverse_at_segment_end(),
        feed_post_context(c, pieces, start).0.wf(),
        feed_post_context(c, pieces, start).0.doc_len() == c.doc_len(),
    decreases pieces.len(),
{
    let p0 = pieces[0];
    let tail = pieces.drop_first();
    assert(pieces.flatten() == p0 + tail.flatten());
    lemma_utf8_len_concat(p0, tail.flatten());
    lemma_utf8_len_ge(p0);
    law_prev_boundary_step(c, p0, start as usize);
    law_prev_boundary_results(c, p0, start as usize);
    if pieces.len() > 1 {
        assert(tail[0] == pieces[1]);
        assert(tail.flatten() == tail[0] + tail.drop_first().flatten());
        lemma_utf8_len_concat(tail[0], tail.drop_first().flatten());
        lemma_utf8_len_ge(tail[0]);
        assert forall|i: int| 0 <= i < tail.len() implies #[trigger] tail[i].len() > 0 by {
            assert(tail[i] == pieces[i + 1]);
        }
        let stepped = c.prev_boundary_spec(p0, start as usize);
        lemma_feed_post_context(stepped.0, tail, start + utf8_len(p0), origin);
    } else {
        assert(tail.flatten() =~= Seq::<char>::empty());
    }
}

proof fn lemma_replay_with_prefix_cuts(
    c: WordCursor,
    d: Seq<char>,
    k: int,
    cuts: spec_fn(int) -> Seq<Seq<char>>,
    origin: usize,
)
    requires
        c.wf(),
        c.state_of() == (CursorState::ReverseReplay { origin }),
        c.reverse_at_segment_end(),
        0 < k <= d.len(),
        c.offset_of() == byte_offset(d, k),
        c.doc_len() == utf8_len(d),
        forall|j: int|
            0 < j <= d.len() ==> (#[trigger] cuts(j)).flatten() == d.take(j) && cuts(j).len() > 0
                && forall|i: int| 0 <= i < cuts(j).len() ==> #[trigger] cuts(j)[i].len() > 0,
    ensures
        replay_with_prefix_cuts(c, d, k, cuts) == replay_with_prefix(c, d, k),
    decreases k,
{
    let prefix = d.take(k);
    assert(prefix.take(k) =~= prefix);
    lemma_byte_offset_full(prefix);
    assert(utf8_len(prefix) == byte_offset(d, k));
    lemma_feed_backward(c, cuts(k), byte_offset(d, k) as int);
    law_reverse_replay_step(c, prefix, origin);
    let stepped = c.prev_boundary_spec(prefix, 0);
    if let Ok(WordCursorResult::PrevChunk(x)) = stepped.1 {
        lemma_whole_document_reverse(prefix);
        let s2 = last_segment_start(prefix);
        let k3 = choose|k3: int| 0 <= k3 <= prefix.len() && #[trigger] byte_offset(prefix, k3) == s2;
        assert(prefix.take(k3) =~= d.take(k3));
        assert(byte_offset(d, k3) == x);
        let k2 = choose|k2: int| 0 <= k2 <= d.len() && #[trigger] byte_offset(d, k2) == x;
        if 0 < k2 < k {
            lemma_replay_with_prefix_cuts(stepped.0, d, k2, cuts, origin);
        }
    }
}

/// Arbitrary-offset queries, reverse, under any cuts: a cursor created at a
/// scalar offset `ko` strictly inside a document, given any first chunk
/// that ends there, the text after it in any pieces, and all of the
/// document before each restart point in any pieces, reports the last
/// boundary before `ko` of the segmentation taken from the back.
pub proof fn law_reverse_query_any_partition(
    d: Seq<char>,
    ko: int,
    first: Seq<char>,
    post: Seq<Seq<char>>,
    cuts: spec_fn(int) -> Seq<Seq<char>>,
)
    requires
        0 < ko < d.len(),
        utf8_len(d) <= usize::MAX,
        first.len() > 0,
        utf8_len(first) <= byte_offset(d, ko),
        post.len() > 0,
        forall|i: int| 0 <= i < post.len() ==> #[trigger] post[i].len() > 0,
        post.flatten() == d.skip(ko),
        forall|j: int|
            0 < j <= d.len() ==> (#[trigger] cuts(j)).flatten() == d.take(j) && cuts(j).len() > 0
                && forall|i: int| 0 <= i < cuts(j).len() ==> #[trigger] cuts(j)[i].len() > 0,
    ensures
        reverse_query_cut(d, ko, first, post, cuts).1 == Ok::<WordCursorResult, WordCursorError>(
            WordCursorResult::Boundary(
                last_boundary_before(d, d.len() as int, byte_offset(d, ko) as int) as usize,
            ),
        ),
{
    let n = d.len() as int;
    let o = byte_offset(d, ko) as usize;
    let len = utf8_len(d) as usize;
    lemma_byte_offset_full(d);
    lemma_byte_offset_mono(d, 0, ko);
    lemma_byte_offset_mono(d, ko, n);
    assert(d.take(0) =~= Seq::<char>::empty());
    lemma_utf8_len_ge(first);
    let c0 = WordCursor::fresh(o, len, false);
    lemma_fresh_wf(o, len, false);
    let st = (o - utf8_len(first)) as usize;
    law_prev_boundary_results(c0, first, st);
    law_prev_boundary_step(c0, first, st);
    let r1 = c0.prev_boundary_spec(first, st);
    assert(d =~= d.take(ko) + d.skip(ko));
    lemma_utf8_len_concat(d.take(ko), d.skip(ko));
    lemma_feed_post_context(r1.0, post, o as int, o);
    let r2 = feed_post_context(r1.0, post, o as int);
    assert(d.take(n) =~= d);
    lemma_replay_with_prefix_cuts(r2.0, d, n, cuts, o);
    law_replay_finds_last_boundary_before(r2.0, d, n, o);
}

impl WordCursor {
    /// The cursor is at rest at byte `o0`, or in the middle of a forward
    /// query that began there.
    pub closed spec fn in_forward_query(self, o0: int) -> bool {
        &&& self.wf()
        &&& match self.state {
            CursorState::Idle => self.offset == o0,
            CursorState::ForwardPreContext { origin } => origin == o0,
            CursorState::ForwardReplay { origin } => origin == o0,
            CursorState::ForwardSearch => o0 < self.offset && self.forward.significant is Some
                && o0 <= self.forward.significant_offset,
            _ => false,
        }
    }

    /// The cursor is at rest at byte `o0`, or in the middle of a reverse
    /// query that began there.
    pub closed spec fn in_reverse_query(self, o0: int) -> bool {
        &&& self.wf()
        &&& match self.state {
            CursorState::Idle => self.offset == o0,
            CursorState::ReversePostContext { origin } => origin == o0,
            CursorState::ReverseReplay { origin } => origin == o0,
            CursorState::ReverseSearch => self.offset < o0 && reverse_ordered(
                self.reverse,
                self.offset as int,
                o0,
            ),
            _ => false,
        }
    }
}

/// A cursor fresh from `new` or `set_cursor` at `offset` may begin a query
/// in either direction from there.
pub proof fn law_fresh_begins_queries(offset: usize, len: usize, known_boundary: bool)
    requires
        offset <= len,
        !known_boundary ==> 0 < offset < len,
    ensures
        WordCursor::fresh(offset, len, known_boundary).in_forward_query(offset as int),
        WordCursor::fresh(offset, len, known_boundary).in_reverse_query(offset as int),
{
}

/// Whole-query progress, forward: every call of a forward query that began
/// at byte `o0` either fails and leaves the cursor as it was, or answers
/// within the query: a boundary strictly after `o0`, a request for the
/// chunk at an offset before the document end or for context ending at an
/// offset no later than `o0`, after which the query goes on from the same
/// origin, or `End` at the document end; never a reverse-direction request.
#[verifier::rlimit(60)]
pub proof fn law_forward_query_progress(c: WordCursor, o0: int, chunk: Seq<char>, start: usize)
    requires
        c.in_forward_query(o0),
    ensures
        ({
            let (d, r) = c.next_boundary_spec(chunk, start);
            &&& r is Err ==> d == c
            &&& r matches Ok(WordCursorResult::Boundary(b)) ==> o0 < b <= c.doc_len() && d
                == WordCursor::fresh(b, c.doc_len(), true)
            &&& r matches Ok(WordCursorResult::NextChunk(n)) ==> n < c.doc_len() && d.offset_of()
                == n && d.in_forward_query(o0)
            &&& r matches Ok(WordCursorResult::PreContext(n)) ==> 0 < n <= o0 && d.offset_of()
                == n && d.in_forward_query(o0)
            &&& r == Ok::<WordCursorResult, WordCursorError>(WordCursorResult::End) ==> o0
                == c.doc_len()
            &&& !(r matches Ok(WordCursorResult::PrevChunk(_)))
            &&& !(r matches Ok(WordCursorResult::PostContext(_)))
        }),
{
    law_next_boundary_step(c, chunk, start);
    law_next_boundary_results(c, chunk, start);
    lemma_utf8_len_ge(chunk);
    if forward_chunk_error(c.offset, c.len, utf8_len(chunk), start) is None {
        if c.state is Idle && c.known_boundary && c.offset != c.len {
            let s = WordCursor { state: CursorState::ForwardSearch, ..c };
            lemma_forward_search(s, chunk, start);
            lemma_forward_scan_bounds(c.forward, chunk, start as int);
        } else if c.state is ForwardSearch || c.state is ForwardReplay {
            lemma_forward_search(c, chunk, start);
            lemma_forward_scan_bounds(c.forward, chunk, start as int);
        }
    }
}

/// Whole-query progress, reverse: the mirror image of
/// `law_forward_query_progress`, with boundaries strictly before `o0`,
/// chunk requests at offsets after the document start, context requests
/// from offsets no earlier than `o0`, and `End` at the document start.
#[verifier::rlimit(60)]
pub proof fn law_reverse_query_progress(c: WordCursor, o0: int, chunk: Seq<char>, start: usize)
    requires
        c.in_reverse_query(o0),
    ensures
        ({
            let (d, r) = c.prev_boundary_spec(chunk, start);
            &&& r is Err ==> d == c
            &&& r matches Ok(WordCursorResult::Boundary(b)) ==> b < o0 && d == WordCursor::fresh(
                b,
                c.doc_len(),
                true,
            )
            &&& r matches Ok(WordCursorResult::PrevChunk(n)) ==> 0 < n <= c.doc_len()
                && d.offset_of() == n && d.in_reverse_query(o0)
            &&& r matches Ok(WordCursorResult::PostContext(n)) ==> o0 <= n < c.doc_len()
                && d.offset_of() == n && d.in_reverse_query(o0)
            &&& r == Ok::<WordCursorResult, WordCursorError>(WordCursorResult::End) ==> o0 == 0
            &&& !(r matches Ok(WordCursorResult::NextChunk(_)))
            &&& !(r matches Ok(WordCursorResult::PreContext(_)))
        }),
{
    law_prev_boundary_step(c, chunk, start);
    law_prev_boundary_results(c, chunk, start);
    lemma_utf8_len_ge(chunk);
    if reverse_chunk_error(c.offset, c.len, utf8_len(chunk), start) is None {
        if c.state is Idle && c.known_boundary && c.offset != 0 {
            let s = WordCursor { state: CursorState::ReverseSearch, ..c };
            lemma_reverse_search(s, chunk, start);
            lemma_reverse_scan_bounds(c.reverse, chunk, c.offset as int, o0);
            let scanned = reverse_scan(c.reverse, chunk, c.offset as int);
            if scanned.1 is None {
                lemma_reverse_finish_bounds(scanned.0, start as int, o0);
            }
        } else if c.state is ReverseSearch {
            lemma_reverse_search(c, chunk, start);
            lemma_reverse_scan_bounds(c.reverse, chunk, c.offset as int, o0);
            let scanned = reverse_scan(c.reverse, chunk, c.offset as int);
            if scanned.1 is None {
                lemma_reverse_finish_bounds(scanned.0, start as int, o0);
            }
        } else if c.state is ReverseReplay {
            lemma_reverse_search(c, chunk, start);
        }
    }
}

/// The cursor's offset after a call is the offset its answer names: the
/// boundary, the requested chunk or context edge, the document end after a
/// forward `End` and the start after a reverse `End`; a failed call leaves
/// it where it was. So `cur_cursor` always returns the offset of the last
/// answer (or of `new` / `set_cursor`).
pub proof fn law_offset_follows_answers(c: WordCursor, chunk: Seq<char>, start: usize)
    requires
        c.wf(),
    ensures
        ({
            let (d, r) = c.next_boundary_spec(chunk, start);
            &&& r is Err ==> d.offset_of() == c.offset_of()
            &&& r matches Ok(WordCursorResult::Boundary(n)) ==> d.offset_of() == n
            &&& r matches Ok(WordCursorResult::NextChunk(n)) ==> d.offset_of() == n
            &&& r matches Ok(WordCursorResult::PreContext(n)) ==> d.offset_of() == n
            &&& r == Ok::<WordCursorResult, WordCursorError>(WordCursorResult::End) ==> d.offset_of()
                == c.doc_len()
        }),
        ({
            let (d, r) = c.prev_boundary_spec(chunk, start);
            &&& r is Err ==> d.offset_of() == c.offset_of()
            &&& r matches Ok(WordCursorResult::Boundary(n)) ==> d.offset_of() == n
            &&& r matches Ok(WordCursorResult::PrevChunk(n)) ==> d.offset_of() == n
            &&& r matches Ok(WordCursorResult::PostContext(n)) ==> d.offset_of() == n
            &&& r == Ok::<WordCursorResult, WordCursorError>(WordCursorResult::End) ==> d.offset_of()
                == 0
        }),
{
    law_next_boundary_step(c, chunk, start);
    law_next_boundary_results(c, chunk, start);
    law_prev_boundary_step(c, chunk, start);
    law_prev_boundary_results(c, chunk, start);
}

} // verus!
