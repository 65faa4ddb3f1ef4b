//! Grapheme clusters of a whole string, from either end.

use crate::grapheme_rules::{
    finish_at_start, grapheme_info, is_grapheme_boundary, scan_scalars_back, Lookback,
};
use crate::utf8_len::{
    byte_offset, char_width, collect_scalars, lemma_byte_offset_full, lemma_byte_offset_mono,
    lemma_byte_offset_step, lemma_utf8_len_concat, split_at_scalar, str_len, utf8_len,
};
use vstd::prelude::*;

verus! {

/// The first grapheme boundary of `d` after scalar offset `i`.
pub open spec fn next_boundary_index(d: Seq<char>, i: int, extended: bool) -> int
    decreases d.len() - i,
{
    if i + 1 >= d.len() {
        d.len() as int
    } else if is_grapheme_boundary(d, i + 1, extended) {
        i + 1
    } else {
        next_boundary_index(d, i + 1, extended)
    }
}

/// The last grapheme boundary of `d` before scalar offset `i`.
pub open spec fn prev_boundary_index(d: Seq<char>, i: int, extended: bool) -> int
    decreases i,
{
    if i - 1 <= 0 {
        0
    } else if is_grapheme_boundary(d, i - 1, extended) {
        i - 1
    } else {
        prev_boundary_index(d, i - 1, extended)
    }
}

/// `next_boundary_index` is the first boundary after `i`.
pub proof fn lemma_next_boundary_index(d: Seq<char>, i: int, extended: bool)
    requires
        0 <= i < d.len(),
    ensures
        i < next_boundary_index(d, i, extended) <= d.len(),
        is_grapheme_boundary(d, next_boundary_index(d, i, extended), extended),
        forall|p: int|
            i < p < next_boundary_index(d, i, extended) ==> !is_grapheme_boundary(
                d,
                p,
                extended,
            ),
    decreases d.len() - i,
{
    if i + 1 < d.len() && !is_grapheme_boundary(d, i + 1, extended) {
        lemma_next_boundary_index(d, i + 1, extended);
    }
}

/// `prev_boundary_index` is the last boundary before `i`.
pub proof fn lemma_prev_boundary_index(d: Seq<char>, i: int, extended: bool)
    requires
        0 < i <= d.len(),
    ensures
        0 <= prev_boundary_index(d, i, extended) < i,
        is_grapheme_boundary(d, prev_boundary_index(d, i, extended), extended),
        forall|p: int|
            prev_boundary_index(d, i, extended) < p < i ==> !is_grapheme_boundary(
                d,
                p,
                extended,
            ),
    decreases i,
{
    if i - 1 > 0 && !is_grapheme_boundary(d, i - 1, extended) {
        lemma_prev_boundary_index(d, i - 1, extended);
    }
}

/// The grapheme clusters of a string with their byte offsets, taken from
/// the front or the back.
pub struct GraphemeIndices<'a> {
    source: &'a str,
    scalars: Vec<char>,
    front: (usize, usize),
    back: (usize, usize),
    is_extended: bool,
}

impl<'a> GraphemeIndices<'a> {
    /// The whole string.
    pub closed spec fn text(self) -> Seq<char> {
        self.source@
    }

    /// The scalar offset where the clusters not yet taken begin.
    pub closed spec fn front_index(self) -> int {
        self.front.0 as int
    }

    /// The scalar offset where the clusters not yet taken end.
    pub closed spec fn back_index(self) -> int {
        self.back.0 as int
    }

    /// Whether the clusters are extended rather than legacy ones.
    pub closed spec fn extended(self) -> bool {
        self.is_extended
    }

    #[verifier::type_invariant]
    closed spec fn inv(self) -> bool {
        &&& self.scalars@ == self.source@
        &&& self.front.0 <= self.back.0 <= self.scalars@.len()
        &&& self.front.1 == byte_offset(self.scalars@, self.front.0 as int)
        &&& self.back.1 == byte_offset(self.scalars@, self.back.0 as int)
        &&& utf8_len(self.scalars@) <= usize::MAX
        &&& is_grapheme_boundary(self.scalars@, self.front.0 as int, self.is_extended)
        &&& is_grapheme_boundary(self.scalars@, self.back.0 as int, self.is_extended)
    }

    /// Whether scalar offset `k` is a boundary.
    fn boundary_at(&self, k: usize) -> (r: bool)
        requires
            self.scalars@ == self.source@,
            k <= self.scalars@.len(),
        ensures
            r == is_grapheme_boundary(self.scalars@, k as int, self.is_extended),
    {
        if k == self.scalars.len() {
            return true;
        }
        let st = scan_scalars_back(
            Lookback::Start { after: grapheme_info(self.scalars[k]) },
            &self.scalars,
            0,
            k,
            self.is_extended,
        );
        assert(self.scalars@.subrange(0, k as int) =~= self.scalars@.take(k as int));
        finish_at_start(st)
    }

    /// The part of the string between scalar offsets `i <= j`.
    fn slice(&self, i: usize, j: usize, start: usize, end: usize) -> (r: &'a str)
        requires
            self.scalars@ == self.source@,
            i <= j <= self.scalars@.len(),
            start == byte_offset(self.scalars@, i as int),
            end == byte_offset(self.scalars@, j as int),
        ensures
            r@ == self.source@.subrange(i as int, j as int),
    {
        let ghost d = self.source@;
        let (_, tail) = split_at_scalar(self.source, start, Ghost(i as int));
        proof {
            assert(d.take(j as int) =~= d.take(i as int) + tail@.take(j - i));
            lemma_utf8_len_concat(d.take(i as int), tail@.take(j - i));
            lemma_byte_offset_mono(d, i as int, j as int);
        }
        let (piece, _) = split_at_scalar(tail, end - start, Ghost(j - i));
        assert(piece@ =~= d.subrange(i as int, j as int));
        piece
    }

    /// Takes the first remaining cluster, with its byte offset.
    pub fn next(&mut self) -> (r: Option<(usize, &'a str)>)
        ensures
            final(self).text() == old(self).text(),
            final(self).extended() == old(self).extended(),
            final(self).back_index() == old(self).back_index(),
            old(self).front_index() == old(self).back_index() ==> r is None && final(self).front_index() == old(self).front_index(),
            old(self).front_index() < old(self).back_index() ==> {
                let j = next_boundary_index(
                    old(self).text(),
                    old(self).front_index(),
                    old(self).extended(),
                );
                &&& r matches Some((offset, piece)) && offset == byte_offset(
                    old(self).text(),
                    old(self).front_index(),
                ) && piece@ == old(self).text().subrange(old(self).front_index(), j)
                &&& final(self).front_index() == j
            },
    {
        proof {
            use_type_invariant(&*self);
        }
        if self.front.0 == self.back.0 {
            return None;
        }
        let ghost d = self.scalars@;
        let mut j = self.front.0 + 1;
        proof {
            lemma_byte_offset_step(d, self.front.0 as int);
            lemma_byte_offset_mono(d, self.front.0 + 1, d.len() as int);
            lemma_byte_offset_full(d);
            lemma_next_boundary_index(d, self.front.0 as int, self.is_extended);
        }
        let mut end = self.front.1 + char_width(self.scalars[self.front.0]);
        while j < self.back.0 && !self.boundary_at(j)
            invariant
                self.scalars@ == self.source@,
                d == self.scalars@,
                self.front.0 < j <= self.back.0 <= d.len(),
                end == byte_offset(d, j as int),
                utf8_len(d) <= usize::MAX,
                is_grapheme_boundary(d, self.back.0 as int, self.is_extended),
                forall|p: int| self.front.0 < p < j ==> !is_grapheme_boundary(d, p, self.is_extended),
                next_boundary_index(d, self.front.0 as int, self.is_extended) >= j,
                is_grapheme_boundary(
                    d,
                    next_boundary_index(d, self.front.0 as int, self.is_extended),
                    self.is_extended,
                ),
                forall|p: int|
                    self.front.0 < p < next_boundary_index(d, self.front.0 as int, self.is_extended)
                        ==> !is_grapheme_boundary(d, p, self.is_extended),
            decreases self.back.0 - j,
        {
            proof {
                lemma_byte_offset_step(d, j as int);
                lemma_byte_offset_mono(d, j + 1, d.len() as int);
                lemma_byte_offset_full(d);
            }
            end = end + char_width(self.scalars[j]);
            j = j + 1;
        }
        let offset = self.front.1;
        let piece = self.slice(self.front.0, j, self.front.1, end);
        self.front = (j, end);
        Some((offset, piece))
    }

    /// Takes the last remaining cluster, with its byte offset.
    pub fn next_back(&mut self) -> (r: Option<(usize, &'a str)>)
        ensures
            final(self).text() == old(self).text(),
            final(self).extended() == old(self).extended(),
            final(self).front_index() == old(self).front_index(),
            old(self).front_index() == old(self).back_index() ==> r is None && final(self).back_index() == old(self).back_index(),
            old(self).front_index() < old(self).back_index() ==> {
                let j = prev_boundary_index(
                    old(self).text(),
                    old(self).back_index(),
                    old(self).extended(),
                );
                &&& r matches Some((offset, piece)) && offset == byte_offset(old(self).text(), j)
                    && piece@ == old(self).text().subrange(j, old(self).back_index())
                &&& final(self).back_index() == j
            },
    {
        proof {
            use_type_invariant(&*self);
        }
        if self.front.0 == self.back.0 {
            return None;
        }
        let ghost d = self.scalars@;
        let mut j = self.back.0 - 1;
        proof {
            lemma_byte_offset_step(d, j as int);
            lemma_prev_boundary_index(d, self.back.0 as int, self.is_extended);
        }
        let mut start = self.back.1 - char_width(self.scalars[j]);
        while j > self.front.0 && !self.boundary_at(j)
            invariant
                self.scalars@ == self.source@,
                d == self.scalars@,
                self.front.0 <= j < self.back.0 <= d.len(),
                start == byte_offset(d, j as int),
                is_grapheme_boundary(d, self.front.0 as int, self.is_extended),
                forall|p: int| j < p < self.back.0 ==> !is_grapheme_boundary(d, p, self.is_extended),
                prev_boundary_index(d, self.back.0 as int, self.is_extended) <= j,
                is_grapheme_boundary(
                    d,
                    prev_boundary_index(d, self.back.0 as int, self.is_extended),
                    self.is_extended,
                ),
                forall|p: int|
                    prev_boundary_index(d, self.back.0 as int, self.is_extended) < p < self.back.0
                        ==> !is_grapheme_boundary(d, p, self.is_extended),
            decreases j,
        {
            proof {
                lemma_byte_offset_step(d, j - 1);
            }
            start = start - char_width(self.scalars[j - 1]);
            j = j - 1;
        }
        let piece = self.slice(j, self.back.0, start, self.back.1);
        self.back = (j, start);
        Some((start, piece))
    }
}

/// The grapheme clusters of `s`, extended ones when `is_extended` holds and
/// legacy ones otherwise, each with its byte offset.
pub fn new_grapheme_indices<'a>(s: &'a str, is_extended: bool) -> (r: GraphemeIndices<'a>)
    ensures
        r.text() == s@,
        r.extended() == is_extended,
        r.front_index() == 0,
        r.back_index() == s@.len(),
{
    let scalars = collect_scalars(s);
    let n = str_len(s);
    proof {
        lemma_byte_offset_full(s@);
        assert(s@.take(0) =~= Seq::<char>::empty());
    }
    GraphemeIndices {
        source: s,
        back: (scalars.len(), n),
        scalars,
        front: (0, 0),
        is_extended,
    }
}

/// Clusters taken from the front and from the back are the same: the
/// cluster that `next` takes at a boundary `i` ends at `j`, and the cluster
/// that `next_back` takes at `j` begins at `i`.
pub proof fn law_front_and_back_clusters_agree(d: Seq<char>, i: int, extended: bool)
    requires
        0 <= i < d.len(),
        is_grapheme_boundary(d, i, extended),
    ensures
        prev_boundary_index(d, next_boundary_index(d, i, extended), extended) == i,
{
    lemma_next_boundary_index(d, i, extended);
    let j = next_boundary_index(d, i, extended);
    lemma_prev_boundary_index(d, j, extended);
    let h = prev_boundary_index(d, j, extended);
    if h < i {
        assert(!is_grapheme_boundary(d, i, extended));
    } else if i < h {
        assert(!is_grapheme_boundary(d, h, extended));
    }
}

} // verus!
