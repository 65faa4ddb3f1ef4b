//! Word-boundary segmentation of contiguous strings: every segment
//! (`split_word_bounds`), with byte offsets, an ASCII fast path, and the
//! segments that hold an alphanumeric scalar (`unicode_words`).

use crate::utf8_len::{
    byte_offset, lemma_byte_offset_full, lemma_utf8_len_concat,
    lemma_utf8_len_ge, split_at_scalar, str_len, utf8_len,
};
use crate::word_cursor::{
    first_segment_end, last_segment_start, lemma_whole_document_forward,
    lemma_whole_document_reverse, WordCursor, WordCursorResult,
};
use vstd::prelude::*;
use vstd::string::StrSliceExecFns;

verus! {

broadcast use vstd::seq::group_seq_axioms;

/// The number of scalars in the first word segment of `s`.
pub open spec fn first_segment_len(s: Seq<char>) -> int {
    choose|k: int| 0 < k <= s.len() && byte_offset(s, k) == first_segment_end(s)
}

/// The index of the scalar that begins the last word segment of `s`.
pub open spec fn last_segment_index(s: Seq<char>) -> int {
    choose|k: int| 0 <= k < s.len() && byte_offset(s, k) == last_segment_start(s)
}

/// The first segment of a non-empty string is a non-empty prefix of it.
pub proof fn lemma_first_segment_len(s: Seq<char>)
    requires
        s.len() > 0,
        utf8_len(s) <= usize::MAX,
    ensures
        0 < first_segment_len(s) <= s.len(),
        byte_offset(s, first_segment_len(s)) == first_segment_end(s),
{
    lemma_whole_document_forward(s);
    let k = choose|k: int| 0 <= k <= s.len() && byte_offset(s, k) == first_segment_end(s);
    assert(byte_offset(s, 0) == 0) by {
        assert(s.take(0) =~= Seq::<char>::empty());
    }
    assert(0 < k);
}

/// The last segment of a non-empty string is a non-empty suffix of it.
pub proof fn lemma_last_segment_index(s: Seq<char>)
    requires
        s.len() > 0,
        utf8_len(s) <= usize::MAX,
    ensures
        0 <= last_segment_index(s) < s.len(),
        byte_offset(s, last_segment_index(s)) == last_segment_start(s),
{
    lemma_whole_document_reverse(s);
    let k = choose|k: int| 0 <= k <= s.len() && byte_offset(s, k) == last_segment_start(s);
    lemma_byte_offset_full(s);
    assert(k < s.len());
}

/// External iterator for a string's
/// [word boundaries](http://www.unicode.org/reports/tr29/#Word_Boundaries).
#[derive(Clone, Debug)]
pub struct UWordBounds<'a> {
    string: &'a str,
}

impl<'a> View for UWordBounds<'a> {
    type V = Seq<char>;

    /// The part of the string yet to be iterated.
    closed spec fn view(&self) -> Seq<char> {
        self.string@
    }
}

impl<'a> UWordBounds<'a> {
    /// View the underlying data (the part yet to be iterated) as a slice of the source string.
    pub fn as_str(&self) -> (r: &'a str)
        ensures
            r@ == self@,
    {
        self.string
    }

    /// The bounds on the number of segments left: at least one unless the
    /// string is empty, at most one per byte.
    pub fn size_hint(&self) -> (r: (usize, Option<usize>))
        ensures
            r.0 == (if self@.len() == 0 {
                0int
            } else {
                1int
            }),
            r.1 == Some(utf8_len(self@) as usize),
    {
        let slen = str_len(self.string);
        (if slen < 1 {
            slen
        } else {
            1
        }, Some(slen))
    }

    /// Returns the first remaining segment and advances past it.
    pub fn next(&mut self) -> (r: Option<&'a str>)
        ensures
            old(self)@.len() == 0 ==> r is None && final(self)@ == old(self)@,
            old(self)@.len() > 0 ==> r is Some && r->0@ == old(self)@.take(
                first_segment_len(old(self)@),
            ) && final(self)@ == old(self)@.skip(first_segment_len(old(self)@)),
            r matches Some(w) ==> w@.len() > 0 && w@ + final(self)@ == old(self)@,
            old(self)@.len() > 0 ==> 0 < first_segment_len(old(self)@) <= old(self)@.len(),
    {
        let len = str_len(self.string);
        proof {
            lemma_whole_document_forward(self.string@);
            if self.string@.len() > 0 {
                lemma_first_segment_len(self.string@);
            }
        }
        let mut cursor = match WordCursor::new(0, len) {
            Ok(cursor) => cursor,
            Err(_) => {
                return None;
            },
        };
        let idx = match cursor.next_boundary(self.string, 0) {
            Ok(WordCursorResult::Boundary(idx)) => idx,
            _ => {
                return None;
            },
        };
        let ghost k = first_segment_len(self.string@);
        let (result, remaining) = split_at_scalar(self.string, idx, Ghost(k));
        proof {
            assert(result@ + remaining@ =~= self.string@);
        }
        self.string = remaining;
        Some(result)
    }

    /// Returns the last remaining segment and retreats before it.
    pub fn next_back(&mut self) -> (r: Option<&'a str>)
        ensures
            old(self)@.len() == 0 ==> r is None && final(self)@ == old(self)@,
            old(self)@.len() > 0 ==> r is Some && r->0@ == old(self)@.skip(
                last_segment_index(old(self)@),
            ) && final(self)@ == old(self)@.take(last_segment_index(old(self)@)),
            r matches Some(w) ==> w@.len() > 0 && final(self)@ + w@ == old(self)@,
            old(self)@.len() > 0 ==> 0 <= last_segment_index(old(self)@) < old(self)@.len(),
    {
        let len = str_len(self.string);
        proof {
            lemma_whole_document_reverse(self.string@);
            if self.string@.len() > 0 {
                lemma_last_segment_index(self.string@);
            }
        }
        let mut cursor = match WordCursor::new(len, len) {
            Ok(cursor) => cursor,
            Err(_) => {
                return None;
            },
        };
        let idx = match cursor.prev_boundary(self.string, 0) {
            Ok(WordCursorResult::Boundary(idx)) => idx,
            _ => {
                return None;
            },
        };
        let ghost k = last_segment_index(self.string@);
        let (remaining, result) = split_at_scalar(self.string, idx, Ghost(k));
        proof {
            assert(remaining@ + result@ =~= self.string@);
        }
        self.string = remaining;
        Some(result)
    }
}

/// External iterator for word boundaries and byte offsets.
#[derive(Debug)]
pub struct UWordBoundIndices<'a> {
    start_offset: usize,
    iter: UWordBounds<'a>,
}

impl<'a> Clone for UWordBoundIndices<'a> {
    fn clone(&self) -> (r: Self)
        ensures
            r@ == self@,
    {
        proof {
            use_type_invariant(self);
        }
        UWordBoundIndices {
            start_offset: self.start_offset,
            iter: UWordBounds { string: self.iter.string },
        }
    }
}

impl<'a> View for UWordBoundIndices<'a> {
    /// The byte offset, in the source string, at which the part yet to be
    /// iterated begins, and that part.
    type V = (usize, Seq<char>);

    closed spec fn view(&self) -> (usize, Seq<char>) {
        (self.start_offset, self.iter@)
    }
}

impl<'a> UWordBoundIndices<'a> {
    #[verifier::type_invariant]
    closed spec fn offsets_fit(self) -> bool {
        self.start_offset + utf8_len(self.iter@) <= usize::MAX
    }

    /// View the underlying data (the part yet to be iterated) as a slice of the source string.
    pub fn as_str(&self) -> (r: &'a str)
        ensures
            r@ == self@.1,
    {
        self.iter.as_str()
    }

    /// The bounds on the number of segments left.
    pub fn size_hint(&self) -> (r: (usize, Option<usize>))
        ensures
            r.0 == (if self@.1.len() == 0 {
                0int
            } else {
                1int
            }),
            r.1 == Some(utf8_len(self@.1) as usize),
    {
        self.iter.size_hint()
    }

    /// Returns the first remaining segment with its byte offset in the
    /// source string, and advances past it.
    pub fn next(&mut self) -> (r: Option<(usize, &'a str)>)
        ensures
            old(self)@.1.len() == 0 ==> r is None && final(self)@ == old(self)@,
            old(self)@.1.len() > 0 ==> r is Some && (r->0).1@ == old(self)@.1.take(
                first_segment_len(old(self)@.1),
            ) && final(self)@.1 == old(self)@.1.skip(first_segment_len(old(self)@.1)),
            r matches Some((i, w)) ==> i == old(self)@.0 && final(self)@.0 == old(self)@.0
                + utf8_len(w@) && w@.len() > 0 && w@ + final(self)@.1 == old(self)@.1,
            old(self)@.1.len() > 0 ==> 0 < first_segment_len(old(self)@.1) <= old(self)@.1.len(),
    {
        proof {
            use_type_invariant(&*self);
        }
        let mut iter = UWordBounds { string: self.iter.string };
        match iter.next() {
            Some(word) => {
                let n = str_len(word);
                proof {
                    lemma_utf8_len_concat(word@, iter@);
                }
                let position = self.start_offset;
                *self = UWordBoundIndices { start_offset: position + n, iter };
                Some((position, word))
            },
            None => None,
        }
    }

    /// Returns the last remaining segment with its byte offset in the
    /// source string, and retreats before it.
    pub fn next_back(&mut self) -> (r: Option<(usize, &'a str)>)
        ensures
            old(self)@.1.len() == 0 ==> r is None && final(self)@ == old(self)@,
            old(self)@.1.len() > 0 ==> r is Some && (r->0).1@ == old(self)@.1.skip(
                last_segment_index(old(self)@.1),
            ) && final(self)@.1 == old(self)@.1.take(last_segment_index(old(self)@.1)),
            r matches Some((i, w)) ==> i == old(self)@.0 + utf8_len(final(self)@.1)
                && final(self)@.0 == old(self)@.0 && w@.len() > 0,
            r matches Some((i, w)) ==> final(self)@.1 + w@ == old(self)@.1,
            old(self)@.1.len() > 0 ==> 0 <= last_segment_index(old(self)@.1) < old(self)@.1.len(),
    {
        proof {
            use_type_invariant(&*self);
        }
        let mut iter = UWordBounds { string: self.iter.string };
        match iter.next_back() {
            Some(word) => {
                let n = str_len(iter.string);
                proof {
                    lemma_utf8_len_concat(iter@, word@);
                }
                let position = self.start_offset + n;
                *self = UWordBoundIndices { start_offset: self.start_offset, iter };
                Some((position, word))
            },
            None => None,
        }
    }
}

/// Iterates the word-boundary segments of `s`.
pub fn new_word_bounds(s: &str) -> (r: UWordBounds<'_>)
    ensures
        r@ == s@,
{
    UWordBounds { string: s }
}

/// Iterates the word-boundary segments of `s` with their byte offsets.
pub fn new_word_bound_indices(s: &str) -> (r: UWordBoundIndices<'_>)
    ensures
        r@ == (0usize, s@),
{
    let _ = str_len(s);
    UWordBoundIndices { start_offset: 0, iter: new_word_bounds(s) }
}

/// An ASCII decimal digit.
pub open spec fn is_digit_byte(b: u8) -> bool {
    0x30 <= b <= 0x39
}

/// An ASCII letter.
pub open spec fn is_alpha_byte(b: u8) -> bool {
    (0x41 <= b <= 0x5a) || (0x61 <= b <= 0x7a)
}

/// A byte of a word's core: letter, digit or underscore (ALetter, Numeric,
/// ExtendNumLet).
pub open spec fn is_core_byte(b: u8) -> bool {
    is_digit_byte(b) || is_alpha_byte(b) || b == 0x5f
}

/// `b` joins `prev` and `next` inside a word: `.`, `,`, `;` or `'` between
/// digits (WB11/WB12), or `'`, `.` or `:` between letters (WB6/WB7).
pub open spec fn is_infix_byte(b: u8, prev: u8, next: u8) -> bool {
    ((b == 0x2e || b == 0x2c || b == 0x3b || b == 0x27) && is_digit_byte(prev) && is_digit_byte(
        next,
    )) || ((b == 0x27 || b == 0x2e || b == 0x3a) && is_alpha_byte(prev) && is_alpha_byte(next))
}

/// The byte at `j` continues the core run that precedes it.
pub open spec fn core_continues(b: Seq<u8>, j: int) -> bool {
    is_core_byte(b[j]) || (j + 1 < b.len() && is_infix_byte(b[j], b[j - 1], b[j + 1]))
}

/// The byte at `j` extends leftwards the core run that follows it.
pub open spec fn core_extends_back(b: Seq<u8>, j: int) -> bool {
    is_core_byte(b[j]) || is_infix_byte(
        b[j],
        if j >= 1 {
            b[j - 1]
        } else {
            b[j]
        },
        b[j + 1],
    )
}

/// `i` is the length of the leading ASCII word-boundary segment of the
/// non-empty bytes `b`: a maximal run of spaces (WB3d), a maximal core run
/// with its infixes, CR LF (WB3), or else a single byte (WB999).
pub open spec fn ascii_front_ok(b: Seq<u8>, i: int) -> bool {
    &&& 1 <= i <= b.len()
    &&& if b[0] == 0x20 {
        &&& forall|j: int| 0 <= j < i ==> b[j] == 0x20
        &&& (i == b.len() || b[i] != 0x20)
    } else if is_core_byte(b[0]) {
        &&& forall|j: int| 1 <= j < i ==> core_continues(b, j)
        &&& (i == b.len() || !core_continues(b, i))
    } else if b[0] == 0x0d && b.len() >= 2 && b[1] == 0x0a {
        i == 2
    } else {
        i == 1
    }
}

/// `st` is where the trailing ASCII word-boundary segment of the non-empty
/// bytes `b` begins: a maximal run of spaces, a maximal core run with its
/// infixes, CR LF, or else the last byte alone.
pub open spec fn ascii_back_ok(b: Seq<u8>, st: int) -> bool {
    let n = b.len() as int;
    &&& 0 <= st < n
    &&& if b[n - 1] == 0x20 {
        &&& forall|j: int| st <= j < n ==> b[j] == 0x20
        &&& (st == 0 || b[st - 1] != 0x20)
    } else if is_core_byte(b[n - 1]) {
        &&& forall|j: int| st <= j < n - 1 ==> core_extends_back(b, j)
        &&& (st == 0 || !core_extends_back(b, st - 1))
    } else if n >= 2 && b[n - 2] == 0x0d && b[n - 1] == 0x0a {
        st == n - 2
    } else {
        st == n - 1
    }
}

/// The leading segment of non-empty ASCII bytes has exactly one length.
pub proof fn lemma_ascii_front_unique(b: Seq<u8>, i: int, k: int)
    requires
        ascii_front_ok(b, i),
        ascii_front_ok(b, k),
    ensures
        i == k,
{
    if i < k {
        assert(b[0] == 0x20 ==> b[i] == 0x20);
        assert(b[0] != 0x20 && is_core_byte(b[0]) ==> core_continues(b, i));
    } else if k < i {
        assert(b[0] == 0x20 ==> b[k] == 0x20);
        assert(b[0] != 0x20 && is_core_byte(b[0]) ==> core_continues(b, k));
    }
}

/// The trailing segment of non-empty ASCII bytes has exactly one start.
pub proof fn lemma_ascii_back_unique(b: Seq<u8>, i: int, k: int)
    requires
        ascii_back_ok(b, i),
        ascii_back_ok(b, k),
    ensures
        i == k,
{
    let n = b.len() as int;
    if i < k {
        assert(b[n - 1] == 0x20 ==> b[k - 1] == 0x20);
        assert(b[n - 1] != 0x20 && is_core_byte(b[n - 1]) ==> core_extends_back(b, k - 1));
    } else if k < i {
        assert(b[n - 1] == 0x20 ==> b[i - 1] == 0x20);
        assert(b[n - 1] != 0x20 && is_core_byte(b[n - 1]) ==> core_extends_back(b, i - 1));
    }
}

/// The bytes of an ASCII scalar sequence.
pub open spec fn ascii_codes(s: Seq<char>) -> Seq<u8> {
    Seq::new(s.len(), |i: int| s[i] as u8)
}

/// The number of scalars in the leading ASCII segment of `s`.
pub open spec fn ascii_front_len(s: Seq<char>) -> int {
    choose|i: int| ascii_front_ok(ascii_codes(s), i)
}

/// The index at which the trailing ASCII segment of `s` begins.
pub open spec fn ascii_back_index(s: Seq<char>) -> int {
    choose|st: int| ascii_back_ok(ascii_codes(s), st)
}

/// ASCII-fast-path word-boundary iterator for strings that contain only ASCII characters.
///
/// Since we handle only ASCII characters, we can use a much simpler set of
/// word break values than the full Unicode algorithm.
/// https://www.unicode.org/reports/tr29/#Table_Word_Break_Property_Values
///
/// | Word_Break value | ASCII code points that belong to it                             |
/// | -----------------| --------------------------------------------------------------- |
/// | CR               | U+000D (CR)                                                     |
/// | LF               | U+000A (LF)                                                     |
/// | Newline          | U+000B (VT), U+000C (FF)                                        |
/// | Single_Quote     | U+0027 (')                                                      |
/// | Double_Quote     | U+0022 (")                                                      |
/// | MidNumLet        | U+002E (.) FULL STOP                                            |
/// | MidLetter        | U+003A (:) COLON                                                |
/// | MidNum           | U+002C (,), U+003B (;)                                          |
/// | Numeric          | U+0030 – U+0039 (0 … 9)                                         |
/// | ALetter          | U+0041 – U+005A (A … Z), U+0061 – U+007A (a … z)                |
/// | ExtendNumLet     | U+005F (_) underscore                                           |
/// | WSegSpace        | U+0020 (SPACE)                                                  |
///
/// The macro MidNumLetQ boils down to: U+002E (.) FULL STOP and U+0027 (')
/// AHLetter is the same as ALetter, so we don't need to distinguish it.
///
/// Any other single ASCII byte is its own boundary (the default WB999).
#[derive(Debug)]
pub struct AsciiWordBoundIter<'a> {
    rest: &'a str,
    offset: usize,
}

impl<'a> View for AsciiWordBoundIter<'a> {
    /// The byte offset, in the source string, of the part yet to be
    /// iterated, and that part.
    type V = (usize, Seq<char>);

    closed spec fn view(&self) -> (usize, Seq<char>) {
        (self.offset, self.rest@)
    }
}

impl<'a> AsciiWordBoundIter<'a> {
    #[verifier::type_invariant]
    closed spec fn ascii_and_fits(self) -> bool {
        &&& vstd::string::is_ascii(self.rest)
        &&& self.offset + self.rest@.len() <= usize::MAX
    }

    /// Whether the part yet to be iterated is ASCII (it always is).
    pub closed spec fn is_ascii_rest(self) -> bool {
        vstd::string::is_ascii(self.rest)
    }

    /// Iterates the word-boundary segments of the ASCII string `s`.
    pub fn new(s: &'a str) -> (r: Self)
        requires
            s.is_ascii(),
        ensures
            r@ == (0usize, s@),
    {
        let _ = str_len(s);
        AsciiWordBoundIter { rest: s, offset: 0 }
    }

    /// A byte of a word's core: letter, digit or underscore.
    pub fn is_core(b: u8) -> (r: bool)
        ensures
            r == is_core_byte(b),
    {
        (0x30 <= b && b <= 0x39) || (0x41 <= b && b <= 0x5a) || (0x61 <= b && b <= 0x7a) || b
            == 0x5f
    }

    /// `b` joins `prev` and `next` inside a word.
    pub fn is_infix(b: u8, prev: u8, next: u8) -> (r: bool)
        ensures
            r == is_infix_byte(b, prev, next),
    {
        let prev_digit = 0x30 <= prev && prev <= 0x39;
        let next_digit = 0x30 <= next && next <= 0x39;
        let prev_alpha = (0x41 <= prev && prev <= 0x5a) || (0x61 <= prev && prev <= 0x7a);
        let next_alpha = (0x41 <= next && next <= 0x5a) || (0x61 <= next && next <= 0x7a);
        if (b == 0x2e || b == 0x2c || b == 0x3b || b == 0x27) && prev_digit && next_digit {
            true
        } else if (b == 0x27 || b == 0x2e || b == 0x3a) && prev_alpha && next_alpha {
            true
        } else {
            false
        }
    }

    /// Splits off the first `i` bytes of the remaining text.
    fn take_front(&mut self, i: usize) -> (r: (usize, &'a str))
        requires
            1 <= i <= old(self)@.1.len(),
        ensures
            r.0 == old(self)@.0,
            r.1@ == old(self)@.1.take(i as int),
            final(self)@.0 == old(self)@.0 + i,
            final(self)@.1 == old(self)@.1.skip(i as int),
    {
        proof {
            use_type_invariant(&*self);
        }
        let len = str_len(self.rest);
        let word = self.rest.substring_ascii(0, i);
        let rest = self.rest.substring_ascii(i, self.rest.unicode_len());
        let pos = self.offset;
        proof {
            lemma_utf8_len_ge(self.rest@);
        }
        *self = AsciiWordBoundIter { rest, offset: pos + i };
        (pos, word)
    }

    /// Splits off the remaining text from byte `start` on.
    fn take_back(&mut self, start: usize) -> (r: (usize, &'a str))
        requires
            start < old(self)@.1.len(),
        ensures
            r.0 == old(self)@.0 + start,
            r.1@ == old(self)@.1.skip(start as int),
            final(self)@ == (old(self)@.0, old(self)@.1.take(start as int)),
    {
        proof {
            use_type_invariant(&*self);
        }
        let word = self.rest.substring_ascii(start, self.rest.unicode_len());
        let rest = self.rest.substring_ascii(0, start);
        let pos = self.offset + start;
        *self = AsciiWordBoundIter { rest, offset: self.offset };
        (pos, word)
    }

    /// Returns the first remaining segment with its byte offset in the
    /// source string, and advances past it.
    pub fn next(&mut self) -> (r: Option<(usize, &'a str)>)
        ensures
            old(self)@.1.len() == 0 ==> r is None && final(self)@ == old(self)@,
            old(self)@.1.len() > 0 ==> r is Some,
            r matches Some((pos, w)) ==> pos == old(self)@.0 && ascii_front_ok(
                ascii_codes(old(self)@.1),
                w@.len() as int,
            ) && w@ == old(self)@.1.take(w@.len() as int),
            r matches Some((pos, w)) ==> final(self)@.0 == old(self)@.0 + w@.len(),
            r matches Some((pos, w)) ==> final(self)@.1 == old(self)@.1.skip(w@.len() as int),
    {
        broadcast use vstd::string::is_ascii_spec_bytes, vstd::slice::group_slice_axioms;

        proof {
            use_type_invariant(&*self);
        }
        if self.rest.is_empty() {
            return None;
        }
        let bytes = self.rest.as_bytes();
        let len = bytes.len();
        let ghost b = ascii_codes(self.rest@);
        assert(bytes@ =~= b);

        if bytes[0] == 0x20 {
            let mut i: usize = 1;
            while i < len && bytes[i] == 0x20
                invariant
                    1 <= i <= len,
                    len == bytes@.len(),
                    bytes@ == b,
                    b[0] == 0x20,
                    forall|j: int| 0 <= j < i ==> b[j] == 0x20,
                decreases len - i,
            {
                i = i + 1;
            }
            return Some(self.take_front(i));
        }
        if Self::is_core(bytes[0]) {
            let mut i: usize = 1;
            while i < len
                invariant
                    1 <= i <= len,
                    len == bytes@.len(),
                    bytes@ == b,
                    forall|j: int| 1 <= j < i ==> core_continues(b, j),
                ensures
                    1 <= i <= len,
                    forall|j: int| 1 <= j < i ==> core_continues(b, j),
                    i == len || !core_continues(b, i as int),
                decreases len - i,
            {
                let c = bytes[i];
                if Self::is_core(c) || (i + 1 < len && Self::is_infix(
                    c,
                    bytes[i - 1],
                    bytes[i + 1],
                )) {
                    i = i + 1;
                } else {
                    break;
                }
            }
            return Some(self.take_front(i));
        }
        if bytes[0] == 0x0d && len >= 2 && bytes[1] == 0x0a {
            Some(self.take_front(2))
        } else {
            Some(self.take_front(1))
        }
    }

    /// Returns the last remaining segment with its byte offset in the
    /// source string, and retreats before it.
    pub fn next_back(&mut self) -> (r: Option<(usize, &'a str)>)
        ensures
            old(self)@.1.len() == 0 ==> r is None && final(self)@ == old(self)@,
            old(self)@.1.len() > 0 ==> r is Some,
            r matches Some((pos, w)) ==> ascii_back_ok(
                ascii_codes(old(self)@.1),
                old(self)@.1.len() - w@.len(),
            ) && pos == old(self)@.0 + (old(self)@.1.len() - w@.len()) && w@ == old(
                self,
            )@.1.skip(old(self)@.1.len() - w@.len()) && final(self)@ == (
                old(self)@.0,
                old(self)@.1.take(old(self)@.1.len() - w@.len()),
            ),
    {
        broadcast use vstd::string::is_ascii_spec_bytes, vstd::slice::group_slice_axioms;

        proof {
            use_type_invariant(&*self);
        }
        let rest = self.rest;
        if rest.is_empty() {
            return None;
        }
        let bytes = rest.as_bytes();
        let len = bytes.len();
        let ghost b = ascii_codes(rest@);
        assert(bytes@ =~= b);

        if bytes[len - 1] == 0x20 {
            let mut start = len - 1;
            while start > 0 && bytes[start - 1] == 0x20
                invariant
                    0 <= start < len,
                    len == bytes@.len(),
                    bytes@ == b,
                    forall|j: int| start <= j < len ==> b[j] == 0x20,
                decreases start,
            {
                start = start - 1;
            }
            return Some(self.take_back(start));
        }
        if Self::is_core(bytes[len - 1]) {
            let mut start = len - 1;
            while start > 0
                invariant
                    0 <= start < len,
                    len == bytes@.len(),
                    bytes@ == b,
                    forall|j: int| start <= j < len - 1 ==> core_extends_back(b, j),
                ensures
                    0 <= start < len,
                    forall|j: int| start <= j < len - 1 ==> core_extends_back(b, j),
                    start == 0 || !core_extends_back(b, start - 1),
                decreases start,
            {
                let c = bytes[start - 1];
                let prev = if start >= 2 {
                    bytes[start - 2]
                } else {
                    c
                };
                let next = bytes[start];
                if Self::is_core(c) || Self::is_infix(c, prev, next) {
                    start = start - 1;
                } else {
                    break;
                }
            }
            return Some(self.take_back(start));
        }
        if len >= 2 && bytes[len - 2] == 0x0d && bytes[len - 1] == 0x0a {
            return Some(self.take_back(len - 2));
        }
        Some(self.take_back(len - 1))
    }
}

/// Whether the Unicode character database makes `c` alphanumeric
/// (`Alphabetic`, or a general category `Nd`, `Nl` or `No`), as `std` reads it.
pub uninterp spec fn alphanumeric(c: char) -> bool;

/// Trusted: `char::is_alphanumeric` from `std`. The contract claims only that
/// the answer is a function of `c` alone (`std` consults a constant table).
#[verifier::external_body]
pub(crate) fn char_is_alphanumeric(c: char) -> (r: bool)
    ensures
        r == alphanumeric(c),
{
    c.is_alphanumeric()
}

/// An ASCII letter or digit.
pub open spec fn is_ascii_alnum_char(c: char) -> bool {
    ('0' <= c <= '9') || ('A' <= c <= 'Z') || ('a' <= c <= 'z')
}

/// `s` holds an alphanumeric scalar.
pub open spec fn has_alnum(s: Seq<char>) -> bool {
    exists|i: int| 0 <= i < s.len() && alphanumeric(#[trigger] s[i])
}

/// `s` holds an ASCII letter or digit.
pub open spec fn has_ascii_alnum(s: Seq<char>) -> bool {
    exists|i: int| 0 <= i < s.len() && is_ascii_alnum_char(#[trigger] s[i])
}

/// Whether `s` holds an alphanumeric scalar.
pub fn has_alphanumeric(s: &&str) -> (r: bool)
    ensures
        r == has_alnum(s@),
{
    for ch in it: s.chars()
        invariant
            it.seq() == s@,
            forall|j: int| 0 <= j < it.index() ==> !alphanumeric(#[trigger] s@[j]),
    {
        if char_is_alphanumeric(ch) {
            return true;
        }
    }
    false
}

/// Whether `s` holds an ASCII letter or digit.
pub fn has_ascii_alphanumeric(s: &&str) -> (r: bool)
    ensures
        r == has_ascii_alnum(s@),
{
    for ch in it: s.chars()
        invariant
            it.seq() == s@,
            forall|j: int| 0 <= j < it.index() ==> !is_ascii_alnum_char(#[trigger] s@[j]),
    {
        if ('0' <= ch && ch <= '9') || ('A' <= ch && ch <= 'Z') || ('a' <= ch && ch <= 'z') {
            return true;
        }
    }
    false
}

/// Whether the segment of an ASCII iterator item is a word.
pub fn ascii_word_ok(t: &(usize, &str)) -> (r: bool)
    ensures
        r == has_ascii_alnum(t.1@),
{
    has_ascii_alphanumeric(&t.1)
}

/// Whether the segment of an iterator item is a word.
pub fn unicode_word_ok(t: &(usize, &str)) -> (r: bool)
    ensures
        r == has_alnum(t.1@),
{
    has_alphanumeric(&t.1)
}

/// Drops the offset of an iterator item.
pub fn strip_pos<'a>(t: (usize, &'a str)) -> (r: &'a str)
    ensures
        r == t.1,
{
    t.1
}

/// An ASCII scalar sequence has one byte per scalar.
pub proof fn lemma_ascii_utf8_len(s: Seq<char>)
    requires
        vstd::utf8::is_ascii_chars(s),
    ensures
        utf8_len(s) == s.len(),
        forall|k: int| 0 <= k <= s.len() ==> byte_offset(s, k) == k,
    decreases s.len(),
{
    if s.len() > 0 {
        assert(vstd::utf8::is_ascii_chars(s.drop_first()));
        lemma_ascii_utf8_len(s.drop_first());
    }
    assert forall|k: int| 0 <= k <= s.len() implies byte_offset(s, k) == k by {
        assert(vstd::utf8::is_ascii_chars(s.take(k)));
        lemma_ascii_utf8_len_plain(s.take(k));
    }
}

proof fn lemma_ascii_utf8_len_plain(s: Seq<char>)
    requires
        vstd::utf8::is_ascii_chars(s),
    ensures
        utf8_len(s) == s.len(),
    decreases s.len(),
{
    if s.len() > 0 {
        assert(vstd::utf8::is_ascii_chars(s.drop_first()));
        lemma_ascii_utf8_len_plain(s.drop_first());
    }
}

/// The number of scalars in the leading segment of `s`, for the ASCII fast
/// path or the general path.
pub open spec fn front_segment_len(ascii: bool, s: Seq<char>) -> int {
    if ascii {
        ascii_front_len(s)
    } else {
        first_segment_len(s)
    }
}

/// Where the trailing segment of `s` begins, for the ASCII fast path or the
/// general path.
pub open spec fn back_segment_index(ascii: bool, s: Seq<char>) -> int {
    if ascii {
        ascii_back_index(s)
    } else {
        last_segment_index(s)
    }
}

/// Whether a segment is a word (holds an alphanumeric scalar).
pub open spec fn is_word(ascii: bool, w: Seq<char>) -> bool {
    if ascii {
        has_ascii_alnum(w)
    } else {
        has_alnum(w)
    }
}

/// The first word among the segments of `s`, taken from the front: its
/// start and its length, in scalars.
pub open spec fn next_word(ascii: bool, s: Seq<char>) -> Option<(int, int)>
    decreases s.len(),
{
    if s.len() == 0 {
        None
    } else {
        let k = front_segment_len(ascii, s);
        if 0 < k <= s.len() {
            if is_word(ascii, s.take(k)) {
                Some((0, k))
            } else {
                match next_word(ascii, s.skip(k)) {
                    Some((a, l)) => Some((a + k, l)),
                    None => None,
                }
            }
        } else {
            None
        }
    }
}

/// The last word among the segments of `s`, taken from the back: its start
/// and its length, in scalars.
pub open spec fn prev_word(ascii: bool, s: Seq<char>) -> Option<(int, int)>
    decreases s.len(),
{
    if s.len() == 0 {
        None
    } else {
        let k = back_segment_index(ascii, s);
        if 0 <= k < s.len() {
            if is_word(ascii, s.skip(k)) {
                Some((k, s.len() - k))
            } else {
                prev_word(ascii, s.take(k))
            }
        } else {
            None
        }
    }
}

/// `w` moved `by` scalars to the right.
pub open spec fn shifted(w: Option<(int, int)>, by: int) -> Option<(int, int)> {
    match w {
        Some((a, l)) => Some((a + by, l)),
        None => None,
    }
}

/// The next word of an ASCII segment iterator; the iterator ends past it.
fn next_ascii_word<'a>(it: &mut AsciiWordBoundIter<'a>) -> (r: Option<(usize, &'a str)>)
    ensures
        final(it)@.1 == old(it)@.1.skip(old(it)@.1.len() - final(it)@.1.len()),
        final(it)@.0 == old(it)@.0 + (old(it)@.1.len() - final(it)@.1.len()),
        vstd::utf8::is_ascii_chars(old(it)@.1),
        match next_word(true, old(it)@.1) {
            None => r is None && final(it)@.1.len() == 0,
            Some((a, l)) => r matches Some((i, w)) && i == old(it)@.0 + a && w@ == old(
                it,
            )@.1.subrange(a, a + l) && final(it)@.1 == old(it)@.1.skip(a + l),
        },
{
    proof {
        use_type_invariant(&*it);
    }
    let ghost s0 = it@.1;
    let ghost o0 = it@.0;
    loop
        invariant
            s0 == old(it)@.1,
            o0 == old(it)@.0,
            vstd::utf8::is_ascii_chars(s0),
            it@.1.len() <= s0.len(),
            it@.1 == s0.skip(s0.len() - it@.1.len()),
            it@.0 == o0 + (s0.len() - it@.1.len()),
            next_word(true, s0) == shifted(next_word(true, it@.1), s0.len() - it@.1.len()),
        decreases it@.1.len(),
    {
        let ghost s = it@.1;
        let ghost consumed = s0.len() - s.len();
        match it.next() {
            None => {
                return None;
            },
            Some(item) => {
                let ghost k = item.1@.len() as int;
                proof {
                    lemma_ascii_front_unique(
                        ascii_codes(s),
                        k,
                        ascii_front_len(s),
                    );
                    assert(it@.1 =~= s0.skip(s0.len() - it@.1.len()));
                }
                if ascii_word_ok(&item) {
                    proof {
                        assert(item.1@ =~= s0.subrange(consumed, consumed + k));
                    }
                    return Some(item);
                }
            },
        }
    }
}

/// The next word of a segment iterator; the iterator ends past it.
fn next_unicode_word<'a>(it: &mut UWordBoundIndices<'a>) -> (r: Option<(usize, &'a str)>)
    ensures
        final(it)@.1 == old(it)@.1.skip(old(it)@.1.len() - final(it)@.1.len()),
        final(it)@.0 == old(it)@.0 + byte_offset(
            old(it)@.1,
            old(it)@.1.len() - final(it)@.1.len(),
        ),
        match next_word(false, old(it)@.1) {
            None => r is None && final(it)@.1.len() == 0,
            Some((a, l)) => r matches Some((i, w)) && i == old(it)@.0 + byte_offset(
                old(it)@.1,
                a,
            ) && w@ == old(it)@.1.subrange(a, a + l) && final(it)@.1 == old(it)@.1.skip(a + l),
        },
{
    let ghost s0 = it@.1;
    let ghost o0 = it@.0;
    loop
        invariant
            s0 == old(it)@.1,
            o0 == old(it)@.0,
            it@.1.len() <= s0.len(),
            it@.1 == s0.skip(s0.len() - it@.1.len()),
            it@.0 == o0 + byte_offset(s0, s0.len() - it@.1.len()),
            next_word(false, s0) == shifted(next_word(false, it@.1), s0.len() - it@.1.len()),
        decreases it@.1.len(),
    {
        let ghost s = it@.1;
        let ghost consumed = s0.len() - s.len();
        match it.next() {
            None => {
                return None;
            },
            Some(item) => {
                let ghost k = item.1@.len() as int;
                proof {
                    assert(s =~= item.1@ + it@.1);
                    assert(s0.take(consumed + k) =~= s0.take(consumed) + item.1@);
                    lemma_utf8_len_concat(s0.take(consumed), item.1@);
                    assert(it@.1 =~= s0.skip(s0.len() - it@.1.len()));
                }
                if unicode_word_ok(&item) {
                    proof {
                        assert(item.1@ =~= s0.subrange(consumed, consumed + k));
                    }
                    return Some(item);
                }
            },
        }
    }
}

/// The last word of an ASCII segment iterator; the iterator ends before it.
fn prev_ascii_word<'a>(it: &mut AsciiWordBoundIter<'a>) -> (r: Option<(usize, &'a str)>)
    ensures
        final(it)@.1 == old(it)@.1.take(final(it)@.1.len() as int),
        final(it)@.0 == old(it)@.0,
        vstd::utf8::is_ascii_chars(old(it)@.1),
        match prev_word(true, old(it)@.1) {
            None => r is None && final(it)@.1.len() == 0,
            Some((a, l)) => r matches Some((i, w)) && i == old(it)@.0 + a && w@ == old(
                it,
            )@.1.subrange(a, a + l) && final(it)@.1 == old(it)@.1.take(a),
        },
{
    proof {
        use_type_invariant(&*it);
    }
    let ghost s0 = it@.1;
    let ghost o0 = it@.0;
    loop
        invariant
            s0 == old(it)@.1,
            o0 == old(it)@.0,
            vstd::utf8::is_ascii_chars(s0),
            it@.1.len() <= s0.len(),
            it@.1 == s0.take(it@.1.len() as int),
            it@.0 == o0,
            prev_word(true, s0) == prev_word(true, it@.1),
        decreases it@.1.len(),
    {
        let ghost s = it@.1;
        match it.next_back() {
            None => {
                return None;
            },
            Some(item) => {
                let ghost k = s.len() - item.1@.len();
                proof {
                    lemma_ascii_back_unique(ascii_codes(s), k, ascii_back_index(s));
                    assert(it@.1 =~= s0.take(it@.1.len() as int));
                }
                if ascii_word_ok(&item) {
                    proof {
                        assert(item.1@ =~= s0.subrange(k, k + item.1@.len()));
                    }
                    return Some(item);
                }
            },
        }
    }
}

/// The last word of a segment iterator; the iterator ends before it.
fn prev_unicode_word<'a>(it: &mut UWordBoundIndices<'a>) -> (r: Option<(usize, &'a str)>)
    ensures
        final(it)@.1 == old(it)@.1.take(final(it)@.1.len() as int),
        final(it)@.0 == old(it)@.0,
        match prev_word(false, old(it)@.1) {
            None => r is None && final(it)@.1.len() == 0,
            Some((a, l)) => r matches Some((i, w)) && i == old(it)@.0 + byte_offset(
                old(it)@.1,
                a,
            ) && w@ == old(it)@.1.subrange(a, a + l) && final(it)@.1 == old(it)@.1.take(a),
        },
{
    let ghost s0 = it@.1;
    let ghost o0 = it@.0;
    loop
        invariant
            s0 == old(it)@.1,
            o0 == old(it)@.0,
            it@.1.len() <= s0.len(),
            it@.1 == s0.take(it@.1.len() as int),
            it@.0 == o0,
            prev_word(false, s0) == prev_word(false, it@.1),
        decreases it@.1.len(),
    {
        let ghost s = it@.1;
        match it.next_back() {
            None => {
                return None;
            },
            Some(item) => {
                let ghost k = last_segment_index(s);
                proof {
                    assert(s =~= it@.1 + item.1@);
                    assert(it@.1 =~= s0.take(it@.1.len() as int));
                    assert(it@.1 =~= s0.take(k));
                }
                if unicode_word_ok(&item) {
                    proof {
                        assert(item.1@ =~= s0.subrange(k, k + item.1@.len()));
                    }
                    return Some(item);
                }
            },
        }
    }
}

/// A word found by [`next_word`] or [`prev_word`] lies in the string and is
/// not empty.
pub proof fn lemma_word_in_range(ascii: bool, s: Seq<char>)
    ensures
        next_word(ascii, s) matches Some((a, l)) ==> 0 <= a && 0 < l && a + l <= s.len(),
        prev_word(ascii, s) matches Some((a, l)) ==> 0 <= a && 0 < l && a + l <= s.len(),
    decreases s.len(),
{
    if s.len() > 0 {
        let k = front_segment_len(ascii, s);
        if 0 < k <= s.len() {
            lemma_word_in_range(ascii, s.skip(k));
        }
        let j = back_segment_index(ascii, s);
        if 0 <= j < s.len() {
            lemma_word_in_range(ascii, s.take(j));
        }
    }
}

/// The segment iterator behind a word iterator: the ASCII fast path or the
/// general path.
#[derive(Debug)]
pub enum WordsIter<'a> {
    Ascii(AsciiWordBoundIter<'a>),
    Unicode(UWordBoundIndices<'a>),
}

impl<'a> View for WordsIter<'a> {
    /// Whether this is the ASCII fast path, the byte offset of the part yet to
    /// be iterated, and that part.
    type V = (bool, usize, Seq<char>);

    open spec fn view(&self) -> (bool, usize, Seq<char>) {
        match self {
            WordsIter::Ascii(it) => (true, it@.0, it@.1),
            WordsIter::Unicode(it) => (false, it@.0, it@.1),
        }
    }
}

/// An iterator over the substrings of a string which, after splitting the string on
/// [word boundaries](http://www.unicode.org/reports/tr29/#Word_Boundaries),
/// contain any characters with the
/// [Alphabetic](http://unicode.org/reports/tr44/#Alphabetic)
/// property, or with
/// [General_Category=Number](http://unicode.org/reports/tr44/#General_Category_Values).
#[derive(Debug)]
pub struct UnicodeWords<'a> {
    inner: WordsIter<'a>,
}

impl<'a> View for UnicodeWords<'a> {
    /// Whether this is the ASCII fast path, and the part yet to be iterated.
    type V = (bool, Seq<char>);

    closed spec fn view(&self) -> (bool, Seq<char>) {
        (self.inner@.0, self.inner@.2)
    }
}

impl<'a> UnicodeWords<'a> {
    /// Returns the first remaining word and advances past it (to the end when
    /// there is none).
    pub fn next(&mut self) -> (r: Option<&'a str>)
        ensures
            final(self)@.0 == old(self)@.0,
            match next_word(old(self)@.0, old(self)@.1) {
                None => r is None && final(self)@.1.len() == 0,
                Some((a, l)) => r matches Some(w) && w@ == old(self)@.1.subrange(a, a + l)
                    && final(self)@.1 == old(self)@.1.skip(a + l),
            },
    {
        let found = match &mut self.inner {
            WordsIter::Ascii(it) => next_ascii_word(it),
            WordsIter::Unicode(it) => next_unicode_word(it),
        };
        match found {
            Some(item) => Some(strip_pos(item)),
            None => None,
        }
    }

    /// Returns the last remaining word and retreats before it (to the start
    /// when there is none).
    pub fn next_back(&mut self) -> (r: Option<&'a str>)
        ensures
            final(self)@.0 == old(self)@.0,
            match prev_word(old(self)@.0, old(self)@.1) {
                None => r is None && final(self)@.1.len() == 0,
                Some((a, l)) => r matches Some(w) && w@ == old(self)@.1.subrange(a, a + l)
                    && final(self)@.1 == old(self)@.1.take(a),
            },
    {
        let found = match &mut self.inner {
            WordsIter::Ascii(it) => prev_ascii_word(it),
            WordsIter::Unicode(it) => prev_unicode_word(it),
        };
        match found {
            Some(item) => Some(strip_pos(item)),
            None => None,
        }
    }

    /// The bounds on the number of words left: none are promised, and the
    /// general path promises at most one per byte.
    pub fn size_hint(&self) -> (r: (usize, Option<usize>))
        ensures
            r.0 == 0,
            self@.0 ==> r.1 is None,
            !self@.0 ==> r.1 == Some(utf8_len(self@.1) as usize),
    {
        match &self.inner {
            WordsIter::Ascii(_) => (0, None),
            WordsIter::Unicode(it) => (0, it.size_hint().1),
        }
    }
}

/// An iterator over the substrings of a string which, after splitting the string on
/// [word boundaries](http://www.unicode.org/reports/tr29/#Word_Boundaries),
/// contain any characters with the
/// [Alphabetic](http://unicode.org/reports/tr44/#Alphabetic)
/// property, or with
/// [General_Category=Number](http://unicode.org/reports/tr44/#General_Category_Values).
/// This iterator also provides the byte offsets for each substring.
#[derive(Debug)]
pub struct UnicodeWordIndices<'a> {
    inner: WordsIter<'a>,
}

impl<'a> View for UnicodeWordIndices<'a> {
    /// Whether this is the ASCII fast path, the byte offset of the part yet to
    /// be iterated, and that part.
    type V = (bool, usize, Seq<char>);

    closed spec fn view(&self) -> (bool, usize, Seq<char>) {
        self.inner@
    }
}

impl<'a> UnicodeWordIndices<'a> {
    /// Returns the first remaining word with its byte offset in the source
    /// string, and advances past it (to the end when there is none).
    pub fn next(&mut self) -> (r: Option<(usize, &'a str)>)
        ensures
            final(self)@.0 == old(self)@.0,
            match next_word(old(self)@.0, old(self)@.2) {
                None => r is None && final(self)@.2.len() == 0,
                Some((a, l)) => r matches Some((i, w)) && i == old(self)@.1 + byte_offset(
                    old(self)@.2,
                    a,
                ) && w@ == old(self)@.2.subrange(a, a + l) && final(self)@.2 == old(self)@.2.skip(
                    a + l,
                ),
            },
    {
        match &mut self.inner {
            WordsIter::Ascii(it) => {
                let ghost s = it@.1;
                let found = next_ascii_word(it);
                proof {
                    lemma_word_in_range(true, s);
                    lemma_ascii_utf8_len(s);
                }
                found
            },
            WordsIter::Unicode(it) => next_unicode_word(it),
        }
    }

    /// Returns the last remaining word with its byte offset in the source
    /// string, and retreats before it (to the start when there is none).
    pub fn next_back(&mut self) -> (r: Option<(usize, &'a str)>)
        ensures
            final(self)@.0 == old(self)@.0,
            match prev_word(old(self)@.0, old(self)@.2) {
                None => r is None && final(self)@.2.len() == 0,
                Some((a, l)) => r matches Some((i, w)) && i == old(self)@.1 + byte_offset(
                    old(self)@.2,
                    a,
                ) && w@ == old(self)@.2.subrange(a, a + l) && final(self)@.2 == old(self)@.2.take(
                    a,
                ),
            },
    {
        match &mut self.inner {
            WordsIter::Ascii(it) => {
                let ghost s = it@.1;
                let found = prev_ascii_word(it);
                proof {
                    lemma_word_in_range(true, s);
                    lemma_ascii_utf8_len(s);
                }
                found
            },
            WordsIter::Unicode(it) => prev_unicode_word(it),
        }
    }

    /// The bounds on the number of words left: none are promised, and the
    /// general path promises at most one per byte.
    pub fn size_hint(&self) -> (r: (usize, Option<usize>))
        ensures
            r.0 == 0,
            self@.0 ==> r.1 is None,
            !self@.0 ==> r.1 == Some(utf8_len(self@.2) as usize),
    {
        match &self.inner {
            WordsIter::Ascii(_) => (0, None),
            WordsIter::Unicode(it) => (0, it.size_hint().1),
        }
    }
}

/// Iterates the word-boundary segments of the ASCII string `s` with their
/// byte offsets, by the ASCII fast path.
pub fn new_ascii_word_bound_indices(s: &str) -> (r: AsciiWordBoundIter<'_>)
    requires
        s.is_ascii(),
    ensures
        r@ == (0usize, s@),
{
    AsciiWordBoundIter::new(s)
}

/// Iterates the words of the ASCII string `s` by the ASCII fast path.
pub fn new_unicode_words_ascii<'a>(s: &'a str) -> (r: UnicodeWords<'a>)
    requires
        s.is_ascii(),
    ensures
        r@ == (true, s@),
{
    UnicodeWords { inner: WordsIter::Ascii(new_ascii_word_bound_indices(s)) }
}

/// Iterates the words of `s` by the general path.
pub fn new_unicode_words_general<'a>(s: &'a str) -> (r: UnicodeWords<'a>)
    ensures
        r@ == (false, s@),
{
    UnicodeWords { inner: WordsIter::Unicode(new_word_bound_indices(s)) }
}

/// Iterates the words of `s`, by the ASCII fast path when `s` is ASCII.
pub fn new_unicode_words(s: &str) -> (r: UnicodeWords<'_>)
    ensures
        r@ == (s.is_ascii(), s@),
{
    if s.is_ascii() {
        new_unicode_words_ascii(s)
    } else {
        new_unicode_words_general(s)
    }
}

/// Iterates the words of `s` with their byte offsets, by the ASCII fast path
/// when `s` is ASCII.
pub fn new_unicode_word_indices(s: &str) -> (r: UnicodeWordIndices<'_>)
    ensures
        r@ == (s.is_ascii(), 0usize, s@),
{
    let inner = if s.is_ascii() {
        WordsIter::Ascii(new_ascii_word_bound_indices(s))
    } else {
        WordsIter::Unicode(new_word_bound_indices(s))
    };
    UnicodeWordIndices { inner }
}

} // verus!
