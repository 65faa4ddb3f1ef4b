//! The ASCII fast path of word segmentation agrees with the general
//! state machines, given that the Unicode tables classify ASCII scalars as
//! UAX #29 lists them.

use crate::utf8_len::{utf8_len, utf8_width};
use crate::word::{
    alphanumeric, ascii_back_index, ascii_back_ok, ascii_codes, back_segment_index,
    front_segment_len, has_alnum, has_ascii_alnum, is_ascii_alnum_char, is_word, next_word,
    prev_word, ascii_front_len, ascii_front_ok,
    core_continues, core_extends_back, first_segment_len, is_alpha_byte, is_core_byte,
    is_digit_byte, is_infix_byte, last_segment_index, lemma_ascii_back_unique,
    lemma_ascii_front_unique, lemma_ascii_utf8_len, lemma_first_segment_len,
    lemma_last_segment_index,
};
use crate::word::char_is_alphanumeric;
use crate::word_cat::{
    connector_matches, extended_pictographic, is_connector_after, is_connector_before,
    is_extended_pictographic, word_cat, word_category, WordCat,
};
use crate::word_cursor::{first_segment_end, last_segment_start};
use crate::word_cursor_reverse::{
    reverse_finish, reverse_init, reverse_scan, reverse_step, ReversePending, ReverseState,
};
use crate::word_cursor_forward::{
    forward_finish, forward_init, forward_scan, forward_step, ForwardPending, ForwardState,
    Significant,
};
use vstd::prelude::*;

verus! {

/// The `Word_Break` value that UAX #29 gives an ASCII byte.
pub open spec fn ascii_word_cat(b: u8) -> WordCat {
    if b == 0x0d {
        WordCat::CR
    } else if b == 0x0a {
        WordCat::LF
    } else if b == 0x0b || b == 0x0c {
        WordCat::Newline
    } else if b == 0x27 {
        WordCat::SingleQuote
    } else if b == 0x22 {
        WordCat::DoubleQuote
    } else if b == 0x2e {
        WordCat::MidNumLet
    } else if b == 0x3a {
        WordCat::MidLetter
    } else if b == 0x2c || b == 0x3b {
        WordCat::MidNum
    } else if is_digit_byte(b) {
        WordCat::Numeric
    } else if is_alpha_byte(b) {
        WordCat::ALetter
    } else if b == 0x5f {
        WordCat::ExtendNumLet
    } else if b == 0x20 {
        WordCat::WSegSpace
    } else {
        WordCat::Any
    }
}

/// The tables give every ASCII scalar the `Word_Break` value that UAX #29
/// lists for it and mark none of them `Extended_Pictographic`, and the
/// alphanumeric ASCII scalars are the letters and digits.
pub open spec fn ascii_properties_standard() -> bool {
    &&& forall|c: char| '\0' <= c <= '\u{7f}' ==> #[trigger] word_cat(c) == ascii_word_cat(c as u8)
    &&& forall|c: char| '\0' <= c <= '\u{7f}' ==> !#[trigger] extended_pictographic(c)
    &&& forall|c: char| '\0' <= c <= '\u{7f}' ==> (#[trigger] alphanumeric(c) <==> is_ascii_alnum_char(c))
}

/// Where the forward machine, in state `st` before the `j`-th scalar of `s`,
/// ends the segment: at the boundary it reports, or where the document end
/// settles it.
pub open spec fn forward_end(st: ForwardState, s: Seq<char>, j: int) -> int {
    let r = forward_scan(st, s.skip(j), j);
    match r.1 {
        Some(x) => x as int,
        None => forward_finish(r.0, s.len() as usize) as int,
    }
}

/// `x` ends a run of spaces that starts the bytes `b`.
pub open spec fn space_end(b: Seq<u8>, x: int) -> bool {
    &&& 1 <= x <= b.len()
    &&& forall|i: int| 0 <= i < x ==> b[i] == 0x20
    &&& (x == b.len() || b[x] != 0x20)
}

/// `x` ends a core run (with its infixes) that starts the bytes `b`.
pub open spec fn core_end(b: Seq<u8>, x: int) -> bool {
    &&& 1 <= x <= b.len()
    &&& forall|i: int| 1 <= i < x ==> core_continues(b, i)
    &&& (x == b.len() || !core_continues(b, x))
}

/// The forward machine inside a core run, before the `j`-th byte: the last
/// byte was core and is significant, or it was a connector that waits on the
/// core byte before it.
pub open spec fn in_core(st: ForwardState, b: Seq<u8>, j: int) -> bool {
    if is_core_byte(b[j - 1]) {
        st.significant == Some(Significant::Cat(ascii_word_cat(b[j - 1]))) && st.pending is None
    } else {
        &&& j >= 2
        &&& is_core_byte(b[j - 2])
        &&& st.significant == Some(Significant::Cat(ascii_word_cat(b[j - 2])))
        &&& st.pending == Some(
            ForwardPending {
                connector: ascii_word_cat(b[j - 1]),
                connector_offset: (j - 1) as usize,
                left: ascii_word_cat(b[j - 2]),
            },
        )
        &&& is_connector_after(ascii_word_cat(b[j - 2]), ascii_word_cat(b[j - 1]))
    }
}

/// The categories of ASCII bytes: core bytes are exactly the letters, digits
/// and underscore, and no ASCII byte is ignored, Hebrew, Katakana or a
/// regional indicator.
proof fn lemma_ascii_cat(b: u8)
    ensures
        is_core_byte(b) <==> (ascii_word_cat(b) == WordCat::ALetter || ascii_word_cat(b)
            == WordCat::Numeric || ascii_word_cat(b) == WordCat::ExtendNumLet),
        is_digit_byte(b) <==> ascii_word_cat(b) == WordCat::Numeric,
        is_alpha_byte(b) <==> ascii_word_cat(b) == WordCat::ALetter,
        (b == 0x20) <==> ascii_word_cat(b) == WordCat::WSegSpace,
        ascii_word_cat(b) != WordCat::Extend,
        ascii_word_cat(b) != WordCat::Format,
        ascii_word_cat(b) != WordCat::ZWJ,
        ascii_word_cat(b) != WordCat::HebrewLetter,
        ascii_word_cat(b) != WordCat::Katakana,
        ascii_word_cat(b) != WordCat::RegionalIndicator,
        (b == 0x0d) <==> ascii_word_cat(b) == WordCat::CR,
        (b == 0x0a) <==> ascii_word_cat(b) == WordCat::LF,
{
}

/// An infix byte joins exactly where the connector rules join.
proof fn lemma_ascii_infix(c: u8, p: u8, q: u8)
    ensures
        is_infix_byte(c, p, q) <==> connector_matches(
            ascii_word_cat(p),
            ascii_word_cat(c),
            ascii_word_cat(q),
        ),
        is_infix_byte(c, p, q) ==> is_connector_after(ascii_word_cat(p), ascii_word_cat(c)),
{
}

/// Under the standard tables, scanning an ASCII scalar is scanning its byte.
proof fn lemma_scan_unfold(st: ForwardState, s: Seq<char>, j: int)
    requires
        ascii_properties_standard(),
        vstd::utf8::is_ascii_chars(s),
        s.len() <= usize::MAX,
        0 <= j < s.len(),
    ensures
        forward_scan(st, s.skip(j), j) == ({
            let step = forward_step(st, ascii_word_cat(ascii_codes(s)[j]), false, j as usize);
            if step.1 is Some {
                step
            } else {
                forward_scan(step.0, s.skip(j + 1), j + 1)
            }
        }),
{
    let t = s.skip(j);
    assert(t[0] == s[j]);
    assert(t.drop_first() =~= s.skip(j + 1));
    assert('\0' <= s[j] <= '\u{7f}');
    assert(word_cat(s[j]) == ascii_word_cat(s[j] as u8));
    assert(!extended_pictographic(s[j]));
    assert(utf8_width(s[j]) == 1);
}

proof fn lemma_space_run(st: ForwardState, s: Seq<char>, j: int)
    requires
        ascii_properties_standard(),
        vstd::utf8::is_ascii_chars(s),
        s.len() <= usize::MAX,
        1 <= j <= s.len(),
        st.significant == Some(Significant::Cat(WordCat::WSegSpace)),
        st.pending is None,
        !st.skipped,
        forall|i: int| 0 <= i < j ==> ascii_codes(s)[i] == 0x20,
    ensures
        space_end(ascii_codes(s), forward_end(st, s, j)),
    decreases s.len() - j,
{
    let b = ascii_codes(s);
    if j == s.len() {
        assert(s.skip(j) =~= Seq::<char>::empty());
    } else {
        lemma_scan_unfold(st, s, j);
        lemma_ascii_cat(b[j]);
        let step = forward_step(st, ascii_word_cat(b[j]), false, j as usize);
        if b[j] == 0x20 {
            lemma_space_run(step.0, s, j + 1);
        }
    }
}

proof fn lemma_core_run(st: ForwardState, s: Seq<char>, j: int)
    requires
        ascii_properties_standard(),
        vstd::utf8::is_ascii_chars(s),
        s.len() <= usize::MAX,
        1 <= j <= s.len(),
        in_core(st, ascii_codes(s), j),
        forall|i: int| 1 <= i < j - 1 ==> core_continues(ascii_codes(s), i),
    ensures
        core_end(ascii_codes(s), forward_end(st, s, j)),
    decreases s.len() - j,
{
    let b = ascii_codes(s);
    lemma_ascii_cat(b[j - 1]);
    if j >= 2 {
        lemma_ascii_cat(b[j - 2]);
    }
    if j == s.len() {
        assert(s.skip(j) =~= Seq::<char>::empty());
        if is_core_byte(b[j - 1]) {
            assert(core_continues(b, j - 1));
        }
    } else {
        lemma_scan_unfold(st, s, j);
        lemma_ascii_cat(b[j]);
        let step = forward_step(st, ascii_word_cat(b[j]), false, j as usize);
        if is_core_byte(b[j - 1]) {
            lemma_ascii_infix(b[j], b[j - 1], if j + 1 < s.len() {
                b[j + 1]
            } else {
                b[j]
            });
            if step.1 is None {
                assert(core_continues(b, j - 1));
                lemma_core_run(step.0, s, j + 1);
            }
        } else {
            lemma_ascii_infix(b[j - 1], b[j - 2], b[j]);
            if step.1 is None {
                assert(core_continues(b, j - 1));
                lemma_core_run(step.0, s, j + 1);
            }
        }
    }
}

/// Under the standard tables, the general machine's first segment of a
/// non-empty ASCII string is the fast path's.
pub proof fn lemma_ascii_first_segment(s: Seq<char>)
    requires
        ascii_properties_standard(),
        vstd::utf8::is_ascii_chars(s),
        s.len() <= usize::MAX,
        s.len() > 0,
    ensures
        first_segment_len(s) == ascii_front_len(s),
        ascii_front_ok(ascii_codes(s), first_segment_len(s)),
{
    let b = ascii_codes(s);
    lemma_ascii_utf8_len(s);
    assert(s.skip(0) =~= s);
    lemma_scan_unfold(forward_init(0), s, 0);
    lemma_ascii_cat(b[0]);
    let step = forward_step(forward_init(0), ascii_word_cat(b[0]), false, 0);
    let x = forward_end(forward_init(0), s, 0);
    assert(x == forward_end(step.0, s, 1));
    if b[0] == 0x20 {
        lemma_space_run(step.0, s, 1);
    } else if is_core_byte(b[0]) {
        lemma_core_run(step.0, s, 1);
    } else if s.len() >= 2 {
        lemma_scan_unfold(step.0, s, 1);
        lemma_ascii_cat(b[1]);
        let step1 = forward_step(step.0, ascii_word_cat(b[1]), false, 1);
        if b[0] == 0x0d && b[1] == 0x0a {
            if s.len() == 2 {
                assert(s.skip(2) =~= Seq::<char>::empty());
            } else {
                lemma_scan_unfold(step1.0, s, 2);
                lemma_ascii_cat(b[2]);
            }
        }
    } else {
        assert(s.skip(1) =~= Seq::<char>::empty());
    }
    assert(ascii_front_ok(b, x));
    assert(utf8_len(s) <= usize::MAX);
    lemma_first_segment_len(s);
    assert(first_segment_end(s) == x);
    lemma_ascii_front_unique(b, x, ascii_front_len(s));
}

/// Where the reverse machine, in state `st` after the scalars of `s` from
/// its `j`-th on, starts the segment: at the boundary it reports, or where
/// the document start settles it.
pub open spec fn reverse_start(st: ReverseState, s: Seq<char>, j: int) -> int {
    let r = reverse_scan(st, s.take(j), j);
    match r.1 {
        Some(x) => x as int,
        None => reverse_finish(r.0) as int,
    }
}

/// The reverse machine inside a core run, after the bytes from `j` on: the
/// byte at `j` is core and significant, or it is a connector that waits on
/// the core byte after it.
pub open spec fn in_core_back(st: ReverseState, b: Seq<u8>, j: int) -> bool {
    &&& st.regional is None
    &&& !st.include_left
    &&& !st.skipped
    &&& if is_core_byte(b[j]) {
        &&& st.significant == Some(Significant::Cat(ascii_word_cat(b[j])))
        &&& st.significant_offset == j
        &&& st.pending is None
    } else {
        &&& j + 1 < b.len()
        &&& is_core_byte(b[j + 1])
        &&& st.significant == Some(Significant::Cat(ascii_word_cat(b[j + 1])))
        &&& st.significant_offset == j + 1
        &&& st.pending == Some(
            ReversePending {
                connector: ascii_word_cat(b[j]),
                right: ascii_word_cat(b[j + 1]),
                right_offset: (j + 1) as usize,
            },
        )
    }
}

/// A connector joins leftwards exactly where the infix rule joins.
proof fn lemma_ascii_infix_back(c: u8, p: u8, q: u8)
    ensures
        is_infix_byte(c, p, q) ==> is_connector_before(ascii_word_cat(c), ascii_word_cat(q)),
        !is_infix_byte(c, c, q),
{
}

/// Under the standard tables, scanning an ASCII scalar backward is scanning
/// its byte.
proof fn lemma_scan_back_unfold(st: ReverseState, s: Seq<char>, j: int)
    requires
        ascii_properties_standard(),
        vstd::utf8::is_ascii_chars(s),
        s.len() <= usize::MAX,
        0 < j <= s.len(),
    ensures
        reverse_scan(st, s.take(j), j) == ({
            let step = reverse_step(st, ascii_word_cat(ascii_codes(s)[j - 1]), false, (j - 1) as usize);
            if step.1 is Some {
                step
            } else {
                reverse_scan(step.0, s.take(j - 1), j - 1)
            }
        }),
{
    let t = s.take(j);
    assert(t.last() == s[j - 1]);
    assert(t.drop_last() =~= s.take(j - 1));
    assert('\0' <= s[j - 1] <= '\u{7f}');
    assert(word_cat(s[j - 1]) == ascii_word_cat(s[j - 1] as u8));
    assert(!extended_pictographic(s[j - 1]));
    assert(utf8_width(s[j - 1]) == 1);
}

proof fn lemma_space_run_back(st: ReverseState, s: Seq<char>, j: int)
    requires
        ascii_properties_standard(),
        vstd::utf8::is_ascii_chars(s),
        s.len() <= usize::MAX,
        0 <= j < s.len(),
        st.significant == Some(Significant::Cat(WordCat::WSegSpace)),
        st.significant_offset == j,
        st.pending is None,
        st.regional is None,
        !st.skipped,
        !st.include_left,
        forall|i: int| j <= i < s.len() ==> ascii_codes(s)[i] == 0x20,
    ensures
        ({
            let x = reverse_start(st, s, j);
            &&& 0 <= x <= j
            &&& forall|i: int| x <= i < s.len() ==> ascii_codes(s)[i] == 0x20
            &&& (x == 0 || ascii_codes(s)[x - 1] != 0x20)
        }),
    decreases j,
{
    let b = ascii_codes(s);
    if j == 0 {
        assert(s.take(0) =~= Seq::<char>::empty());
    } else {
        lemma_scan_back_unfold(st, s, j);
        lemma_ascii_cat(b[j - 1]);
        let step = reverse_step(st, ascii_word_cat(b[j - 1]), false, (j - 1) as usize);
        if b[j - 1] == 0x20 {
            lemma_space_run_back(step.0, s, j - 1);
        }
    }
}

proof fn lemma_core_run_back(st: ReverseState, s: Seq<char>, j: int)
    requires
        ascii_properties_standard(),
        vstd::utf8::is_ascii_chars(s),
        s.len() <= usize::MAX,
        0 <= j < s.len(),
        in_core_back(st, ascii_codes(s), j),
        forall|i: int| j < i < s.len() - 1 ==> core_extends_back(ascii_codes(s), i),
    ensures
        ({
            let x = reverse_start(st, s, j);
            let b = ascii_codes(s);
            &&& 0 <= x < s.len()
            &&& forall|i: int| x <= i < s.len() - 1 ==> core_extends_back(b, i)
            &&& (x == 0 || !core_extends_back(b, x - 1))
        }),
    decreases j,
{
    let b = ascii_codes(s);
    lemma_ascii_cat(b[j]);
    if j + 1 < s.len() {
        lemma_ascii_cat(b[j + 1]);
    }
    if j == 0 {
        assert(s.take(0) =~= Seq::<char>::empty());
        if !is_core_byte(b[0]) {
            lemma_ascii_infix_back(b[0], b[0], b[1]);
        }
    } else {
        lemma_scan_back_unfold(st, s, j);
        lemma_ascii_cat(b[j - 1]);
        let step = reverse_step(st, ascii_word_cat(b[j - 1]), false, (j - 1) as usize);
        if is_core_byte(b[j]) {
            lemma_ascii_infix_back(b[j - 1], if j >= 2 {
                b[j - 2]
            } else {
                b[j - 1]
            }, b[j]);
            if step.1 is None {
                lemma_core_run_back(step.0, s, j - 1);
            }
        } else {
            lemma_ascii_infix(b[j], b[j - 1], b[j + 1]);
            if step.1 is None {
                assert(core_extends_back(b, j));
                lemma_core_run_back(step.0, s, j - 1);
            }
        }
    }
}

/// Under the standard tables, the general machine's last segment of a
/// non-empty ASCII string is the fast path's.
pub proof fn lemma_ascii_last_segment(s: Seq<char>)
    requires
        ascii_properties_standard(),
        vstd::utf8::is_ascii_chars(s),
        s.len() > 0,
        s.len() <= usize::MAX,
    ensures
        last_segment_index(s) == ascii_back_index(s),
        ascii_back_ok(ascii_codes(s), last_segment_index(s)),
{
    let b = ascii_codes(s);
    let n = s.len() as int;
    lemma_ascii_utf8_len(s);
    assert(s.take(n) =~= s);
    lemma_scan_back_unfold(reverse_init(n as usize), s, n);
    lemma_ascii_cat(b[n - 1]);
    let step = reverse_step(reverse_init(n as usize), ascii_word_cat(b[n - 1]), false, (n - 1) as usize);
    let x = reverse_start(reverse_init(n as usize), s, n);
    assert(x == reverse_start(step.0, s, n - 1));
    if b[n - 1] == 0x20 {
        lemma_space_run_back(step.0, s, n - 1);
    } else if is_core_byte(b[n - 1]) {
        lemma_core_run_back(step.0, s, n - 1);
    } else if n >= 2 {
        lemma_scan_back_unfold(step.0, s, n - 1);
        lemma_ascii_cat(b[n - 2]);
        let step1 = reverse_step(step.0, ascii_word_cat(b[n - 2]), false, (n - 2) as usize);
        if b[n - 2] == 0x0d && b[n - 1] == 0x0a {
            if n == 2 {
                assert(s.take(0) =~= Seq::<char>::empty());
            } else {
                lemma_scan_back_unfold(step1.0, s, n - 2);
                lemma_ascii_cat(b[n - 3]);
            }
        }
    } else {
        assert(s.take(0) =~= Seq::<char>::empty());
    }
    assert(ascii_back_ok(b, x));
    assert(utf8_len(s) <= usize::MAX);
    lemma_last_segment_index(s);
    assert(last_segment_start(s) == x);
    lemma_ascii_back_unique(b, x, ascii_back_index(s));
}

/// A segment of an ASCII string is a word on one path exactly when it is on
/// the other.
proof fn lemma_ascii_is_word(w: Seq<char>)
    requires
        ascii_properties_standard(),
        vstd::utf8::is_ascii_chars(w),
    ensures
        is_word(true, w) == is_word(false, w),
{
    if has_alnum(w) {
        let i = choose|i: int| 0 <= i < w.len() && alphanumeric(#[trigger] w[i]);
        assert('\0' <= w[i] <= '\u{7f}');
    }
    if has_ascii_alnum(w) {
        let i = choose|i: int| 0 <= i < w.len() && is_ascii_alnum_char(#[trigger] w[i]);
        assert('\0' <= w[i] <= '\u{7f}');
        assert(alphanumeric(w[i]));
    }
}

/// The fast path's words of an ASCII string, from the front, are the
/// general path's.
proof fn lemma_ascii_next_word(s: Seq<char>)
    requires
        ascii_properties_standard(),
        vstd::utf8::is_ascii_chars(s),
        s.len() <= usize::MAX,
    ensures
        next_word(true, s) == next_word(false, s),
    decreases s.len(),
{
    if s.len() > 0 {
        lemma_ascii_first_segment(s);
        lemma_ascii_front_len_range(s);
        let k = first_segment_len(s);
        assert(vstd::utf8::is_ascii_chars(s.take(k)));
        assert(vstd::utf8::is_ascii_chars(s.skip(k)));
        lemma_ascii_is_word(s.take(k));
        lemma_ascii_next_word(s.skip(k));
    }
}

/// The fast path's words of an ASCII string, from the back, are the
/// general path's.
proof fn lemma_ascii_prev_word(s: Seq<char>)
    requires
        ascii_properties_standard(),
        vstd::utf8::is_ascii_chars(s),
        s.len() <= usize::MAX,
    ensures
        prev_word(true, s) == prev_word(false, s),
    decreases s.len(),
{
    if s.len() > 0 {
        lemma_ascii_last_segment(s);
        let k = last_segment_index(s);
        assert(vstd::utf8::is_ascii_chars(s.take(k)));
        assert(vstd::utf8::is_ascii_chars(s.skip(k)));
        lemma_ascii_is_word(s.skip(k));
        lemma_ascii_prev_word(s.take(k));
    }
}

proof fn lemma_ascii_front_len_range(s: Seq<char>)
    requires
        ascii_properties_standard(),
        vstd::utf8::is_ascii_chars(s),
        s.len() > 0,
        s.len() <= usize::MAX,
    ensures
        0 < first_segment_len(s) <= s.len(),
{
    lemma_ascii_first_segment(s);
}

/// Fast path and general path agree on ASCII text: with the standard
/// properties of ASCII scalars, the segments taken from either end and the
/// words picked among them are the same.
pub proof fn law_ascii_fast_path_agrees(s: Seq<char>)
    requires
        ascii_properties_standard(),
        vstd::utf8::is_ascii_chars(s),
        s.len() <= usize::MAX,
    ensures
        s.len() > 0 ==> front_segment_len(true, s) == front_segment_len(false, s),
        s.len() > 0 ==> back_segment_index(true, s) == back_segment_index(false, s),
        next_word(true, s) == next_word(false, s),
        prev_word(true, s) == prev_word(false, s),
{
    if s.len() > 0 {
        lemma_ascii_first_segment(s);
        lemma_ascii_last_segment(s);
    }
    lemma_ascii_next_word(s);
    lemma_ascii_prev_word(s);
}

fn listed_category(b: u8) -> (r: WordCat)
    ensures
        r == ascii_word_cat(b),
{
    if b == 0x0d {
        WordCat::CR
    } else if b == 0x0a {
        WordCat::LF
    } else if b == 0x0b || b == 0x0c {
        WordCat::Newline
    } else if b == 0x27 {
        WordCat::SingleQuote
    } else if b == 0x22 {
        WordCat::DoubleQuote
    } else if b == 0x2e {
        WordCat::MidNumLet
    } else if b == 0x3a {
        WordCat::MidLetter
    } else if b == 0x2c || b == 0x3b {
        WordCat::MidNum
    } else if 0x30 <= b && b <= 0x39 {
        WordCat::Numeric
    } else if (0x41 <= b && b <= 0x5a) || (0x61 <= b && b <= 0x7a) {
        WordCat::ALetter
    } else if b == 0x5f {
        WordCat::ExtendNumLet
    } else if b == 0x20 {
        WordCat::WSegSpace
    } else {
        WordCat::Any
    }
}

/// Checks, through the property lookups, every ASCII scalar against the
/// listed ASCII properties; `true` establishes `ascii_properties_standard`,
/// the premise of `law_ascii_fast_path_agrees`.
pub fn ascii_properties_hold() -> (r: bool)
    ensures
        r ==> ascii_properties_standard(),
{
    let mut b: u8 = 0;
    while b < 128
        invariant
            b <= 128,
            forall|c: char|
                '\0' <= c <= '\u{7f}' && (c as u32) < b ==> #[trigger] word_cat(c) == ascii_word_cat(
                    c as u8,
                ) && !extended_pictographic(c) && (alphanumeric(c) <==> is_ascii_alnum_char(c)),
        decreases 128 - b,
    {
        let c = b as char;
        assert(c as u32 == b as u32);
        if word_category(c) != listed_category(b) {
            return false;
        }
        if is_extended_pictographic(c) {
            return false;
        }
        let alnum = (0x30 <= b && b <= 0x39) || (0x41 <= b && b <= 0x5a) || (0x61 <= b && b
            <= 0x7a);
        if char_is_alphanumeric(c) != alnum {
            return false;
        }
        proof {
            assert forall|d: char|
                '\0' <= d <= '\u{7f}' && (d as u32) < b + 1 implies #[trigger] word_cat(d)
                == ascii_word_cat(d as u8) && !extended_pictographic(d) && (alphanumeric(d)
                <==> is_ascii_alnum_char(d)) by {
                if (d as u32) == b {
                    assert(d == c);
                    assert(d as u8 == b);
                }
            }
        }
        b = b + 1;
    }
    proof {
        assert forall|c: char| '\0' <= c <= '\u{7f}' implies #[trigger] word_cat(c)
            == ascii_word_cat(c as u8) by {
            assert((c as u32) < 128);
        }
        assert forall|c: char| '\0' <= c <= '\u{7f}' implies !#[trigger] extended_pictographic(c) by {
            assert((c as u32) < 128);
            assert(word_cat(c) == ascii_word_cat(c as u8));
        }
        assert forall|c: char| '\0' <= c <= '\u{7f}' implies (#[trigger] alphanumeric(c)
            <==> is_ascii_alnum_char(c)) by {
            assert((c as u32) < 128);
            assert(word_cat(c) == ascii_word_cat(c as u8));
        }
    }
    true
}

} // verus!
