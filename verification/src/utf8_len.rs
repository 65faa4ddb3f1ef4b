//! Byte lengths of UTF-8 encoded scalar sequences, and splitting a `str` at a
//! scalar boundary.

use vstd::prelude::*;
use vstd::string::StringSliceAdditionalSpecFns;
use vstd::utf8::*;

verus! {

broadcast use vstd::seq::group_seq_axioms;

/// The number of bytes in the UTF-8 encoding of `c`.
pub open spec fn utf8_width(c: char) -> nat {
    let v = c as u32;
    if v <= 0x7f {
        1
    } else if v <= 0x7ff {
        2
    } else if v <= 0xffff {
        3
    } else {
        4
    }
}

/// The number of bytes in the UTF-8 encoding of `s`.
pub open spec fn utf8_len(s: Seq<char>) -> nat
    decreases s.len(),
{
    if s.len() == 0 {
        0
    } else {
        utf8_width(s[0]) + utf8_len(s.drop_first())
    }
}

/// The byte offset, within the encoding of `s`, at which its `k`-th scalar begins.
pub open spec fn byte_offset(s: Seq<char>, k: int) -> nat {
    utf8_len(s.take(k))
}

/// Returns the number of bytes in the UTF-8 encoding of `c`.
pub fn char_width(c: char) -> (w: usize)
    ensures
        w == utf8_width(c),
        1 <= w <= 4,
{
    let v = c as u32;
    if v <= 0x7f {
        1
    } else if v <= 0x7ff {
        2
    } else if v <= 0xffff {
        3
    } else {
        4
    }
}

pub proof fn lemma_width_is_encoding_len(c: char)
    ensures
        encode_scalar(c as u32).len() == utf8_width(c),
{
    char_is_scalar(c);
}

pub proof fn lemma_encode_len(s: Seq<char>)
    ensures
        encode_utf8(s).len() == utf8_len(s),
    decreases s.len(),
{
    if s.len() > 0 {
        lemma_width_is_encoding_len(s[0]);
        lemma_encode_len(s.drop_first());
    }
}

pub proof fn lemma_utf8_len_concat(a: Seq<char>, b: Seq<char>)
    ensures
        utf8_len(a + b) == utf8_len(a) + utf8_len(b),
    decreases a.len(),
{
    if a.len() == 0 {
        assert(a + b =~= b);
    } else {
        assert((a + b).drop_first() =~= a.drop_first() + b);
        lemma_utf8_len_concat(a.drop_first(), b);
    }
}

pub proof fn lemma_utf8_len_single(c: char)
    ensures
        utf8_len(seq![c]) == utf8_width(c),
{
    assert(seq![c].drop_first() =~= Seq::<char>::empty());
    assert(utf8_len(Seq::<char>::empty()) == 0);
    assert(utf8_len(seq![c]) == utf8_width(seq![c][0]) + utf8_len(seq![c].drop_first()));
}

/// The offset of scalar `k + 1` is that of scalar `k` plus its width.
pub proof fn lemma_byte_offset_step(s: Seq<char>, k: int)
    requires
        0 <= k < s.len(),
    ensures
        byte_offset(s, k + 1) == byte_offset(s, k) + utf8_width(s[k]),
{
    assert(s.take(k + 1) =~= s.take(k) + seq![s[k]]);
    lemma_utf8_len_concat(s.take(k), seq![s[k]]);
    lemma_utf8_len_single(s[k]);
}

/// The whole sequence ends at the byte length of its encoding.
pub proof fn lemma_byte_offset_full(s: Seq<char>)
    ensures
        byte_offset(s, s.len() as int) == utf8_len(s),
{
    assert(s.take(s.len() as int) =~= s);
}

/// Offsets grow with the scalar index.
pub proof fn lemma_byte_offset_mono(s: Seq<char>, j: int, k: int)
    requires
        0 <= j <= k <= s.len(),
    ensures
        byte_offset(s, j) <= byte_offset(s, k),
        j < k ==> byte_offset(s, j) < byte_offset(s, k),
    decreases k - j,
{
    if j < k {
        lemma_byte_offset_step(s, k - 1);
        lemma_byte_offset_mono(s, j, k - 1);
    }
}

/// Distinct scalar indices have distinct byte offsets.
pub proof fn lemma_byte_offset_injective(s: Seq<char>, x: int, y: int)
    requires
        0 <= x <= s.len(),
        0 <= y <= s.len(),
        byte_offset(s, x) == byte_offset(s, y),
    ensures
        x == y,
{
    if x < y {
        lemma_byte_offset_mono(s, x, y);
    } else if y < x {
        lemma_byte_offset_mono(s, y, x);
    }
}


pub proof fn lemma_utf8_len_ge(s: Seq<char>)
    ensures
        utf8_len(s) >= s.len(),
    decreases s.len(),
{
    if s.len() > 0 {
        lemma_utf8_len_ge(s.drop_first());
    }
}

pub proof fn lemma_encode_concat(a: Seq<char>, b: Seq<char>)
    ensures
        encode_utf8(a + b) == encode_utf8(a) + encode_utf8(b),
    decreases a.len(),
{
    if a.len() == 0 {
        assert(a + b =~= b);
        assert(encode_utf8(a) + encode_utf8(b) =~= encode_utf8(b));
    } else {
        assert((a + b).drop_first() =~= a.drop_first() + b);
        assert((a + b)[0] == a[0]);
        lemma_encode_concat(a.drop_first(), b);
        assert(encode_utf8(a + b) =~= encode_utf8(a) + encode_utf8(b));
    }
}

proof fn lemma_char_boundary(s: Seq<char>, k: int)
    requires
        0 <= k <= s.len(),
    ensures
        is_char_boundary(encode_utf8(s), byte_offset(s, k) as int),
    decreases k,
{
    encode_utf8_valid_utf8(s);
    if k > 0 {
        let bytes = encode_utf8(s);
        encode_utf8_first_scalar(s);
        lemma_width_is_encoding_len(s[0]);
        assert(pop_first_scalar(bytes) =~= encode_utf8(s.drop_first()));
        assert(s.take(k) =~= seq![s[0]] + s.drop_first().take(k - 1));
        lemma_utf8_len_concat(seq![s[0]], s.drop_first().take(k - 1));
        lemma_utf8_len_single(s[0]);
        lemma_char_boundary(s.drop_first(), k - 1);
        lemma_byte_offset_mono(s, k, s.len() as int);
        lemma_byte_offset_full(s);
        lemma_encode_len(s);
    }
}

/// Splits `s` before its `k`-th scalar, whose byte offset is `idx`.
pub fn split_at_scalar<'a>(s: &'a str, idx: usize, Ghost(k): Ghost<int>) -> (r: (&'a str, &'a str))
    requires
        0 <= k <= s@.len(),
        idx == byte_offset(s@, k),
    ensures
        r.0@ == s@.take(k),
        r.1@ == s@.skip(k),
{
    proof {
        lemma_char_boundary(s@, k);
    }
    let r = s.split_at(idx);
    proof {
        let bytes = encode_utf8(s@);
        assert(s@ =~= s@.take(k) + s@.skip(k));
        lemma_encode_concat(s@.take(k), s@.skip(k));
        lemma_encode_len(s@.take(k));
        assert(r.0.spec_bytes() =~= encode_utf8(s@.take(k)));
        assert(r.1.spec_bytes() =~= encode_utf8(s@.skip(k)));
        encode_utf8_decode_utf8(r.0@);
        encode_utf8_decode_utf8(s@.take(k));
        encode_utf8_decode_utf8(r.1@);
        encode_utf8_decode_utf8(s@.skip(k));
    }
    r
}

/// Returns the byte length of `s`.
pub fn str_len(s: &str) -> (n: usize)
    ensures
        n == utf8_len(s@),
        n >= s@.len(),
{
    broadcast use vstd::slice::group_slice_axioms;

    proof {
        lemma_str_len(s);
    }
    let bytes = s.as_bytes();
    bytes.len()
}

/// The byte length of a `str` is the UTF-8 length of its scalars.
pub proof fn lemma_str_len(s: &str)
    ensures
        s.spec_bytes().len() == utf8_len(s@),
        utf8_len(s@) >= s@.len(),
{
    lemma_encode_len(s@);
    lemma_utf8_len_ge(s@);
}

/// The scalars of `s`, in order.
pub fn collect_scalars(s: &str) -> (v: Vec<char>)
    ensures
        v@ == s@,
{
    let mut v: Vec<char> = Vec::new();
    for ch in it: s.chars()
        invariant
            it.seq() == s@,
            0 <= it.index() <= s@.len(),
            v@ == s@.take(it.index()),
    {
        let ghost k = it.index();
        assert(ch == s@[k]);
        v.push(ch);
        assert(v@ =~= s@.take(k + 1));
    }
    assert(s@.take(s@.len() as int) =~= s@);
    v
}

} // verus!
