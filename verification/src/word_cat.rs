//! Unicode word-break categories (UAX #29) and the pairwise rules that the
//! streaming word-boundary state machines consult.

use icu_properties::props::{ExtendedPictographic, WordBreak};
use icu_properties::{CodePointMapData, CodePointSetData};
use vstd::prelude::*;

verus! {

/// The `Word_Break` property value of a scalar, as far as UAX #29 word
/// segmentation distinguishes them.
#[derive(Clone, Copy, Debug, PartialEq, Eq, Structural)]
pub enum WordCat {
    Any,
    ALetter,
    CR,
    DoubleQuote,
    Extend,
    ExtendNumLet,
    Format,
    HebrewLetter,
    Katakana,
    LF,
    MidLetter,
    MidNum,
    MidNumLet,
    Newline,
    Numeric,
    RegionalIndicator,
    SingleQuote,
    WSegSpace,
    ZWJ,
}

/// The ICU4C `UWordBreakValues` number that the Unicode character database
/// assigns to `c` (the data compiled into `icu_properties`).
pub uninterp spec fn word_break_value(c: char) -> u16;

/// Whether the Unicode character database gives `c` the binary property
/// `Extended_Pictographic` (the data compiled into `icu_properties`).
pub uninterp spec fn extended_pictographic(c: char) -> bool;

/// Trusted: `CodePointMapData::<WordBreak>::new().get(c)` from `icu_properties`,
/// converted by its `From` impl to its ICU4C number. The contract claims only
/// that the result is a function of `c` alone (the compiled data is a
/// constant table).
#[verifier::external_body]
fn icu_word_break_value(c: char) -> (r: u16)
    ensures
        r == word_break_value(c),
{
    u16::from(CodePointMapData::<WordBreak>::new().get(c))
}

/// Trusted: `CodePointSetData::new::<ExtendedPictographic>().contains(c)` from
/// `icu_properties`. The contract claims only that the answer is a function of
/// `c` alone (the compiled data is a constant set).
#[verifier::external_body]
fn icu_extended_pictographic(c: char) -> (r: bool)
    ensures
        r == extended_pictographic(c),
{
    CodePointSetData::new::<ExtendedPictographic>().contains(c)
}

/// The category named by an ICU4C `UWordBreakValues` number. Values that no
/// current scalar carries (the retired emoji-modifier classes) fall to `Any`.
pub open spec fn cat_of_value(v: u16) -> WordCat {
    if v == 1 {
        WordCat::ALetter
    } else if v == 2 {
        WordCat::Format
    } else if v == 3 {
        WordCat::Katakana
    } else if v == 4 {
        WordCat::MidLetter
    } else if v == 5 {
        WordCat::MidNum
    } else if v == 6 {
        WordCat::Numeric
    } else if v == 7 {
        WordCat::ExtendNumLet
    } else if v == 8 {
        WordCat::CR
    } else if v == 9 {
        WordCat::Extend
    } else if v == 10 {
        WordCat::LF
    } else if v == 11 {
        WordCat::MidNumLet
    } else if v == 12 {
        WordCat::Newline
    } else if v == 13 {
        WordCat::RegionalIndicator
    } else if v == 14 {
        WordCat::HebrewLetter
    } else if v == 15 {
        WordCat::SingleQuote
    } else if v == 16 {
        WordCat::DoubleQuote
    } else if v == 21 {
        WordCat::ZWJ
    } else if v == 22 {
        WordCat::WSegSpace
    } else {
        WordCat::Any
    }
}

/// The word-break category of a scalar.
pub open spec fn word_cat(c: char) -> WordCat {
    cat_of_value(word_break_value(c))
}

/// Maps an ICU4C `UWordBreakValues` number to its category.
pub fn category_of_value(v: u16) -> (r: WordCat)
    ensures
        r == cat_of_value(v),
{
    match v {
        1 => WordCat::ALetter,
        2 => WordCat::Format,
        3 => WordCat::Katakana,
        4 => WordCat::MidLetter,
        5 => WordCat::MidNum,
        6 => WordCat::Numeric,
        7 => WordCat::ExtendNumLet,
        8 => WordCat::CR,
        9 => WordCat::Extend,
        10 => WordCat::LF,
        11 => WordCat::MidNumLet,
        12 => WordCat::Newline,
        13 => WordCat::RegionalIndicator,
        14 => WordCat::HebrewLetter,
        15 => WordCat::SingleQuote,
        16 => WordCat::DoubleQuote,
        21 => WordCat::ZWJ,
        22 => WordCat::WSegSpace,
        _ => WordCat::Any,
    }
}

/// Returns the word-break category of `c`.
pub fn word_category(c: char) -> (r: WordCat)
    ensures
        r == word_cat(c),
{
    category_of_value(icu_word_break_value(c))
}

/// Returns whether `c` is `Extended_Pictographic`.
pub fn is_extended_pictographic(c: char) -> (r: bool)
    ensures
        r == extended_pictographic(c),
{
    icu_extended_pictographic(c)
}

/// Extend, Format and ZWJ are skipped by WB4.
#[verifier::allow_in_spec]
pub fn is_ignored(c: WordCat) -> bool
    returns
        c == WordCat::Extend || c == WordCat::Format || c == WordCat::ZWJ,
{
    c == WordCat::Extend || c == WordCat::Format || c == WordCat::ZWJ
}

/// CR, LF and Newline.
#[verifier::allow_in_spec]
pub fn is_newline(c: WordCat) -> bool
    returns
        c == WordCat::CR || c == WordCat::LF || c == WordCat::Newline,
{
    c == WordCat::CR || c == WordCat::LF || c == WordCat::Newline
}

/// WB3a/WB3b: a break on either side of a newline, except inside CR LF.
#[verifier::allow_in_spec]
pub fn is_hard_break(left: WordCat, right: WordCat) -> bool
    returns
        (is_newline(left) || is_newline(right)) && !(left == WordCat::CR && right == WordCat::LF),
{
    (is_newline(left) || is_newline(right)) && !(left == WordCat::CR && right == WordCat::LF)
}

/// AHLetter: ALetter or Hebrew_Letter.
#[verifier::allow_in_spec]
pub fn is_ahletter(c: WordCat) -> bool
    returns
        c == WordCat::ALetter || c == WordCat::HebrewLetter,
{
    c == WordCat::ALetter || c == WordCat::HebrewLetter
}

/// The categories that ExtendNumLet joins with (WB13a/WB13b).
#[verifier::allow_in_spec]
pub fn is_wordish(c: WordCat) -> bool
    returns
        is_ahletter(c) || c == WordCat::Numeric || c == WordCat::Katakana || c
            == WordCat::ExtendNumLet,
{
    is_ahletter(c) || c == WordCat::Numeric || c == WordCat::Katakana || c
        == WordCat::ExtendNumLet
}

/// Adjacent pairs that never break (WB5, WB7a, WB8, WB9, WB10, WB13, WB13a, WB13b).
#[verifier::allow_in_spec]
pub fn pair_matches(left: WordCat, right: WordCat) -> bool
    returns
        (is_ahletter(left) && is_ahletter(right)) || (left == WordCat::HebrewLetter && right
            == WordCat::SingleQuote) || (left == WordCat::Numeric && right == WordCat::Numeric)
            || (is_ahletter(left) && right == WordCat::Numeric) || (left == WordCat::Numeric
            && is_ahletter(right)) || (left == WordCat::Katakana && right == WordCat::Katakana)
            || (is_wordish(left) && right == WordCat::ExtendNumLet) || (left
            == WordCat::ExtendNumLet && is_wordish(right)),
{
    (is_ahletter(left) && is_ahletter(right)) || (left == WordCat::HebrewLetter && right
        == WordCat::SingleQuote) || (left == WordCat::Numeric && right == WordCat::Numeric) || (
    is_ahletter(left) && right == WordCat::Numeric) || (left == WordCat::Numeric && is_ahletter(
        right,
    )) || (left == WordCat::Katakana && right == WordCat::Katakana) || (is_wordish(left) && right
        == WordCat::ExtendNumLet) || (left == WordCat::ExtendNumLet && is_wordish(right))
}

/// The connectors that may join AHLetter to AHLetter (WB6/WB7).
#[verifier::allow_in_spec]
pub fn is_letter_connector(c: WordCat) -> bool
    returns
        c == WordCat::MidLetter || c == WordCat::MidNumLet || c == WordCat::SingleQuote,
{
    c == WordCat::MidLetter || c == WordCat::MidNumLet || c == WordCat::SingleQuote
}

/// The connectors that may join Numeric to Numeric (WB11/WB12).
#[verifier::allow_in_spec]
pub fn is_number_connector(c: WordCat) -> bool
    returns
        c == WordCat::MidNum || c == WordCat::MidNumLet || c == WordCat::SingleQuote,
{
    c == WordCat::MidNum || c == WordCat::MidNumLet || c == WordCat::SingleQuote
}

/// Whether `connector`, following `left`, may still join `left` to a later
/// scalar (the left half of WB6/WB7/WB7b/WB7c/WB11/WB12).
#[verifier::allow_in_spec]
pub fn is_connector_after(left: WordCat, connector: WordCat) -> bool
    returns
        (is_ahletter(left) && is_letter_connector(connector)) || (left == WordCat::HebrewLetter
            && connector == WordCat::DoubleQuote) || (left == WordCat::Numeric
            && is_number_connector(connector)),
{
    (is_ahletter(left) && is_letter_connector(connector)) || (left == WordCat::HebrewLetter
        && connector == WordCat::DoubleQuote) || (left == WordCat::Numeric && is_number_connector(
        connector,
    ))
}

/// Whether `connector` preceding `right` may still join an earlier scalar to
/// `right` (the right half of WB6/WB7/WB7b/WB7c/WB11/WB12).
#[verifier::allow_in_spec]
pub fn is_connector_before(connector: WordCat, right: WordCat) -> bool
    returns
        (is_ahletter(right) && is_letter_connector(connector)) || (right == WordCat::HebrewLetter
            && connector == WordCat::DoubleQuote) || (right == WordCat::Numeric
            && is_number_connector(connector)),
{
    (is_ahletter(right) && is_letter_connector(connector)) || (right == WordCat::HebrewLetter
        && connector == WordCat::DoubleQuote) || (right == WordCat::Numeric && is_number_connector(
        connector,
    ))
}

/// Whether `left connector right` is one of the joined triples of
/// WB6/WB7, WB7b/WB7c and WB11/WB12.
#[verifier::allow_in_spec]
pub fn connector_matches(left: WordCat, connector: WordCat, right: WordCat) -> bool
    returns
        (is_ahletter(left) && is_letter_connector(connector) && is_ahletter(right)) || (left
            == WordCat::HebrewLetter && connector == WordCat::DoubleQuote && right
            == WordCat::HebrewLetter) || (left == WordCat::Numeric && is_number_connector(
            connector,
        ) && right == WordCat::Numeric),
{
    (is_ahletter(left) && is_letter_connector(connector) && is_ahletter(right)) || (left
        == WordCat::HebrewLetter && connector == WordCat::DoubleQuote && right
        == WordCat::HebrewLetter) || (left == WordCat::Numeric && is_number_connector(connector)
        && right == WordCat::Numeric)
}

} // verus!
