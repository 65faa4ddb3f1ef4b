use unicode_segmentation::word_cat::{is_extended_pictographic, word_category, WordCat};

fn listed_category(b: u8) -> WordCat {
    match b {
        0x0d => WordCat::CR,
        0x0a => WordCat::LF,
        0x0b | 0x0c => WordCat::Newline,
        b'\'' => WordCat::SingleQuote,
        b'"' => WordCat::DoubleQuote,
        b'.' => WordCat::MidNumLet,
        b':' => WordCat::MidLetter,
        b',' | b';' => WordCat::MidNum,
        b'0'..=b'9' => WordCat::Numeric,
        b'A'..=b'Z' | b'a'..=b'z' => WordCat::ALetter,
        b'_' => WordCat::ExtendNumLet,
        b' ' => WordCat::WSegSpace,
        _ => WordCat::Any,
    }
}

#[test]
fn ascii_scalars_have_their_listed_properties() {
    for b in 0u8..128 {
        let c = b as char;
        assert_eq!(word_category(c), listed_category(b), "byte {b:#04x}");
        assert!(!is_extended_pictographic(c), "byte {b:#04x}");
        assert_eq!(c.is_alphanumeric(), c.is_ascii_alphanumeric(), "byte {b:#04x}");
    }
}

#[test]
fn ascii_property_check_passes() {
    assert!(unicode_segmentation::word_ascii::ascii_properties_hold());
}
