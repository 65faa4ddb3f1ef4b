use unicode_segmentation::word::{
    new_ascii_word_bound_indices, new_unicode_words_ascii, new_unicode_words_general,
    AsciiWordBoundIter,
};
use unicode_segmentation::word_cat::{is_extended_pictographic, word_category, WordCat};
use unicode_segmentation::{
    new_unicode_word_indices, new_unicode_words, new_word_bound_indices, new_word_bounds,
};

fn collect_ascii(iter: &mut AsciiWordBoundIter) -> Vec<(usize, String)> {
    let mut out = Vec::new();
    while let Some((i, w)) = iter.next() {
        out.push((i, w.to_string()));
    }
    out
}

fn collect_general(s: &str) -> Vec<(usize, String)> {
    let mut iter = new_word_bound_indices(s);
    let mut out = Vec::new();
    while let Some((i, w)) = iter.next() {
        out.push((i, w.to_string()));
    }
    out
}

fn collect_ascii_rev(s: &str) -> Vec<(usize, String)> {
    let mut iter = new_ascii_word_bound_indices(s);
    let mut out = Vec::new();
    while let Some((i, w)) = iter.next_back() {
        out.push((i, w.to_string()));
    }
    out
}

fn collect_general_rev(s: &str) -> Vec<(usize, String)> {
    let mut iter = new_word_bound_indices(s);
    let mut out = Vec::new();
    while let Some((i, w)) = iter.next_back() {
        out.push((i, w.to_string()));
    }
    out
}

#[test]
fn test_syriac_abbr_mark() {
    assert_eq!(word_category('\u{70f}'), WordCat::ALetter);
}

#[test]
fn test_end_of_ayah_cat() {
    assert_eq!(word_category('\u{6dd}'), WordCat::Numeric);
}

#[test]
fn test_ascii_word_bound_indices_various_cases() {
    let s = "Hello, world!";
    let words: Vec<(usize, &str)> = {
        let mut iter = new_ascii_word_bound_indices(s);
        let mut out = Vec::new();
        while let Some(item) = iter.next() {
            out.push(item);
        }
        out
    };
    let expected = vec![
        (0, "Hello"), // simple letters
        (5, ","),
        (6, " "),     // space after comma
        (7, "world"), // skip comma+space, stop at '!'
        (12, "!"),    // punctuation at the end
    ];
    assert_eq!(words, expected);
}

#[test]
fn test_ascii_word_indices_various_cases() {
    let s = "Hello, world! can't e.g. var1 123,456 foo_bar example.com 127.0.0.1:9090";
    let words: Vec<&str> = {
        let mut iter = new_unicode_words_ascii(s);
        let mut out = Vec::new();
        while let Some(word) = iter.next() {
            out.push(word);
        }
        out
    };
    let expected = vec![
        ("Hello"), // simple letters
        ("world"), // skip comma+space, stop at '!'
        ("can't"), // apostrophe joins letters
        ("e.g"),
        ("var1"),
        ("123,456"), // digits+comma+digits
        ("foo_bar"),
        ("example.com"),
        ("127.0.0.1"),
        ("9090"),
    ];
    assert_eq!(words, expected);
}

#[test]
fn ascii_fast_path_matches_general_path() {
    // Deterministic pseudo-random ASCII strings of length 0..100.
    let alphabet: Vec<char> = (0u8..=127).map(|b| b as char).collect();
    let mut state: u64 = 0x2545_f491_4f6c_dd1d;
    for round in 0..3000 {
        state = state
            .wrapping_mul(6_364_136_223_846_793_005)
            .wrapping_add(1_442_695_040_888_963_407);
        let len = (state >> 33) as usize % 100;
        let mut s = String::new();
        for _ in 0..len {
            state = state
                .wrapping_mul(6_364_136_223_846_793_005)
                .wrapping_add(1_442_695_040_888_963_407);
            // Favour the characters that the rules treat specially.
            let pick = (state >> 33) as usize;
            let ch = if round % 2 == 0 {
                b"a1_ .,;:'\"\r\nZ9\x0b"[pick % 15] as char
            } else {
                alphabet[pick % alphabet.len()]
            };
            s.push(ch);
        }
        let mut fast = new_ascii_word_bound_indices(&s);
        assert_eq!(collect_ascii(&mut fast), collect_general(&s), "s={s:?}");
        assert_eq!(collect_ascii_rev(&s), collect_general_rev(&s), "s={s:?}");
    }
}

#[test]
fn ascii_back_scan_includes_infix_at_start() {
    let mut iter = new_ascii_word_bound_indices("a.b c");
    assert_eq!(iter.next_back(), Some((4, "c")));
    assert_eq!(iter.next_back(), Some((3, " ")));
    assert_eq!(iter.next_back(), Some((0, "a.b")));
    assert_eq!(iter.next_back(), None);
    let mut iter = new_ascii_word_bound_indices("x\r\n\r\n  ");
    assert_eq!(iter.next(), Some((0, "x")));
    assert_eq!(iter.next(), Some((1, "\r\n")));
    assert_eq!(iter.next_back(), Some((5, "  ")));
    assert_eq!(iter.next_back(), Some((3, "\r\n")));
    assert_eq!(iter.next(), None);
}

#[test]
fn unicode_words_skip_segments_without_alphanumerics() {
    let text = "The quick (\"brown\") fox can't jump 32.3 feet, right?";
    let mut words = new_unicode_words(text);
    let mut out = Vec::new();
    while let Some(w) = words.next() {
        out.push(w);
    }
    assert_eq!(out, vec!["The", "quick", "brown", "fox", "can't", "jump", "32.3", "feet", "right"]);

    let mut words = new_unicode_words(text);
    let mut back = Vec::new();
    while let Some(w) = words.next_back() {
        back.push(w);
    }
    back.reverse();
    assert_eq!(back, out);

    let text = "Hello, 世界 123.45! ¿Qué?";
    let mut words = new_unicode_words(text);
    let mut out = Vec::new();
    while let Some(w) = words.next() {
        out.push(w);
    }
    assert_eq!(out, vec!["Hello", "世", "界", "123.45", "Qué"]);
    let mut general = new_unicode_words_general("a, b");
    assert_eq!(general.next(), Some("a"));
    assert_eq!(general.next(), Some("b"));
    assert_eq!(general.next(), None);
}

#[test]
fn unicode_word_indices_report_byte_offsets() {
    let text = "x, ünïcödé 9";
    let mut words = new_unicode_word_indices(text);
    assert_eq!(words.next(), Some((0, "x")));
    assert_eq!(words.next(), Some((3, "ünïcödé")));
    assert_eq!(words.next(), Some((15, "9")));
    assert_eq!(words.next(), None);

    let mut words = new_unicode_word_indices("one, two; three");
    assert_eq!(words.next_back(), Some((10, "three")));
    assert_eq!(words.next(), Some((0, "one")));
    assert_eq!(words.next_back(), Some((5, "two")));
    assert_eq!(words.next(), None);
    assert_eq!(words.size_hint(), (0, None));
}

#[test]
fn word_bounds_views_and_size_hints() {
    let mut iter = new_word_bounds("Hello world");
    assert_eq!(iter.as_str(), "Hello world");
    assert_eq!(iter.size_hint(), (1, Some(11)));
    assert_eq!(iter.next(), Some("Hello"));
    assert_eq!(iter.as_str(), " world");
    assert_eq!(iter.next(), Some(" "));
    assert_eq!(iter.as_str(), "world");
    assert_eq!(iter.next(), Some("world"));
    assert_eq!(iter.next(), None);
    assert_eq!(iter.size_hint(), (0, Some(0)));

    let mut indices = new_word_bound_indices("Hello world");
    assert_eq!(indices.as_str(), "Hello world");
    indices.next();
    assert_eq!(indices.as_str(), " world");
    indices.next();
    assert_eq!(indices.as_str(), "world");
    assert_eq!(indices.next(), Some((6, "world")));
    assert_eq!(indices.next(), None);
}

#[test]
fn categories_come_from_the_unicode_tables() {
    assert_eq!(word_category('a'), WordCat::ALetter);
    assert_eq!(word_category('\u{05d0}'), WordCat::HebrewLetter);
    assert_eq!(word_category('7'), WordCat::Numeric);
    assert_eq!(word_category('\u{30ab}'), WordCat::Katakana);
    assert_eq!(word_category('_'), WordCat::ExtendNumLet);
    assert_eq!(word_category('.'), WordCat::MidNumLet);
    assert_eq!(word_category(':'), WordCat::MidLetter);
    assert_eq!(word_category(','), WordCat::MidNum);
    assert_eq!(word_category('\''), WordCat::SingleQuote);
    assert_eq!(word_category('"'), WordCat::DoubleQuote);
    assert_eq!(word_category('\r'), WordCat::CR);
    assert_eq!(word_category('\n'), WordCat::LF);
    assert_eq!(word_category('\u{0085}'), WordCat::Newline);
    assert_eq!(word_category('\u{0301}'), WordCat::Extend);
    assert_eq!(word_category('\u{00ad}'), WordCat::Format);
    assert_eq!(word_category('\u{200d}'), WordCat::ZWJ);
    assert_eq!(word_category(' '), WordCat::WSegSpace);
    assert_eq!(word_category('\u{1f1e6}'), WordCat::RegionalIndicator);
    assert_eq!(word_category('!'), WordCat::Any);
    assert!(is_extended_pictographic('\u{1f469}'));
    assert!(!is_extended_pictographic('a'));
}
