use unicode_segmentation::{new_word_bound_indices, new_word_bounds, WordCursor, WordCursorResult};

fn from_front(text: &str) -> Vec<usize> {
    let mut it = new_word_bound_indices(text);
    let mut out = Vec::new();
    while let Some((offset, _)) = it.next() {
        out.push(offset);
    }
    out
}

fn from_back(text: &str) -> Vec<usize> {
    let mut it = new_word_bound_indices(text);
    let mut out = Vec::new();
    while let Some((offset, _)) = it.next_back() {
        out.push(offset);
    }
    out.reverse();
    out
}

#[test]
fn regional_indicator_runs_pair_from_the_left_in_both_directions() {
    let five = "\u{1F1E6}\u{1F1E7}\u{1F1E8}\u{1F1E9}\u{1F1EA}";
    assert_eq!(from_front(five), vec![0, 8, 16]);
    assert_eq!(from_back(five), vec![0, 8, 16]);
    let four = "\u{1F1E6}\u{1F1E7}\u{1F1E8}\u{1F1E9}";
    assert_eq!(from_front(four), vec![0, 8]);
    assert_eq!(from_back(four), vec![0, 8]);
    assert_eq!(from_back("\u{1F1E6}"), vec![0]);
}

#[test]
fn ascii_text_segments_alike_in_both_directions() {
    for text in [
        "Hello, world! can't e.g. var1 123,456 foo_bar example.com 127.0.0.1:9090",
        "a..b 1.a a.1 \r\n\r\r\n  x",
        "'a'b' 3;4;x ::a",
    ] {
        assert_eq!(from_back(text), from_front(text), "{text:?}");
    }
}

#[test]
fn directions_differ_after_a_hebrew_apostrophe_and_before_a_joined_pictograph() {
    for text in [
        "\u{05D0}'1",
        "\u{05D0}\u{0301}''",
        "a\u{200D}\u{2139}b",
        "\r\u{200D}\u{1F469}",
        "a\u{200D}:\u{2139}",
    ] {
        assert_ne!(from_back(text), from_front(text), "{text:?}");
    }
}

#[test]
fn plain_text_segments_alike_in_both_directions() {
    let text = "Gr\u{00FC}\u{00DF}e, 3,14";
    assert_eq!(from_front(text), vec![0, 7, 8, 9]);
    assert_eq!(from_back(text), vec![0, 7, 8, 9]);
    for text in [
        "\u{00DC}n\u{00EF}c\u{00F6}d\u{00E9} w\u{00F6}rds, 12.5 ok",
        "\u{65E5}\u{672C}\u{8A9E}\u{306E}\u{30C6}\u{30AD}\u{30B9}\u{30C8}",
        "\u{039A}\u{03B1}\u{03BB}\u{03B7}\u{03BC}\u{03AD}\u{03C1}\u{03B1} \u{03BA}\u{03CC}\u{03C3}\u{03BC}\u{03B5}",
        "a\u{1F1E6}\u{1F1E7}\u{1F1E8}b x:y \u{1F1E6}\u{1F1E7}",
        "\u{20AC}3.50 \u{2014} caf\u{00E9}'s 1,2",
    ] {
        assert_eq!(from_back(text), from_front(text), "{text:?}");
    }
}

#[test]
fn hebrew_text_without_a_letter_before_an_apostrophe_segments_alike_in_both_directions() {
    let text = "\u{05D0}\"\u{05D1} \u{05D2}\u{05D3}1.5";
    assert_eq!(from_front(text), vec![0, 5, 6]);
    assert_eq!(from_back(text), vec![0, 5, 6]);
    for text in [
        "\u{05E9}\u{05DC}\u{05D5}\u{05DD}, \u{05E2}\u{05D5}\u{05DC}\u{05DD}",
        "\u{05D0}:\u{05D1} \u{05D0}\"x \"\u{05D0} a'\u{05D0}",
    ] {
        assert_eq!(from_back(text), from_front(text), "{text:?}");
    }
}

fn cursor_walk_back(text: &str, cuts: &[usize]) -> Vec<usize> {
    let mut cursor = WordCursor::new(text.len(), text.len()).unwrap();
    let mut out = vec![text.len()];
    loop {
        let end = cursor.cur_cursor();
        let start = cuts.iter().copied().rev().find(|&cut| cut < end).unwrap_or(0);
        match cursor.prev_boundary(&text[start..end], start).unwrap() {
            WordCursorResult::Boundary(b) => out.push(b),
            WordCursorResult::PrevChunk(requested) => assert_eq!(requested, start),
            WordCursorResult::End => break,
            other => panic!("unexpected answer {other:?}"),
        }
    }
    out
}

fn cursor_query(text: &str, origin: usize, forward: bool) -> WordCursorResult {
    let mut cursor = WordCursor::new(origin, text.len()).unwrap();
    let mut answer = if forward {
        cursor.next_boundary(&text[origin..], origin).unwrap()
    } else {
        cursor.prev_boundary(&text[..origin], 0).unwrap()
    };
    loop {
        answer = match answer {
            WordCursorResult::PreContext(_) => cursor.next_boundary(&text[..origin], 0).unwrap(),
            WordCursorResult::NextChunk(start) => {
                cursor.next_boundary(&text[start..], start).unwrap()
            }
            WordCursorResult::PostContext(_) => {
                cursor.prev_boundary(&text[origin..], origin).unwrap()
            }
            WordCursorResult::PrevChunk(end) => cursor.prev_boundary(&text[..end], 0).unwrap(),
            done => return done,
        };
    }
}

#[test]
fn plain_text_cursor_walks_back_over_the_forward_offsets() {
    let text = "Gr\u{00FC}\u{00DF}e, 3 \u{1F1E6}\u{1F1E7}\u{1F1E8}";
    let mut expected = from_front(text);
    expected.push(text.len());
    expected.reverse();
    assert_eq!(expected, vec![23, 19, 11, 10, 9, 8, 7, 0]);
    let scalars: Vec<usize> = text.char_indices().map(|(i, _)| i).skip(1).collect();
    for mask in 0..(1usize << scalars.len()) {
        let cuts: Vec<usize> = scalars
            .iter()
            .enumerate()
            .filter(|(bit, _)| mask & (1 << bit) != 0)
            .map(|(_, &cut)| cut)
            .collect();
        assert_eq!(cursor_walk_back(text, &cuts), expected, "cuts={cuts:?}");
    }
}

#[test]
fn plain_text_cursor_queries_agree_from_every_offset() {
    let text = "\u{05D0}\"\u{05D1} 3.5x, a:b \u{1F1E6}\u{1F1E7}\u{1F1E8}";
    let mut boundaries = from_front(text);
    boundaries.push(text.len());
    for (origin, _) in text.char_indices().chain(std::iter::once((text.len(), ' '))) {
        let next = boundaries.iter().copied().find(|&b| b > origin);
        let previous = boundaries.iter().copied().rev().find(|&b| b < origin);
        assert_eq!(
            cursor_query(text, origin, true),
            next.map_or(WordCursorResult::End, WordCursorResult::Boundary),
            "origin={origin}"
        );
        assert_eq!(
            cursor_query(text, origin, false),
            previous.map_or(WordCursorResult::End, WordCursorResult::Boundary),
            "origin={origin}"
        );
    }
}

#[test]
fn text_with_attached_marks_segments_alike_in_both_directions() {
    let text = "a\u{0301}b c\u{00AD}d";
    assert_eq!(from_front(text), vec![0, 4, 5]);
    assert_eq!(from_back(text), vec![0, 4, 5]);
    for text in [
        "1\u{0301}.\u{00AD}5 \u{1F1E6}\u{0301}\u{1F1E7}\u{1F1E8}",
        "\n\u{0301}\u{0301}a \r\u{0301}\n x\u{200D}y",
        "\u{05D0}'\u{0301}\u{05D1} \u{05D0}\u{00AD}\"\u{05D1}  \u{0301} ",
        "a\u{200D}:b \u{2139}\u{200D}. \u{0301}\u{0301}",
    ] {
        assert_eq!(from_back(text), from_front(text), "{text:?}");
    }
}

#[test]
fn word_bounds_from_the_back_are_the_forward_segments_reversed() {
    let text = "The quick (\"brown\") fox can't jump 32.3 feet, right?\u{0301} a\u{200D}b";
    let mut forward = Vec::new();
    let mut it = new_word_bounds(text);
    while let Some(w) = it.next() {
        forward.push(w);
    }
    let mut backward = Vec::new();
    let mut it = new_word_bounds(text);
    while let Some(w) = it.next_back() {
        backward.push(w);
    }
    backward.reverse();
    assert_eq!(backward, forward);
    assert_eq!(forward.concat(), text);
    assert!(forward.iter().all(|w| !w.is_empty()));
}
