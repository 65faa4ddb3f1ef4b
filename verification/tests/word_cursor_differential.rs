use unicode_segmentation::{
    new_word_bound_indices, new_word_bounds, WordCursor, WordCursorResult,
};

fn split_word_bound_indices(text: &str) -> Vec<(usize, &str)> {
    let mut iter = new_word_bound_indices(text);
    let mut out = Vec::new();
    while let Some(item) = iter.next() {
        out.push(item);
    }
    out
}

fn split_word_bounds(text: &str) -> Vec<&str> {
    let mut iter = new_word_bounds(text);
    let mut out = Vec::new();
    while let Some(item) = iter.next() {
        out.push(item);
    }
    out
}

fn expected_boundaries(text: &str) -> Vec<usize> {
    let mut boundaries: Vec<_> = split_word_bound_indices(text)
        .into_iter()
        .map(|(offset, _)| offset)
        .collect();
    if boundaries.last().copied() != Some(text.len()) {
        boundaries.push(text.len());
    }
    boundaries
}

fn forward_boundaries(text: &str, cuts: &[usize]) -> Vec<usize> {
    let mut cursor = WordCursor::new(0, text.len()).unwrap();
    let mut result = vec![0];
    loop {
        let offset = cursor.cur_cursor();
        let end = cuts
            .iter()
            .copied()
            .find(|&cut| cut > offset)
            .unwrap_or(text.len());
        match cursor.next_boundary(&text[offset..end], offset).unwrap() {
            WordCursorResult::Boundary(boundary) => {
                assert_ne!(result.last().copied(), Some(boundary), "text={text:?}");
                result.push(boundary);
            }
            WordCursorResult::NextChunk(requested) => assert_eq!(requested, end),
            WordCursorResult::End => break,
            WordCursorResult::PrevChunk(_) => {
                panic!("forward traversal requested a previous chunk")
            }
            WordCursorResult::PreContext(_) | WordCursorResult::PostContext(_) => {
                panic!("boundary traversal unexpectedly requested initialization context")
            }
        }
    }
    result
}

fn reverse_boundaries(text: &str, cuts: &[usize]) -> Vec<usize> {
    let mut cursor = WordCursor::new(text.len(), text.len()).unwrap();
    let mut result = vec![text.len()];
    loop {
        let offset = cursor.cur_cursor();
        let start = cuts
            .iter()
            .copied()
            .rev()
            .find(|&cut| cut < offset)
            .unwrap_or(0);
        match cursor.prev_boundary(&text[start..offset], start).unwrap() {
            WordCursorResult::Boundary(boundary) => {
                assert_ne!(result.last().copied(), Some(boundary), "text={text:?}");
                result.push(boundary);
            }
            WordCursorResult::PrevChunk(requested) => assert_eq!(requested, start),
            WordCursorResult::End => break,
            WordCursorResult::NextChunk(_) => panic!("reverse traversal requested a next chunk"),
            WordCursorResult::PreContext(_) | WordCursorResult::PostContext(_) => {
                panic!("boundary traversal unexpectedly requested initialization context")
            }
        }
    }
    result
}

fn previous_scalar_start(text: &str, end: usize) -> usize {
    text[..end]
        .char_indices()
        .next_back()
        .map_or(end, |(offset, _)| offset)
}

fn next_scalar_end(text: &str, start: usize) -> usize {
    text[start..]
        .chars()
        .next()
        .map_or(start, |ch| start + ch.len_utf8())
}

fn next_from(text: &str, origin: usize) -> WordCursorResult {
    let mut cursor = WordCursor::new(origin, text.len()).unwrap();
    let initial_end = next_scalar_end(text, origin);
    let mut result = cursor
        .next_boundary(&text[origin..initial_end], origin)
        .unwrap();
    loop {
        result = match result {
            WordCursorResult::Boundary(_) | WordCursorResult::End => return result,
            WordCursorResult::PreContext(end) => {
                let start = previous_scalar_start(text, end);
                cursor.next_boundary(&text[start..end], start).unwrap()
            }
            WordCursorResult::NextChunk(start) => {
                let end = next_scalar_end(text, start);
                cursor.next_boundary(&text[start..end], start).unwrap()
            }
            WordCursorResult::PrevChunk(_) | WordCursorResult::PostContext(_) => {
                panic!("forward query requested reverse-direction input")
            }
        };
    }
}

fn previous_from(text: &str, origin: usize) -> WordCursorResult {
    let mut cursor = WordCursor::new(origin, text.len()).unwrap();
    let initial_start = previous_scalar_start(text, origin);
    let mut result = cursor
        .prev_boundary(&text[initial_start..origin], initial_start)
        .unwrap();
    loop {
        result = match result {
            WordCursorResult::Boundary(_) | WordCursorResult::End => return result,
            WordCursorResult::PostContext(start) => {
                let end = next_scalar_end(text, start);
                cursor.prev_boundary(&text[start..end], start).unwrap()
            }
            WordCursorResult::PrevChunk(end) => {
                let start = previous_scalar_start(text, end);
                cursor.prev_boundary(&text[start..end], start).unwrap()
            }
            WordCursorResult::NextChunk(_) | WordCursorResult::PreContext(_) => {
                panic!("reverse query requested forward-direction input")
            }
        };
    }
}

fn all_partitions(text: &str) -> Vec<Vec<usize>> {
    let interior: Vec<_> = text
        .char_indices()
        .map(|(offset, _)| offset)
        .filter(|&offset| offset != 0)
        .collect();
    assert!(interior.len() < usize::BITS as usize);
    (0..(1usize << interior.len()))
        .map(|mask| {
            let mut cuts = vec![0];
            cuts.extend(
                interior
                    .iter()
                    .enumerate()
                    .filter_map(|(bit, &cut)| ((mask & (1 << bit)) != 0).then_some(cut)),
            );
            cuts.push(text.len());
            cuts
        })
        .collect()
}

fn assert_differential(text: &str, exhaustive: bool) {
    let expected = expected_boundaries(text);
    let partitions = if exhaustive {
        all_partitions(text)
    } else {
        let mut boundaries: Vec<_> = text.char_indices().map(|(offset, _)| offset).collect();
        boundaries.push(text.len());
        vec![vec![0, text.len()], boundaries]
    };

    for cuts in partitions {
        let forward = forward_boundaries(text, &cuts);
        assert_eq!(forward, expected, "cuts={cuts:?}");
        let streamed_segments: Vec<_> = forward
            .windows(2)
            .map(|range| &text[range[0]..range[1]])
            .collect();
        assert_eq!(streamed_segments, split_word_bounds(text), "cuts={cuts:?}");
        let mut reverse_expected = expected.clone();
        reverse_expected.reverse();
        assert_eq!(
            reverse_boundaries(text, &cuts),
            reverse_expected,
            "cuts={cuts:?}"
        );
    }
}

fn assert_arbitrary_offsets(text: &str) {
    let boundaries = expected_boundaries(text);
    for origin in text
        .char_indices()
        .map(|(offset, _)| offset)
        .chain(core::iter::once(text.len()))
    {
        let expected_next = boundaries
            .iter()
            .copied()
            .find(|&boundary| boundary > origin)
            .map_or(WordCursorResult::End, WordCursorResult::Boundary);
        let expected_previous = boundaries
            .iter()
            .copied()
            .rev()
            .find(|&boundary| boundary < origin)
            .map_or(WordCursorResult::End, WordCursorResult::Boundary);
        assert_eq!(
            next_from(text, origin),
            expected_next,
            "forward text={text:?}, origin={origin}"
        );
        assert_eq!(
            previous_from(text, origin),
            expected_previous,
            "reverse text={text:?}, origin={origin}"
        );
    }
}

#[test]
fn differential_all_partitions_for_short_rule_cases() {
    for text in [
        "",
        "abc",
        "a b",
        "a\r\nb",
        "a.b",
        "3,14",
        "a\u{0301}b",
        "a\u{200d}\u{1f469}",
        "\u{1f1e6}\u{1f1e7}\u{1f1e8}",
        "\u{05d0}'\u{05d1}",
        "\u{05d0}\"\u{05d1}",
    ] {
        assert_differential(text, true);
    }
}

#[test]
fn differential_representative_unicode_and_long_segment() {
    for text in [
        "Hello, 世界 123.45!",
        "カタカナ_42 can't",
        "a\u{00ad}\u{0301}b\u{200d}\u{1f469}!",
        "\r\n\u{0085}\u{2028}  \t",
        "\u{1f1e6}\u{0301}\u{1f1e7}\u{1f1e8}\u{1f1e9}",
    ] {
        assert_differential(text, false);
    }

    let long = "a\u{0301}".repeat(2048);
    assert_differential(&long, false);
}

#[test]
fn differential_from_every_scalar_offset() {
    for text in [
        "a.b",
        "3,14",
        "\u{05d0}\"\u{05d1} \u{05d0}'\u{05d1}",
        "a\u{0301}\u{00ad}b",
        "x\u{200d}\u{1f469}y",
        "\r\nx\u{0085}y\u{2028}z",
        "\u{30ab}\u{30bf}\u{30ab}\u{30ca}_42",
        "\u{1f1e6}\u{1f1e7}\u{1f1e8}",
    ] {
        assert_arbitrary_offsets(text);
    }
}

#[test]
fn failed_connector_lookahead_from_every_scalar_offset() {
    for text in [
        "a:.a",
        "a\u{0301}:\u{0301}.a",
        "a\u{2060}:\u{2060}.a",
        "a.:a",
        "3,a3",
        "3\u{0301},\u{0301}a3",
        "3\u{2060}'\u{2060}a3",
        "\u{05d0}\"a\u{05d0}",
        "\u{05d0}\u{0301}\"\u{0301}a\u{05d0}",
        "\u{05d0}\u{2060}\"\u{2060}a\u{05d0}",
    ] {
        assert_arbitrary_offsets(text);
    }
}

#[test]
fn arbitrary_offset_regressions() {
    assert_eq!(next_from("a.b", 1), WordCursorResult::Boundary(3));
    assert_eq!(previous_from("a.b", 2), WordCursorResult::Boundary(0));
    assert_eq!(next_from("a:.a", 1), WordCursorResult::Boundary(2));
    assert_eq!(previous_from("a:.a", 3), WordCursorResult::Boundary(2));

    let regional = "\u{1f1e6}\u{1f1e7}\u{1f1e8}";
    assert_eq!(next_from(regional, 0), WordCursorResult::Boundary(8));
    assert_eq!(next_from(regional, 4), WordCursorResult::Boundary(8));
    assert_eq!(next_from(regional, 8), WordCursorResult::Boundary(12));
    assert_eq!(previous_from(regional, 4), WordCursorResult::Boundary(0));
    assert_eq!(previous_from(regional, 8), WordCursorResult::Boundary(0));

    let mut reset = WordCursor::new(0, 3).unwrap();
    reset.set_cursor(1).unwrap();
    assert_eq!(
        reset.next_boundary(".", 1),
        Ok(WordCursorResult::PreContext(1))
    );
    assert_eq!(
        reset.next_boundary("a", 0),
        Ok(WordCursorResult::NextChunk(0))
    );
    assert_eq!(
        reset.next_boundary("a.b", 0),
        Ok(WordCursorResult::Boundary(3))
    );

    reset.set_cursor(2).unwrap();
    assert_eq!(
        reset.prev_boundary(".", 1),
        Ok(WordCursorResult::PostContext(2))
    );
    assert_eq!(
        reset.prev_boundary("b", 2),
        Ok(WordCursorResult::PrevChunk(3))
    );
    assert_eq!(
        reset.prev_boundary("a.b", 0),
        Ok(WordCursorResult::Boundary(0))
    );
}

#[test]
fn rule_cases_split_into_expected_segments() {
    assert_eq!(split_word_bounds("The quick (\"brown\") fox can't jump 32.3 feet, right?"),
        vec!["The", " ", "quick", " ", "(", "\"", "brown", "\"", ")", " ", "fox", " ", "can't",
            " ", "jump", " ", "32.3", " ", "feet", ",", " ", "right", "?"]);
    assert_eq!(split_word_bounds("a\r\nb"), vec!["a", "\r\n", "b"]);
    assert_eq!(split_word_bounds("3,14"), vec!["3,14"]);
    assert_eq!(split_word_bounds("a:.a"), vec!["a", ":", ".", "a"]);
    assert_eq!(split_word_bounds("\u{1f1e6}\u{1f1e7}\u{1f1e8}"),
        vec!["\u{1f1e6}\u{1f1e7}", "\u{1f1e8}"]);
    assert_eq!(split_word_bounds("a\u{200d}\u{1f469}"), vec!["a\u{200d}\u{1f469}"]);
    assert_eq!(split_word_bounds("\u{05d0}\"\u{05d1}"), vec!["\u{05d0}\"\u{05d1}"]);
    assert_eq!(split_word_bounds("  \t"), vec!["  ", "\t"]);
    assert!(split_word_bounds("").is_empty());
}

#[test]
fn reverse_iteration_yields_the_same_segments() {
    for text in ["Hello, world!", "a.b 3,14 x\u{200d}\u{1f469}", "\u{1f1e6}\u{1f1e7}\u{1f1e8}", ""] {
        let mut iter = new_word_bounds(text);
        let mut back = Vec::new();
        while let Some(segment) = iter.next_back() {
            back.push(segment);
        }
        back.reverse();
        assert_eq!(back, split_word_bounds(text));
        let mut indices = new_word_bound_indices(text);
        let mut back_indices = Vec::new();
        while let Some(item) = indices.next_back() {
            back_indices.push(item);
        }
        back_indices.reverse();
        assert_eq!(back_indices, split_word_bound_indices(text));
    }
}

#[test]
fn chunked_traversal_equals_whole_string_traversal() {
    let text = "can't 3.14 foo_bar \u{05d0}\"\u{05d1} \u{1f1e6}\u{1f1e7}\u{1f1e8}";
    let whole = forward_boundaries(text, &[0, text.len()]);
    let mut cuts: Vec<_> = text.char_indices().map(|(offset, _)| offset).collect();
    cuts.push(text.len());
    assert_eq!(forward_boundaries(text, &cuts), whole);
    let mut reverse_whole = reverse_boundaries(text, &[0, text.len()]);
    assert_eq!(reverse_boundaries(text, &cuts), reverse_whole);
    reverse_whole.reverse();
    assert_eq!(reverse_whole, whole);
}
