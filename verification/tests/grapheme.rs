use unicode_segmentation::grapheme_rules::{grapheme_info, GraphemeCat, InCb};
use unicode_segmentation::{new_grapheme_indices, GraphemeCursor, GraphemeIncomplete};

fn clusters(text: &str, is_extended: bool) -> Vec<(usize, &str)> {
    let mut it = new_grapheme_indices(text, is_extended);
    let mut out = Vec::new();
    while let Some(item) = it.next() {
        out.push(item);
    }
    out
}

fn clusters_back(text: &str, is_extended: bool) -> Vec<(usize, &str)> {
    let mut it = new_grapheme_indices(text, is_extended);
    let mut out = Vec::new();
    while let Some(item) = it.next_back() {
        out.push(item);
    }
    out.reverse();
    out
}

#[test]
fn property_lookup_reads_the_unicode_tables() {
    assert_eq!(grapheme_info('\r').cat, GraphemeCat::CR);
    assert_eq!(grapheme_info('\n').cat, GraphemeCat::LF);
    assert_eq!(grapheme_info('\u{0000}').cat, GraphemeCat::Control);
    assert_eq!(grapheme_info('\u{0308}').cat, GraphemeCat::Extend);
    assert_eq!(grapheme_info('\u{200D}').cat, GraphemeCat::ZWJ);
    assert_eq!(grapheme_info('\u{1F1E6}').cat, GraphemeCat::RegionalIndicator);
    assert_eq!(grapheme_info('\u{0600}').cat, GraphemeCat::Prepend);
    assert_eq!(grapheme_info('\u{093F}').cat, GraphemeCat::SpacingMark);
    assert_eq!(grapheme_info('\u{1100}').cat, GraphemeCat::L);
    assert_eq!(grapheme_info('\u{1161}').cat, GraphemeCat::V);
    assert_eq!(grapheme_info('\u{11A8}').cat, GraphemeCat::T);
    assert_eq!(grapheme_info('\u{AC00}').cat, GraphemeCat::LV);
    assert_eq!(grapheme_info('\u{AC01}').cat, GraphemeCat::LVT);
    assert_eq!(grapheme_info('a').cat, GraphemeCat::Any);
    assert_eq!(grapheme_info('\u{0915}').incb, InCb::Consonant);
    assert_eq!(grapheme_info('\u{094D}').incb, InCb::Linker);
    assert_eq!(grapheme_info('\u{0300}').incb, InCb::Extend);
    assert_eq!(grapheme_info('a').incb, InCb::NotConjunct);
    assert!(grapheme_info('\u{1F468}').pict);
    assert!(!grapheme_info('a').pict);
}

#[test]
fn clusters_follow_the_pair_rules() {
    assert_eq!(clusters("a\u{0308}b", true), vec![(0, "a\u{0308}"), (3, "b")]);
    assert_eq!(clusters("a\r\nb", true), vec![(0, "a"), (1, "\r\n"), (3, "b")]);
    assert_eq!(clusters("\u{0000}\u{0308}", true), vec![(0, "\u{0000}"), (1, "\u{0308}")]);
    assert_eq!(clusters("\u{1100}\u{1161}\u{11A8}", true), vec![(0, "\u{1100}\u{1161}\u{11A8}")]);
    assert_eq!(clusters("\u{AC00}\u{11A8}x", true), vec![(0, "\u{AC00}\u{11A8}"), (6, "x")]);
    assert_eq!(clusters("", true), vec![]);
    assert_eq!(clusters("ab", false), vec![(0, "a"), (1, "b")]);
}

#[test]
fn extended_clusters_keep_spacing_marks_prepends_and_conjuncts() {
    assert_eq!(clusters("\u{0915}\u{093F}", true), vec![(0, "\u{0915}\u{093F}")]);
    assert_eq!(clusters("\u{0915}\u{093F}", false), vec![(0, "\u{0915}"), (3, "\u{093F}")]);
    assert_eq!(clusters("\u{0600}a", true), vec![(0, "\u{0600}a")]);
    assert_eq!(clusters("\u{0600}a", false), vec![(0, "\u{0600}"), (2, "a")]);
    assert_eq!(
        clusters("\u{0915}\u{094D}\u{0915}", true),
        vec![(0, "\u{0915}\u{094D}\u{0915}")]
    );
    assert_eq!(
        clusters("\u{0915}\u{094D}\u{0915}", false),
        vec![(0, "\u{0915}\u{094D}"), (6, "\u{0915}")]
    );
    assert_eq!(
        clusters("\u{0915}\u{0300}\u{0915}", true),
        vec![(0, "\u{0915}\u{0300}"), (5, "\u{0915}")]
    );
}

#[test]
fn emoji_sequences_and_flags() {
    assert_eq!(
        clusters("\u{1F468}\u{200D}\u{1F469}", true),
        vec![(0, "\u{1F468}\u{200D}\u{1F469}")]
    );
    assert_eq!(
        clusters("a\u{200D}\u{1F469}", true),
        vec![(0, "a\u{200D}"), (4, "\u{1F469}")]
    );
    assert_eq!(
        clusters("\u{1F1E6}\u{1F1E7}\u{1F1E8}", true),
        vec![(0, "\u{1F1E6}\u{1F1E7}"), (8, "\u{1F1E8}")]
    );
    assert_eq!(
        clusters("\u{1F1E6}\u{1F1E7}\u{1F1E8}\u{1F1E9}", true),
        vec![(0, "\u{1F1E6}\u{1F1E7}"), (8, "\u{1F1E8}\u{1F1E9}")]
    );
}

#[test]
fn clusters_from_the_back_are_the_same_clusters() {
    for text in [
        "a\u{0308}b",
        "\u{1F1E6}\u{1F1E7}\u{1F1E8}",
        "\r\n\u{0000}a",
        "\u{0915}\u{094D}\u{0915}x",
        "\u{1F468}\u{0308}\u{200D}\u{1F469}z",
    ] {
        for is_extended in [false, true] {
            assert_eq!(clusters_back(text, is_extended), clusters(text, is_extended));
        }
    }
}

#[test]
fn whole_text_cursor_never_asks_for_more() {
    let text = "\u{1F1E6}\u{1F1E7}\u{1F1E8}a\u{0308}";
    let mut cursor = GraphemeCursor::new(0, text.len(), true);
    assert_eq!(cursor.next_boundary(text, 0), Ok(Some(8)));
    assert_eq!(cursor.next_boundary(text, 0), Ok(Some(12)));
    assert_eq!(cursor.next_boundary(text, 0), Ok(Some(15)));
    assert_eq!(cursor.next_boundary(text, 0), Ok(None));
    assert_eq!(cursor.cur_cursor(), 15);
    assert_eq!(cursor.prev_boundary(text, 0), Ok(Some(12)));
    assert_eq!(cursor.prev_boundary(text, 0), Ok(Some(8)));
    assert_eq!(cursor.prev_boundary(text, 0), Ok(Some(0)));
    assert_eq!(cursor.prev_boundary(text, 0), Ok(None));
}

#[test]
fn each_request_names_what_is_missing() {
    let text = "ab\u{1F1E6}\u{1F1E7}";
    // An offset at the start of its chunk needs the text before it.
    let mut cursor = GraphemeCursor::new(2, text.len(), true);
    assert_eq!(cursor.is_boundary(&text[2..], 2), Err(GraphemeIncomplete::PreContext(2)));
    cursor.provide_context(&text[..2], 0);
    assert_eq!(cursor.is_boundary(&text[2..], 2), Ok(true));

    // Forward traversal that reaches the end of its chunk needs the next one.
    let mut cursor = GraphemeCursor::new(0, text.len(), true);
    assert_eq!(cursor.next_boundary(&text[..1], 0), Err(GraphemeIncomplete::NextChunk));
    assert_eq!(cursor.next_boundary(&text[1..2], 1), Err(GraphemeIncomplete::PreContext(1)));
    cursor.provide_context(&text[..1], 0);
    assert_eq!(cursor.next_boundary(&text[1..2], 1), Ok(Some(1)));

    // Backward traversal at the start of its chunk needs the previous one.
    let mut cursor = GraphemeCursor::new(2, text.len(), true);
    assert_eq!(cursor.prev_boundary(&text[2..], 2), Err(GraphemeIncomplete::PrevChunk));
    assert_eq!(cursor.prev_boundary(&text[..2], 0), Ok(Some(1)));

    // An offset outside the chunk cannot be judged with it.
    let mut cursor = GraphemeCursor::new(1, text.len(), true);
    assert_eq!(cursor.is_boundary(&text[2..], 2), Err(GraphemeIncomplete::InvalidOffset));
    assert_eq!(cursor.next_boundary(&text[2..], 2), Err(GraphemeIncomplete::InvalidOffset));
}

#[test]
fn regional_context_in_pieces_or_at_once_decides_alike() {
    let text = "\u{1F1E6}\u{1F1E7}\u{1F1E8}\u{1F1E9}\u{1F1EA}";
    for boundary in [4usize, 8, 12, 16] {
        let expected = boundary % 8 == 0;
        let mut whole = GraphemeCursor::new(boundary, text.len(), true);
        assert_eq!(
            whole.is_boundary(&text[boundary..], boundary),
            Err(GraphemeIncomplete::PreContext(boundary))
        );
        whole.provide_context(&text[..boundary], 0);
        assert_eq!(whole.is_boundary(&text[boundary..], boundary), Ok(expected));

        let mut pieces = GraphemeCursor::new(boundary, text.len(), true);
        let mut result = pieces.is_boundary(&text[boundary..], boundary);
        while let Err(GraphemeIncomplete::PreContext(end)) = result {
            pieces.provide_context(&text[end - 4..end], end - 4);
            result = pieces.is_boundary(&text[boundary..], boundary);
        }
        assert_eq!(result, Ok(expected));
    }
}

#[test]
fn set_cursor_moves_and_forgets() {
    let text = "a\u{0308}b";
    let mut cursor = GraphemeCursor::new(0, text.len(), false);
    cursor.set_cursor(1);
    assert_eq!(cursor.cur_cursor(), 1);
    assert_eq!(cursor.is_boundary(text, 0), Ok(false));
    cursor.set_cursor(3);
    assert_eq!(cursor.is_boundary(text, 0), Ok(true));
    cursor.set_cursor(4);
    assert_eq!(cursor.is_boundary("", 4), Ok(true));
}
