use core::mem::{size_of, size_of_val};

use unicode_segmentation::{new_word_bound_indices, WordCursor, WordCursorResult};

fn expected_boundaries(text: &str) -> Vec<usize> {
    let mut iter = new_word_bound_indices(text);
    let mut boundaries = Vec::new();
    while let Some((offset, _)) = iter.next() {
        boundaries.push(offset);
    }
    if boundaries.last().copied() != Some(text.len()) {
        boundaries.push(text.len());
    }
    boundaries
}

fn previous_scalar_start(text: &str, end: usize) -> usize {
    text[..end]
        .char_indices()
        .next_back()
        .map_or(end, |(offset, _)| offset)
}

fn next_scalar_end(text: &str, start: usize) -> usize {
    text[start..]
        .chars()
        .next()
        .map_or(start, |ch| start + ch.len_utf8())
}

#[test]
fn pre_context_can_span_many_temporary_chunks() {
    let text = "a\u{0301}".repeat(512) + "!";
    let origin = text.char_indices().nth(900).unwrap().0;
    let mut cursor = WordCursor::new(origin, text.len()).unwrap();
    let initial_end = next_scalar_end(&text, origin);
    let mut result = cursor
        .next_boundary(&text[origin..initial_end], origin)
        .unwrap();
    let mut context_chunks = 0;

    while let WordCursorResult::PreContext(end) = result {
        let start = previous_scalar_start(&text, end);
        let temporary = text[start..end].to_owned();
        result = cursor.next_boundary(&temporary, start).unwrap();
        context_chunks += 1;
        assert_eq!(size_of_val(&cursor), size_of::<WordCursor>());
    }
    assert!(context_chunks > 800);
    assert_eq!(result, WordCursorResult::NextChunk(0));

    loop {
        result = match result {
            WordCursorResult::Boundary(boundary) => {
                assert_eq!(
                    Some(boundary),
                    expected_boundaries(&text)
                        .into_iter()
                        .find(|&candidate| candidate > origin)
                );
                break;
            }
            WordCursorResult::NextChunk(start) => {
                let end = next_scalar_end(&text, start);
                let temporary = text[start..end].to_owned();
                cursor.next_boundary(&temporary, start).unwrap()
            }
            other => panic!("unexpected replay result: {:?}", other),
        };
    }
}

#[test]
fn cursor_is_fixed_size_and_does_not_retain_chunks() {
    assert!(size_of::<WordCursor>() <= 256);
    let mut cursor = WordCursor::new(0, 4).unwrap();
    {
        let temporary = String::from("ab");
        assert_eq!(
            cursor.next_boundary(&temporary, 0).unwrap(),
            WordCursorResult::NextChunk(2)
        );
    }
    {
        let temporary = String::from("cd");
        assert_eq!(
            cursor.next_boundary(&temporary, 2).unwrap(),
            WordCursorResult::Boundary(4)
        );
    }
    assert_eq!(size_of_val(&cursor), size_of::<WordCursor>());
}

#[test]
fn post_context_replays_from_document_end() {
    let text = "ab.cd";
    let mut cursor = WordCursor::new(3, text.len()).unwrap();
    assert_eq!(cursor.prev_boundary(".", 2), Ok(WordCursorResult::PostContext(3)));
    assert_eq!(cursor.prev_boundary("cd", 3), Ok(WordCursorResult::PrevChunk(5)));
    assert_eq!(cursor.prev_boundary(text, 0), Ok(WordCursorResult::Boundary(0)));
}
