use verse_pages::{build_chapters, line_is_marker, normalize_chapters, Chapter};

fn lines_of(parts: &[&str]) -> Vec<String> {
    parts.iter().map(|p| p.to_string()).collect()
}

fn segment_texts(ch: &Chapter) -> Vec<Vec<String>> {
    ch.segments
        .iter()
        .map(|s| s.0.iter().map(|l| l.0.clone()).collect())
        .collect()
}

#[test]
fn builds_two_chapters_from_example() {
    let src = lines_of(&["1", "alpha", "beta", "", "gamma", "2", "delta"]);
    let chapters = normalize_chapters(build_chapters(&src));
    assert_eq!(chapters.len(), 2);
    assert_eq!(chapters[0].index, 1);
    assert_eq!(chapters[1].index, 2);
    assert_eq!(
        segment_texts(&chapters[0]),
        vec![vec!["alpha".to_string(), "beta".to_string()], vec!["gamma".to_string()]]
    );
    assert_eq!(segment_texts(&chapters[1]), vec![vec!["delta".to_string()]]);
}

#[test]
fn empty_input_yields_zero_chapters() {
    let chapters = build_chapters(&Vec::new());
    assert_eq!(chapters.len(), 0);
}

#[test]
fn chapter_count_is_markers_plus_leading_content() {
    // Two markers plus content before the first marker: three chapters.
    let src = lines_of(&["alpha", "3", "x", "7"]);
    assert_eq!(build_chapters(&src).len(), 3);
    // A blank line before the first marker is not content: one chapter.
    let src = lines_of(&["", "5"]);
    assert_eq!(build_chapters(&src).len(), 1);
    // Markers alone count, even when duplicated.
    let src = lines_of(&["1", "1", "1"]);
    assert_eq!(build_chapters(&src).len(), 3);
}

#[test]
fn marker_values_are_not_retained() {
    let src = lines_of(&["5", "x", "2", "y", "9", "z"]);
    let chapters = build_chapters(&src);
    assert_eq!(chapters.len(), 3);
    assert_eq!(chapters[0].index, 1);
    assert_eq!(chapters[1].index, 2);
    assert_eq!(chapters[2].index, 3);
}

#[test]
fn implicit_chapter_for_leading_content() {
    let src = lines_of(&["alpha", "1", "beta"]);
    let chapters = build_chapters(&src);
    assert_eq!(chapters.len(), 2);
    assert_eq!(chapters[0].index, 0);
    assert_eq!(segment_texts(&chapters[0]), vec![vec!["alpha".to_string()]]);
    // The marker chapter is numbered by creation count: second created.
    assert_eq!(chapters[1].index, 2);
    assert_eq!(segment_texts(&chapters[1]), vec![vec!["beta".to_string()]]);
}

#[test]
fn blank_lines_before_any_chapter_are_no_ops() {
    let src = lines_of(&["", "", "1", "a"]);
    let chapters = build_chapters(&src);
    assert_eq!(chapters.len(), 1);
    assert_eq!(segment_texts(&chapters[0]), vec![vec!["a".to_string()]]);
}

#[test]
fn consecutive_blanks_make_empty_segments_dropped_by_normalization() {
    let src = lines_of(&["1", "a", "", "", "b", ""]);
    let chapters = build_chapters(&src);
    assert_eq!(chapters.len(), 1);
    // Pre-normalization: ["a"], [], ["b"], [].
    assert_eq!(chapters[0].segments.len(), 4);
    let normalized = normalize_chapters(chapters);
    assert_eq!(
        segment_texts(&normalized[0]),
        vec![vec!["a".to_string()], vec!["b".to_string()]]
    );
}

#[test]
fn normalization_is_idempotent() {
    let src = lines_of(&["1", "a", "", "", "b", "2", "", ""]);
    let once = normalize_chapters(build_chapters(&src));
    let once_texts: Vec<_> = once.iter().map(segment_texts).collect();
    let once_indices: Vec<_> = once.iter().map(|c| c.index).collect();
    let twice = normalize_chapters(once);
    let twice_texts: Vec<_> = twice.iter().map(segment_texts).collect();
    let twice_indices: Vec<_> = twice.iter().map(|c| c.index).collect();
    assert_eq!(once_texts, twice_texts);
    assert_eq!(once_indices, twice_indices);
    for ch in &twice {
        for seg in &ch.segments {
            assert!(!seg.0.is_empty());
        }
    }
}

#[test]
fn marker_line_after_marker_line_leaves_empty_chapter() {
    let src = lines_of(&["1", "2", "a"]);
    let chapters = build_chapters(&src);
    assert_eq!(chapters.len(), 2);
    assert_eq!(chapters[0].segments.len(), 0);
    assert_eq!(segment_texts(&chapters[1]), vec![vec!["a".to_string()]]);
}

#[test]
fn marker_recognition_matches_u32_parsing() {
    let yes = ["42", "  42  ", "+7", "0", "4294967295", "00000000001", "\t9\t"];
    for s in yes {
        assert!(line_is_marker(&s.to_string()), "expected marker: {:?}", s);
    }
    let no = ["", " ", "4294967296", "99999999999999999999", "12a", "a12", "-1", "+", "1 2", "1.5", "one"];
    for s in no {
        assert!(!line_is_marker(&s.to_string()), "expected non-marker: {:?}", s);
    }
}

#[test]
fn whitespace_only_line_is_a_segment_boundary_only_when_empty() {
    // A line of spaces is not empty (the check is exact zero length), and it
    // is not a marker, so it is content.
    let src = lines_of(&["1", "a", "   ", "b"]);
    let chapters = build_chapters(&src);
    assert_eq!(chapters.len(), 1);
    assert_eq!(
        segment_texts(&chapters[0]),
        vec![vec!["a".to_string(), "   ".to_string(), "b".to_string()]]
    );
}
