use novel_writer::diff::{split_into_lines, DiffUtils};

#[test]
fn statistics_count_insertions() {
    let stats = DiffUtils::get_change_statistics("Hello", "Hello world");
    assert_eq!(stats.insertions, 6);
    assert_eq!(stats.deletions, 0);
    assert_eq!(stats.unchanged, 5);
    assert_eq!(stats.total_changes, 6);
}

#[test]
fn statistics_count_replacements() {
    // The diff engine really aligns the texts: one character replaced, the
    // rest unchanged.
    let stats = DiffUtils::get_change_statistics("abc", "abd");
    assert_eq!(stats.insertions, 1);
    assert_eq!(stats.deletions, 1);
    assert_eq!(stats.unchanged, 2);
    assert_eq!(stats.total_changes, 2);
}

#[test]
fn statistics_for_identical_texts() {
    // Comparing a text to itself yields no changes at all.
    let stats = DiffUtils::get_change_statistics("some text", "some text");
    assert_eq!(stats.insertions, 0);
    assert_eq!(stats.deletions, 0);
    assert_eq!(stats.unchanged, 9);
    assert_eq!(stats.total_changes, 0);
}

#[test]
fn statistics_for_empty_inputs() {
    let stats = DiffUtils::get_change_statistics("", "abc");
    assert_eq!(stats.insertions, 3);
    assert_eq!(stats.deletions, 0);
    assert_eq!(stats.unchanged, 0);
    let stats = DiffUtils::get_change_statistics("abc", "");
    assert_eq!(stats.insertions, 0);
    assert_eq!(stats.deletions, 3);
    assert_eq!(stats.unchanged, 0);
}

#[test]
fn calculate_diff_marks_changes() {
    assert_eq!(DiffUtils::calculate_diff("same", "same"), "same");
    let rendered = DiffUtils::calculate_diff("Hello", "Hello world");
    assert!(rendered.starts_with("Hello"));
    assert!(rendered.contains("[+"));
    assert!(!rendered.contains("[-"));
    let rendered = DiffUtils::calculate_diff("old", "new");
    assert!(rendered.contains("[-"));
    assert!(rendered.contains("[+"));
}

#[test]
fn split_lines_matches_line_semantics() {
    let lines = split_into_lines("one\ntwo\r\n\nfour");
    assert_eq!(lines, vec!["one", "two", "", "four"]);
    assert_eq!(split_into_lines("trailing\n"), vec!["trailing"]);
    assert!(split_into_lines("").is_empty());
}

#[test]
fn similar_chunks_reports_near_duplicates() {
    let text1 = "the quick brown fox jumps\nsomething else entirely here\n";
    let text2 = "the quick brown fox jumped\ncompletely different words now\n";
    let chunks = DiffUtils::find_similar_chunks(text1, text2, 10);
    assert_eq!(chunks.len(), 1);
    assert_eq!(chunks[0].old_text, "the quick brown fox jumps");
    assert_eq!(chunks[0].new_text, "the quick brown fox jumped");
    assert_eq!(chunks[0].old_start, 0);
    assert_eq!(chunks[0].new_start, 0);
    assert!(chunks[0].similarity > 700);
}

#[test]
fn similar_chunks_respects_min_length() {
    let chunks = DiffUtils::find_similar_chunks("short\n", "short\n", 10);
    assert!(chunks.is_empty());
    let chunks = DiffUtils::find_similar_chunks("short\n", "short\n", 5);
    assert_eq!(chunks.len(), 1);
    assert_eq!(chunks[0].similarity, 1000);
}
