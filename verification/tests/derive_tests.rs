use augenblick::derive::{
    clean, compact_whitespace, decode_entities, derive_title_preview, sanitize_heading,
    strip_escapes, truncate,
};

#[test]
fn heading_extraction() {
    let (title, preview) = derive_title_preview("# Title\nPreview line");
    assert_eq!(title, "Title");
    assert_eq!(preview, "Preview line");
}

#[test]
fn empty_content_defaults() {
    let (title, _) = derive_title_preview("\n\n");
    assert_eq!(title, "New note");
}

#[test]
fn whitespace_entity_defaults() {
    let (title, _) = derive_title_preview("&nbsp;");
    assert_eq!(title, "New note");
}

#[test]
fn decodes_html_entities() {
    let (title, _) = derive_title_preview("Hello&nbsp;World");
    assert_eq!(title, "Hello World");
}

#[test]
fn strips_escape_sequences() {
    let (title, _) = derive_title_preview("Hello \\*world\\*");
    assert_eq!(title, "Hello *world*");
}

#[test]
fn skips_non_text_lines() {
    let (title, _) = derive_title_preview("---\nActual title");
    assert_eq!(title, "Actual title");
}

#[test]
fn truncation() {
    let long = "a".repeat(200);
    let (title, preview) = derive_title_preview(&format!("{long}\n{long}"));
    assert_eq!(title.len(), 80);
    assert_eq!(preview.len(), 140);
}

#[test]
fn escaped_heading_prefix() {
    let (title, _) = derive_title_preview("\\# Escaped");
    assert!(title.starts_with('#'));
}

#[test]
fn unicode_truncation_no_panic() {
    let line = "● Jamf “KISS” Setup (mit eurem check_free_space + Live-Check + Zeilenumbrüche)"
        .repeat(4);
    let (title, preview) = derive_title_preview(&line);
    assert!(!title.is_empty());
    assert!(!preview.is_empty());
    assert!(title.len() <= 80);
    assert!(preview.len() <= 140);
}

#[test]
fn derivation_is_idempotent_on_clean_single_line() {
    let (title, preview) = derive_title_preview("Hello world");
    assert_eq!(title, "Hello world");
    assert_eq!(preview, "Hello world");
    let (title2, preview2) = derive_title_preview(&title);
    assert_eq!(title2, title);
    assert_eq!(preview2, title);
}

#[test]
fn preview_skips_duplicate_of_title_line() {
    let (title, preview) = derive_title_preview("x\nx\ny");
    assert_eq!(title, "x");
    assert_eq!(preview, "y");
}

#[test]
fn preview_falls_back_to_title_line() {
    let (title, preview) = derive_title_preview("only line here");
    assert_eq!(title, "only line here");
    assert_eq!(preview, "only line here");
}

#[test]
fn preview_compacts_whitespace() {
    let (_, preview) = derive_title_preview("t\na   b\tc");
    assert_eq!(preview, "a b c");
}

#[test]
fn truncate_respects_char_boundaries() {
    let s = String::from("aé"); // 'é' takes two bytes
    assert_eq!(truncate(s.clone(), 2), "a");
    assert_eq!(truncate(s, 3), "aé");
}

#[test]
fn sanitize_strips_markers_and_trims() {
    assert_eq!(sanitize_heading("  ##>- heading  "), "heading");
    assert_eq!(sanitize_heading("  ## inner # kept "), "inner # kept");
    assert_eq!(sanitize_heading("\\- kept"), "- kept");
}

#[test]
fn decode_entities_in_sequence() {
    assert_eq!(decode_entities("&amp;lt;"), "<");
    assert_eq!(decode_entities("a&quot;b&#39;c&gt;"), "a\"b'c>");
}

#[test]
fn strip_escapes_keeps_unknown_escape() {
    assert_eq!(strip_escapes("\\q"), "\\q");
    assert_eq!(strip_escapes("\\\\"), "\\");
}

#[test]
fn clean_composes_the_pipeline() {
    assert_eq!(clean("# \\*lit\\* &amp; more  "), "*lit* & more");
}

#[test]
fn compact_whitespace_joins_words() {
    assert_eq!(compact_whitespace(String::from("  a \t b  ")), "a b");
}
