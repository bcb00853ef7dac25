use agent_rules::markdown::{apply_markdown, count_gentle, matches_close, matches_gentle_anchor, matches_open};

const BODY: &str = "<!-- user:r -- custom rule -->\nhello\n<!-- /user:r -->";

fn chars(s: &str) -> Vec<char> {
    s.chars().collect()
}

fn written(text_before: &str, existed: bool, body: &str, placement: &str) -> String {
    let a = apply_markdown("T", existed, text_before, body, "user:r", placement, false).unwrap();
    a.write.expect("a change is written")
}

#[test]
fn new_file_gets_the_block_and_a_final_newline() {
    let a = apply_markdown("T", false, "", BODY, "user:r", "after-last-gentle-ai-marker", false).unwrap();
    assert_eq!(a.res.action, "inserted");
    assert_eq!(a.res.target, "T");
    assert_eq!(a.res.marker, "user:r");
    assert_eq!(a.write.as_deref(), Some("<!-- user:r -- custom rule -->\nhello\n<!-- /user:r -->\n"));
    assert!(!a.backup);
}

#[test]
fn block_goes_after_the_last_gentle_ai_anchor() {
    let original = "intro\n<!-- gentle-ai:persona -->\nx\n<!-- /gentle-ai:persona -->\ntail\n";
    let out = written(original, true, BODY, "after-last-gentle-ai-marker");
    assert_eq!(
        out,
        "intro\n<!-- gentle-ai:persona -->\nx\n<!-- /gentle-ai:persona -->\n\n<!-- user:r -- custom rule -->\nhello\n<!-- /user:r -->\ntail\n"
    );
}

#[test]
fn block_goes_at_the_end_without_anchor_or_placement() {
    let original = "intro\n<!-- /gentle-ai:persona -->\n";
    let out = written(original, true, BODY, "");
    assert_eq!(
        out,
        "intro\n<!-- /gentle-ai:persona -->\n\n<!-- user:r -- custom rule -->\nhello\n<!-- /user:r -->\n"
    );
}

#[test]
fn second_application_reports_unchanged() {
    let original = "intro\n<!-- gentle-ai:persona -->\n<!-- /gentle-ai:persona -->\n";
    let first = apply_markdown("T", true, original, BODY, "user:r", "after-last-gentle-ai-marker", false).unwrap();
    assert!(first.backup);
    let text = first.write.unwrap();
    let second = apply_markdown("T", true, &text, BODY, "user:r", "after-last-gentle-ai-marker", false).unwrap();
    assert_eq!(second.res.action, "unchanged");
    assert!(second.write.is_none());
    assert!(!second.backup);
}

#[test]
fn existing_block_is_replaced_in_place() {
    let original = "a\n<!-- user:r -->\nold\n<!-- /user:r -->\nb\n";
    let a = apply_markdown("T", true, original, BODY, "user:r", "after-last-gentle-ai-marker", false).unwrap();
    assert_eq!(a.res.action, "updated");
    assert_eq!(
        a.write.as_deref(),
        Some("a\n<!-- user:r -- custom rule -->\nhello\n<!-- /user:r -->\nb\n")
    );
}

#[test]
fn duplicate_blocks_collapse_to_one() {
    let original = "<!-- user:r -->\n1\n<!-- /user:r -->\nmid\n<!-- user:r -->\n2\n<!-- /user:r -->\n";
    let a = apply_markdown("T", true, original, BODY, "user:r", "", false).unwrap();
    assert_eq!(a.res.action, "updated+deduped");
    assert_eq!(
        a.write.as_deref(),
        Some("<!-- user:r -- custom rule -->\nhello\n<!-- /user:r -->\nmid\n")
    );
}

#[test]
fn dropping_a_gentle_ai_marker_is_refused() {
    let original = "<!-- user:r -->\n<!-- gentle-ai:x -->\n<!-- /user:r -->\n";
    let r = apply_markdown("T", true, original, "<!-- user:r -->\n<!-- /user:r -->", "user:r", "", false);
    assert_eq!(r.err(), Some("SAFETY ABORT: would drop gentle-ai markers (1->0) in T".to_string()));
}

#[test]
fn dry_run_reports_without_writing() {
    let a = apply_markdown("T", true, "x\n", BODY, "user:r", "", true).unwrap();
    assert_eq!(a.res.action, "inserted (dry-run)");
    assert!(a.write.is_none());
    assert!(!a.backup);
}

#[test]
fn missing_final_newline_is_kept_missing() {
    let out = written("<!-- user:r -->\n<!-- /user:r -->", true, BODY, "");
    assert_eq!(out, "<!-- user:r -- custom rule -->\nhello\n<!-- /user:r -->");
}

#[test]
fn crlf_lines_are_read_without_their_carriage_return() {
    let out = written("a\r\nb\r\n", true, BODY, "");
    assert_eq!(out, "a\nb\n\n<!-- user:r -- custom rule -->\nhello\n<!-- /user:r -->\n");
}

#[test]
fn unclosed_opening_line_is_replaced_alone() {
    let out = written("<!-- user:r -->\nkeep\n", true, BODY, "");
    assert_eq!(out, "<!-- user:r -- custom rule -->\nhello\n<!-- /user:r -->\nkeep\n");
}

#[test]
fn opening_marker_needs_a_word_boundary() {
    assert!(matches_open(&chars("  <!--   user:r -->  "), &chars("user:r")));
    assert!(matches_open(&chars("<!-- user:r: note -->"), &chars("user:r")));
    assert!(!matches_open(&chars("<!-- user:rx -->"), &chars("user:r")));
    assert!(!matches_open(&chars("<!-- user:r_ -->"), &chars("user:r")));
    assert!(!matches_open(&chars("<!-- user:r"), &chars("user:r")));
}

#[test]
fn closing_marker_is_exact() {
    assert!(matches_close(&chars(" <!-- /user:r --> "), &chars("user:r")));
    assert!(matches_close(&chars("<!--/user:r-->"), &chars("user:r")));
    assert!(!matches_close(&chars("<!-- /user:r x -->"), &chars("user:r")));
    assert!(!matches_close(&chars("<!-- /user:r --> tail"), &chars("user:r")));
}

#[test]
fn gentle_anchor_lines() {
    assert!(matches_gentle_anchor(&chars("<!-- /gentle-ai:persona -->")));
    assert!(!matches_gentle_anchor(&chars("<!-- gentle-ai:persona -->")));
    assert!(!matches_gentle_anchor(&chars("<!-- /gentle-ai:persona")));
}

#[test]
fn gentle_markers_are_counted_loosely() {
    assert_eq!(count_gentle("<!-- gentle-ai:a -->\n  <!-- /gentle-ai:a\nplain\n<!--gentle-ai:"), 3);
    assert_eq!(count_gentle(""), 0);
    assert_eq!(count_gentle("x <!-- gentle-ai:a -->"), 0);
}

#[test]
fn crlf_block_body_is_applied_once() {
    let body = "<!-- user:r -- custom rule -->\r\nhello\r\n<!-- /user:r -->\r";
    let original = "intro\n<!-- /gentle-ai:persona -->\ntail\n";
    let first = apply_markdown("T", true, original, body, "user:r", "after-last-gentle-ai-marker", false).unwrap();
    let text = first.write.unwrap();
    assert_eq!(
        text,
        "intro\n<!-- /gentle-ai:persona -->\n\n<!-- user:r -- custom rule -->\r\nhello\r\n<!-- /user:r -->\r\ntail\n"
    );
    let second = apply_markdown("T", true, &text, body, "user:r", "after-last-gentle-ai-marker", false).unwrap();
    assert_eq!(second.res.action, "unchanged");
    assert!(second.write.is_none());
}

#[test]
fn every_trailing_carriage_return_is_dropped_when_read() {
    // "x\r\r\n" is read as the line "x", so the first run already writes
    // what every later run writes.
    let first = written("x\r\r\n", true, BODY, "");
    assert_eq!(first, "x\n\n<!-- user:r -- custom rule -->\nhello\n<!-- /user:r -->\n");
    let second = apply_markdown("T", true, &first, BODY, "user:r", "", false).unwrap();
    assert_eq!(second.res.action, "unchanged");
}
