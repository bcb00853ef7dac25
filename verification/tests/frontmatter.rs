use agent_rules::frontmatter::{parse_block_file, split_lines_keep_ends};

const BLOCK: &str = "---\n# a comment\ntarget: ~/.agent/settings.json\n\nformat:  json \njson_path: permissions.deny\n---\n\n{\n  \"remove\": []\n}\n\n";

#[test]
fn frontmatter_and_body_are_split() {
    let (fm, body) = parse_block_file("b.md", BLOCK).unwrap();
    assert_eq!(fm.get("target").map(|s| s.as_str()), Some("~/.agent/settings.json"));
    assert_eq!(fm.get("format").map(|s| s.as_str()), Some("json"));
    assert_eq!(fm.get("json_path").map(|s| s.as_str()), Some("permissions.deny"));
    assert_eq!(fm.get("marker"), None);
    assert_eq!(body, "{\n  \"remove\": []\n}");
}

#[test]
fn later_keys_override_earlier_ones_and_values_may_hold_colons() {
    let (fm, body) = parse_block_file("b.md", "---\nk: 1\nk: a: b\n---\n  body  ").unwrap();
    assert_eq!(fm.get("k").map(|s| s.as_str()), Some("a: b"));
    assert_eq!(body, "  body  ");
}

#[test]
fn missing_opening_is_refused() {
    assert_eq!(
        parse_block_file("b.md", "target: x\n---\n").err(),
        Some("b.md: must start with '---' frontmatter".to_string())
    );
    assert_eq!(
        parse_block_file("b.md", "").err(),
        Some("b.md: must start with '---' frontmatter".to_string())
    );
}

#[test]
fn line_without_colon_is_refused_with_the_line() {
    assert_eq!(
        parse_block_file("b.md", "---\n  oops  \n---\n").err(),
        Some("b.md: bad frontmatter line: \"oops\"".to_string())
    );
}

#[test]
fn unclosed_frontmatter_is_refused() {
    assert_eq!(
        parse_block_file("b.md", "---\nk: v\n").err(),
        Some("b.md: frontmatter not closed with '---'".to_string())
    );
}

#[test]
fn opening_and_closing_lines_may_carry_spaces() {
    let (fm, body) = parse_block_file("b.md", "  ---  \nk:v\n --- \nx").unwrap();
    assert_eq!(fm.get("k").map(|s| s.as_str()), Some("v"));
    assert_eq!(body, "x");
}

#[test]
fn lines_keep_their_newlines() {
    let v: Vec<char> = "a\nb\n\nc".chars().collect();
    let lines: Vec<String> = split_lines_keep_ends(&v).iter().map(|l| l.iter().collect()).collect();
    assert_eq!(lines, vec!["a\n", "b\n", "\n", "c"]);
    assert!(split_lines_keep_ends(&Vec::new()).is_empty());
}
