use agent_rules::block::{apply_block, list_entry, BlockPlan};
use agent_rules::files::{backup_name, temp_name};
use agent_rules::frontmatter::parse_block_file;
use agent_rules::table::StringMap;

fn home() -> StringMap {
    let mut m = StringMap::new();
    m.insert("HOME".to_string(), "/h".to_string());
    m
}

#[test]
fn markdown_block_is_routed_with_its_marker() {
    let (fm, _) = parse_block_file("a.md", "---\ntarget: ~/C.md\nformat: markdown\nmarker: user:x\nplacement: after-last-gentle-ai-marker\n---\nbody").unwrap();
    match apply_block("a.md", &fm, &home(), false) {
        Ok(BlockPlan::Markdown { target, marker, placement }) => {
            assert_eq!(target, "/h/C.md");
            assert_eq!(marker, "user:x");
            assert_eq!(placement, "after-last-gentle-ai-marker");
        }
        _ => panic!("expected a markdown plan"),
    }
}

#[test]
fn json_block_is_routed_with_its_path() {
    let (fm, _) = parse_block_file("j.md", "---\ntarget: /s.json\nformat: json\njson_path: a.b\n---\n{}").unwrap();
    match apply_block("j.md", &fm, &home(), false) {
        Ok(BlockPlan::Json { target, json_path }) => {
            assert_eq!(target, "/s.json");
            assert_eq!(json_path, "a.b");
        }
        _ => panic!("expected a json plan"),
    }
}

#[test]
fn block_refusals_name_the_block() {
    let (fm, _) = parse_block_file("a.md", "---\nformat: markdown\n---\n").unwrap();
    assert_eq!(apply_block("a.md", &fm, &home(), false).err(), Some("a.md: missing 'target' in frontmatter".to_string()));
    let (fm, _) = parse_block_file("a.md", "---\ntarget: x\nformat: markdown\n---\n").unwrap();
    assert_eq!(apply_block("a.md", &fm, &home(), false).err(), Some("a.md: markdown block needs 'marker'".to_string()));
    let (fm, _) = parse_block_file("a.md", "---\ntarget: x\nformat: json\n---\n").unwrap();
    assert_eq!(apply_block("a.md", &fm, &home(), false).err(), Some("a.md: json block needs 'json_path'".to_string()));
    let (fm, _) = parse_block_file("a.md", "---\ntarget: ~/x\nformat: json\njson_path: p\n---\n").unwrap();
    assert_eq!(
        apply_block("a.md", &fm, &StringMap::new(), false).err(),
        Some("a.md: cannot resolve home directory (HOME/USERPROFILE not set)".to_string())
    );
}

#[test]
fn unknown_format_is_skipped() {
    let (fm, _) = parse_block_file("a.md", "---\ntarget: x\nformat: yaml\nmarker: m\n---\n").unwrap();
    match apply_block("a.md", &fm, &home(), false) {
        Ok(BlockPlan::Skipped(res)) => {
            assert_eq!(res.action, "skipped (unknown format \"yaml\")");
            assert_eq!(res.target, "x");
            assert_eq!(res.marker, "m");
        }
        _ => panic!("expected a skip"),
    }
}

#[test]
fn list_entries_show_path_or_marker() {
    let (fm, _) = parse_block_file("j.md", "---\ntarget: t\nformat: json\njson_path: a.b\nmarker: m\n---\n").unwrap();
    assert_eq!(list_entry(&fm), ("json".to_string(), "t".to_string(), "a.b".to_string()));
    let (fm, _) = parse_block_file("m.md", "---\ntarget: t\nmarker: m\n---\n").unwrap();
    assert_eq!(list_entry(&fm), ("".to_string(), "t".to_string(), "m".to_string()));
}

#[test]
fn written_file_names() {
    assert_eq!(backup_name("NOTES.md", 1700000000), "NOTES.md.1700000000.bak");
    assert_eq!(backup_name("x", 0), "x.0.bak");
    assert_eq!(temp_name("/a/b.json"), "/a/b.json.tmp");
}
