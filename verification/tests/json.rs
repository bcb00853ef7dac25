use agent_rules::json::{update_json, finish_json, json_eq, spec_lists, Json};
use agent_rules::jsontext::parse_json;

fn num(t: &str) -> Json {
    parse_json(t).unwrap()
}

fn s(t: &str) -> Json {
    Json::Str(t.to_string())
}

fn obj(entries: Vec<(&str, Json)>) -> Json {
    Json::Object(entries.into_iter().map(|(k, v)| (k.to_string(), v)).collect())
}

fn strs(items: &[&str]) -> Vec<Json> {
    items.iter().map(|t| s(t)).collect()
}

#[test]
fn list_entries_are_removed_then_ensured() {
    let data = obj(vec![
        ("model", s("x")),
        ("permissions", obj(vec![("deny", Json::Array(strs(&["Read(.env.*)", "Other", "Read(.env)"])))])),
    ]);
    let out = update_json("T", &data, "permissions.deny", &strs(&["Read(.env.*)"]), &strs(&["Read(.env)", "Edit(.env)"])).unwrap();
    let expected = obj(vec![
        ("model", s("x")),
        ("permissions", obj(vec![("deny", Json::Array(strs(&["Other", "Read(.env)", "Edit(.env)"])))])),
    ]);
    assert!(json_eq(&out, &expected));
}

#[test]
fn missing_path_is_created() {
    let out = update_json("T", &obj(vec![]), "permissions.deny", &vec![], &strs(&["a"])).unwrap();
    let expected = obj(vec![("permissions", obj(vec![("deny", Json::Array(strs(&["a"])))]))]);
    assert!(json_eq(&out, &expected));
}

#[test]
fn non_object_intermediate_is_replaced_in_place() {
    let data = obj(vec![("permissions", num("3")), ("z", Json::Null)]);
    let out = update_json("T", &data, "permissions.deny", &vec![], &strs(&["a"])).unwrap();
    match out {
        Json::Object(es) => {
            assert_eq!(es[0].0, "permissions");
            assert_eq!(es[1].0, "z");
            assert!(json_eq(&es[0].1, &obj(vec![("deny", Json::Array(strs(&["a"])))])));
        }
        _ => panic!("expected an object"),
    }
}

#[test]
fn non_array_at_path_is_refused() {
    let data = obj(vec![("permissions", obj(vec![("deny", Json::Bool(true))]))]);
    let r = update_json("T", &data, "permissions.deny", &vec![], &vec![]);
    assert_eq!(r.err(), Some("T: permissions.deny is not a JSON array".to_string()));
}

#[test]
fn non_object_document_is_refused() {
    let r = update_json("T", &Json::Array(vec![]), "a", &vec![], &vec![]);
    assert_eq!(r.err(), Some("T: top-level JSON is not an object".to_string()));
}

#[test]
fn updating_twice_changes_nothing_more() {
    let data = obj(vec![("deny", Json::Array(strs(&["x", "old"])))]);
    let once = update_json("T", &data, "deny", &strs(&["old"]), &strs(&["new", "x"])).unwrap();
    let twice = update_json("T", &once, "deny", &strs(&["old"]), &strs(&["new", "x"])).unwrap();
    assert!(json_eq(&once, &twice));
    assert!(json_eq(&once, &obj(vec![("deny", Json::Array(strs(&["x", "new"])))])));
}

#[test]
fn object_equality_ignores_key_order() {
    let a = obj(vec![("a", num("1")), ("b", s("2"))]);
    let b = obj(vec![("b", s("2")), ("a", num("1"))]);
    let c = obj(vec![("b", s("2")), ("a", num("1.0"))]);
    assert!(json_eq(&a, &b));
    assert!(!json_eq(&a, &c));
    assert!(!json_eq(&Json::Array(vec![a]), &Json::Array(vec![])));
}

#[test]
fn object_elements_are_matched_by_value() {
    let data = obj(vec![("l", Json::Array(vec![obj(vec![("k", s("v")), ("n", Json::Null)])]))]);
    let rm = vec![obj(vec![("n", Json::Null), ("k", s("v"))])];
    let out = update_json("T", &data, "l", &rm, &vec![]).unwrap();
    assert!(json_eq(&out, &obj(vec![("l", Json::Array(vec![]))])));
}

#[test]
fn spec_lists_read_remove_and_ensure() {
    let spec = obj(vec![("remove", Json::Array(strs(&["a"]))), ("ensure", s("not a list"))]);
    let (rm, en) = spec_lists("T", &spec).unwrap();
    assert!(json_eq(&Json::Array(rm), &Json::Array(strs(&["a"]))));
    assert!(en.is_empty());
    assert_eq!(spec_lists("T", &s("x")).err(), Some("T: JSON spec is not an object".to_string()));
}

#[test]
fn json_outcome_is_unchanged_only_for_an_existing_equal_text() {
    let a = finish_json("T", "p.q", true, "{}\n", "{}\n".to_string(), false);
    assert_eq!(a.res.action, "unchanged");
    assert!(a.write.is_none());
    let b = finish_json("T", "p.q", false, "", "{}\n".to_string(), false);
    assert_eq!(b.res.action, "patched");
    assert_eq!(b.res.marker, "p.q");
    assert_eq!(b.write.as_deref(), Some("{}\n"));
    assert!(!b.backup);
    let c = finish_json("T", "p.q", true, "{ }\n", "{}\n".to_string(), true);
    assert_eq!(c.res.action, "patched (dry-run)");
    assert!(c.write.is_none());
}

#[test]
fn an_ensured_entry_that_is_also_removed_stays_last() {
    // The removed-and-ensured entry is the last one: a second run keeps the
    // document as it is.
    let data = obj(vec![("l", Json::Array(strs(&["a", "b"])))]);
    let once = update_json("T", &data, "l", &strs(&["a"]), &strs(&["a"])).unwrap();
    assert!(json_eq(&once, &obj(vec![("l", Json::Array(strs(&["b", "a"])))])));
    let twice = update_json("T", &once, "l", &strs(&["a"]), &strs(&["a"])).unwrap();
    assert!(json_eq(&twice, &once));
}

#[test]
fn an_ensured_entry_that_is_also_removed_moves_to_the_end_once() {
    // A removed-and-ensured entry followed by another ensured one: each run
    // moves it behind the other, so the update is not stable.
    let data = obj(vec![("l", Json::Array(vec![]))]);
    let once = update_json("T", &data, "l", &strs(&["a"]), &strs(&["a", "b"])).unwrap();
    assert!(json_eq(&once, &obj(vec![("l", Json::Array(strs(&["a", "b"])))])));
    let twice = update_json("T", &once, "l", &strs(&["a"]), &strs(&["a", "b"])).unwrap();
    assert!(json_eq(&twice, &obj(vec![("l", Json::Array(strs(&["b", "a"])))])));
    // From the second run on the document stays as it is.
    let thrice = update_json("T", &twice, "l", &strs(&["a"]), &strs(&["a", "b"])).unwrap();
    assert!(json_eq(&thrice, &twice));
}
