use agent_rules::json::{update_json, json_eq, Json};
use agent_rules::jsontext::{apply_json, parse_json, pretty_json};

#[test]
fn negative_zero_is_removed_by_zero() {
    let data = parse_json("{\"a\": [-0.0, 1]}").unwrap();
    let out = update_json("T", &data, "a", &vec![parse_json("0.0").unwrap()], &vec![]).unwrap();
    assert!(json_eq(&out, &parse_json("{\"a\": [1]}").unwrap()));
}

#[test]
fn zero_is_not_ensured_next_to_negative_zero() {
    let data = parse_json("{\"a\": [-0.0]}").unwrap();
    let out = update_json("T", &data, "a", &vec![], &vec![parse_json("0.0").unwrap()]).unwrap();
    assert!(json_eq(&out, &data));
}

#[test]
fn integer_zero_and_float_zero_differ() {
    let a = parse_json("0").unwrap();
    let b = parse_json("0.0").unwrap();
    assert!(!json_eq(&a, &b));
    assert!(json_eq(&parse_json("-0.0").unwrap(), &b));
}

#[test]
fn numbers_read_as_serde_prints_them() {
    match parse_json("[1.50, -0]").unwrap() {
        Json::Array(xs) => {
            assert!(matches!(&xs[0], Json::Number(n) if n.text() == "1.5"));
            assert!(matches!(&xs[1], Json::Number(n) if n.text() == "-0.0"));
        }
        _ => panic!("expected an array"),
    }
}

#[test]
fn new_file_is_printed_pretty_with_a_final_newline() {
    let a = apply_json("T", "{\"ensure\": [\"x\"]}", false, "", "permissions.deny", false).unwrap();
    assert_eq!(a.res.action, "patched");
    assert_eq!(
        a.write.as_deref(),
        Some("{\n  \"permissions\": {\n    \"deny\": [\n      \"x\"\n    ]\n  }\n}\n")
    );
    assert!(!a.backup);
}

#[test]
fn key_order_is_kept_and_a_second_run_is_unchanged() {
    let original = "{\"z\": 1, \"a\": {\"deny\": [\"old\", \"k\"]}, \"m\": true}";
    let body = "{\"remove\": [\"old\"], \"ensure\": [\"new\"]}";
    let first = apply_json("T", body, true, original, "a.deny", false).unwrap();
    let text = first.write.unwrap();
    assert_eq!(
        text,
        "{\n  \"z\": 1,\n  \"a\": {\n    \"deny\": [\n      \"k\",\n      \"new\"\n    ]\n  },\n  \"m\": true\n}\n"
    );
    assert!(first.backup);
    let second = apply_json("T", body, true, &text, "a.deny", false).unwrap();
    assert_eq!(second.res.action, "unchanged");
    assert!(second.write.is_none());
}

#[test]
fn dry_run_writes_nothing() {
    let a = apply_json("T", "{\"ensure\": [1]}", true, "{}", "l", true).unwrap();
    assert_eq!(a.res.action, "patched (dry-run)");
    assert!(a.write.is_none());
    assert!(!a.backup);
}

#[test]
fn blank_spec_and_blank_file_are_empty_objects() {
    let a = apply_json("T", "  \n", true, "\n", "l", false).unwrap();
    assert_eq!(a.write.as_deref(), Some("{\n  \"l\": []\n}\n"));
}

#[test]
fn invalid_spec_is_refused() {
    let e = apply_json("T", "{", true, "{}", "l", false).err().unwrap();
    assert!(e.starts_with("T: invalid JSON spec: "));
}

#[test]
fn spec_that_is_not_an_object_is_refused() {
    let e = apply_json("T", "[1]", true, "{}", "l", false).err().unwrap();
    assert_eq!(e, "T: JSON spec is not an object");
}

#[test]
fn invalid_target_is_refused() {
    let e = apply_json("T", "{}", true, "{\"a\": ", "l", false).err().unwrap();
    assert!(e.starts_with("T: invalid JSON: "));
}

#[test]
fn target_that_is_not_an_object_is_refused() {
    let e = apply_json("T", "{}", true, "[]", "l", false).err().unwrap();
    assert_eq!(e, "T: top-level JSON is not an object");
}

#[test]
fn non_array_at_the_path_is_refused() {
    let e = apply_json("T", "{}", true, "{\"l\": 3}", "l", false).err().unwrap();
    assert_eq!(e, "T: l is not a JSON array");
}

#[test]
fn numbers_print_as_they_were_read() {
    // Each number is written back as serde_json read it, with the text it
    // was read as, not read again from that text.
    let j = parse_json("[0.30000000000000004, 1.7976931348623157e308, 5e-324, 2.2250738585072014e-308, 18446744073709551615, -9223372036854775808]").unwrap();
    match &j {
        Json::Array(xs) => {
            assert_eq!(xs.len(), 6);
            for x in xs {
                match x {
                    Json::Number(n) => assert_eq!(&pretty_json(x), n.text()),
                    _ => panic!("expected a number"),
                }
            }
        }
        _ => panic!("expected an array"),
    }
}
