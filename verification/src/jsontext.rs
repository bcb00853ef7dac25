//! JSON files as text: serde_json reads and prints them, the library
//! decides what the new text is and how the change is reported.
use vstd::prelude::*;
use crate::json::{update_json, jv, jvs, JsonNumber, json_update, spec_lists, spec_list, Json, JsonRefusal, JsonV};
use crate::json_laws::{json_wf, law_json_update_idempotent, list_at};
use crate::json::{kept, updated_list};
use crate::text::split_char;
use crate::outcome::{finish, finished, Applied};
use crate::text::{chars_eq, is_blank, to_chars, trim};

verus! {

/// serde_json's parsed value, carried through unread.
#[verifier::external_type_specification]
#[verifier::external_body]
pub struct ExValue(serde_json::Value);

/// What `serde_json::from_str::<serde_json::Value>` reads from `text`,
/// node for node, numbers by their printed (`Display`) text; none when it
/// refuses the text.
pub uninterp spec fn json_text_value(text: Seq<char>) -> Option<JsonV>;

/// The message of the error serde_json gives for text it refuses.
pub uninterp spec fn json_parse_error(text: Seq<char>) -> Seq<char>;

/// What `serde_json::to_string_pretty` prints for the value `v` stands
/// for (objects built by inserting their entries in order, numbers as their
/// texts).
pub uninterp spec fn json_pretty(v: JsonV) -> Seq<char>;

/// Trusted: the node-for-node conversion of a `serde_json::Value` into a
/// `Json` (a number becomes its `Display` text, an object its entries in
/// map order); only `parse_json` uses it.
#[verifier::external_body]
fn json_of_value(v: &serde_json::Value) -> Json {
    match v {
        serde_json::Value::Null => Json::Null,
        serde_json::Value::Bool(b) => Json::Bool(*b),
        serde_json::Value::Number(n) => Json::Number(JsonNumber { text: n.to_string(), raw: n.clone() }),
        serde_json::Value::String(s) => Json::Str(s.clone()),
        serde_json::Value::Array(a) => Json::Array(a.iter().map(json_of_value).collect()),
        serde_json::Value::Object(m) => Json::Object(m.iter().map(|(k, x)| (k.clone(), json_of_value(x))).collect()),
    }
}

/// Trusted: the node-for-node conversion of a `Json` into a
/// `serde_json::Value` (a number is the one serde_json read, an object's
/// entries are inserted in order). Only `pretty_json` uses it.
#[verifier::external_body]
fn value_of_json(j: &Json) -> serde_json::Value {
    match j {
        Json::Null => serde_json::Value::Null,
        Json::Bool(b) => serde_json::Value::Bool(*b),
        Json::Number(n) => serde_json::Value::Number(n.raw.clone()),
        Json::Str(s) => serde_json::Value::String(s.clone()),
        Json::Array(a) => serde_json::Value::Array(a.iter().map(value_of_json).collect()),
        Json::Object(es) => serde_json::Value::Object(es.iter().map(|(k, x)| (k.clone(), value_of_json(x))).collect()),
    }
}

/// Trusted: `serde_json::from_str::<serde_json::Value>`. Claims the result
/// is the value `json_text_value` names, or the error `json_parse_error`
/// names, and that objects it reads hold each key once (a serde_json `Map`
/// is a map).
#[verifier::external_body]
pub fn parse_json(text: &str) -> (r: Result<Json, String>)
    ensures
        match json_text_value(text@) {
            Some(v) => r matches Ok(j) && jv(j) == v && json_wf(v),
            None => r matches Err(e) && e@ == json_parse_error(text@),
        },
{
    match serde_json::from_str::<serde_json::Value>(text) {
        Ok(v) => Ok(json_of_value(&v)),
        Err(e) => Err(e.to_string()),
    }
}

/// Trusted: `serde_json::to_string_pretty` on the value `j` stands for.
/// Claims the result is the text `json_pretty` names. A number is printed
/// by the same formatting that gave its text, so the printed text depends
/// on the view alone; printing a `Value` does not fail.
#[verifier::external_body]
pub fn pretty_json(j: &Json) -> (r: String)
    ensures
        r@ == json_pretty(jv(*j)),
{
    match serde_json::to_string_pretty(&value_of_json(j)) {
        Ok(t) => t,
        Err(e) => e.to_string(),
    }
}

/// A JSON text as read: blank text is the empty object.
pub open spec fn read_json(text: Seq<char>) -> Option<JsonV> {
    if trim(text).len() == 0 {
        Some(JsonV::Object(seq![]))
    } else {
        json_text_value(text)
    }
}

/// The new text of a JSON target, or why it is refused: the body is the
/// spec `{"remove": [...], "ensure": [...]}`; the target's text (blank when
/// it does not exist) is updated at `json_path` and printed pretty with a
/// final newline.
pub open spec fn json_new_text(
    target: Seq<char>,
    body: Seq<char>,
    original: Seq<char>,
    json_path: Seq<char>,
) -> Result<Seq<char>, Seq<char>> {
    match read_json(body) {
        None => Err(target + ": invalid JSON spec: "@ + json_parse_error(body)),
        Some(JsonV::Object(spec)) => match read_json(original) {
            None => Err(target + ": invalid JSON: "@ + json_parse_error(original)),
            Some(data) => match json_update(data, json_path, spec_list(spec, "remove"@), spec_list(spec, "ensure"@)) {
                Err(JsonRefusal::NotObject) => Err(target + ": top-level JSON is not an object"@),
                Err(JsonRefusal::NotArray) => Err(target + ": "@ + json_path + " is not a JSON array"@),
                Ok(d) => Ok(json_pretty(d) + "\n"@),
            },
        },
        Some(_) => Err(target + ": JSON spec is not an object"@),
    }
}

/// The document a successful update of a target's text produces.
pub open spec fn json_new_value(body: Seq<char>, original: Seq<char>, json_path: Seq<char>) -> JsonV {
    let spec = read_json(body)->0->Object_0;
    json_update(read_json(original)->0, json_path, spec_list(spec, "remove"@), spec_list(spec, "ensure"@))->Ok_0
}

/// A second run on the text a first run wrote reports it unchanged: its
/// new text is that text again. This needs what serde_json itself does not
/// promise, that the printed text reads back as the printed document (a
/// float may not, unless serde_json's `float_roundtrip` feature is on), and
/// the list update to be stable: the removal, applied to the updated list,
/// keeps a prefix of it. The ensured elements hold each object key once.
pub proof fn law_json_text_idempotent(target: Seq<char>, body: Seq<char>, original: Seq<char>, json_path: Seq<char>)
    requires
        json_new_text(target, body, original, json_path) is Ok,
        read_json(json_new_text(target, body, original, json_path)->Ok_0) == Some(
            json_new_value(body, original, json_path),
        ),
        ({
            let spec = read_json(body)->0->Object_0;
            let ens = spec_list(spec, "ensure"@);
            let rs = spec_list(spec, "remove"@);
            let keys = split_char(json_path, '.');
            let l = updated_list(list_at(read_json(original)->0->Object_0, keys.drop_last(), keys.last()), rs, ens);
            &&& forall|k: int| 0 <= k < ens.len() ==> json_wf(#[trigger] ens[k])
            &&& kept(l, rs).is_prefix_of(l)
        }),
    ensures
        json_new_text(target, body, json_new_text(target, body, original, json_path)->Ok_0, json_path)
            == json_new_text(target, body, original, json_path),
{
    let spec = read_json(body)->0->Object_0;
    let rs = spec_list(spec, "remove"@);
    let ens = spec_list(spec, "ensure"@);
    let data = read_json(original)->0;
    law_json_update_idempotent(data, json_path, rs, ens);
}

/// Reads `text` as JSON, blank text as the empty object.
fn read_json_exec(text: &str) -> (r: Result<Json, String>)
    ensures
        match read_json(text@) {
            Some(v) => r matches Ok(j) && jv(j) == v,
            None => r matches Err(e) && e@ == json_parse_error(text@),
        },
{
    if is_blank(text) {
        let es: Vec<(String, Json)> = Vec::new();
        proof {
            crate::json::lemma_jv_object(es);
            assert(crate::json::jvo(es@) =~= Seq::<(Seq<char>, JsonV)>::empty());
        }
        Ok(Json::Object(es))
    } else {
        parse_json(text)
    }
}

/// The `remove` and `ensure` lists of a block's JSON spec (blank text is
/// the empty object; a missing or non-array entry is empty), or why the
/// spec is refused.
pub open spec fn json_spec_lists(target: Seq<char>, body: Seq<char>) -> Result<(Seq<JsonV>, Seq<JsonV>), Seq<char>> {
    match read_json(body) {
        None => Err(target + ": invalid JSON spec: "@ + json_parse_error(body)),
        Some(JsonV::Object(spec)) => Ok((spec_list(spec, "remove"@), spec_list(spec, "ensure"@))),
        Some(_) => Err(target + ": JSON spec is not an object"@),
    }
}

/// Reads a block's JSON spec (see `json_spec_lists`); the first thing a
/// JSON block checks, before its target is read.
pub fn json_spec(target: &str, body: &str) -> (r: Result<(Vec<Json>, Vec<Json>), String>)
    ensures
        match json_spec_lists(target@, body@) {
            Ok((rm, en)) => r matches Ok((a, b)) && jvs(a@) == rm && jvs(b@) == en,
            Err(e) => r matches Err(m) && m@ == e,
        },
{
    let spec = match read_json_exec(body) {
        Ok(s) => s,
        Err(e) => {
            return Err(String::from_str(target).concat(": invalid JSON spec: ").concat(e.as_str()));
        },
    };
    spec_lists(target, &spec)
}

/// Idempotent remove/ensure on the array at `json_path` of a JSON file:
/// `body` is the block's spec, `existed` and `original` what was read from
/// `target`. The result says what to write there: nothing when the file
/// existed and already holds the new text, else the new text ("patched").
pub fn apply_json(
    target: &str,
    body: &str,
    existed: bool,
    original: &str,
    json_path: &str,
    dry_run: bool,
) -> (r: Result<Applied, String>)
    ensures
        match json_new_text(target@, body@, original@, json_path@) {
            Ok(t) => r matches Ok(a) && finished(
                a,
                target@,
                json_path@,
                existed && t == original@,
                existed,
                t,
                "patched"@,
                dry_run,
            ),
            Err(e) => r matches Err(m) && m@ == e,
        },
{
    let (remove, ensure) = match json_spec(target, body) {
        Ok(p) => p,
        Err(e) => {
            return Err(e);
        },
    };
    let data = match read_json_exec(original) {
        Ok(d) => d,
        Err(e) => {
            return Err(String::from_str(target).concat(": invalid JSON: ").concat(e.as_str()));
        },
    };
    let updated = match update_json(target, &data, json_path, &remove, &ensure) {
        Ok(u) => u,
        Err(e) => {
            return Err(e);
        },
    };
    let printed = pretty_json(&updated);
    let new_text = printed.concat("\n");
    let nt = to_chars(new_text.as_str());
    let ot = to_chars(original);
    let same = chars_eq(&nt, &ot);
    Ok(finish(target, json_path, existed && same, existed, new_text, "patched", dry_run))
}

} // verus!
