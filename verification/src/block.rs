//! Routing a parsed block to its format's handler.
use vstd::prelude::*;
use crate::text::{debug_quoted, debug_str, str_is};
use crate::table::StringMap;
use crate::outcome::Res;
use crate::pathresolve::{resolve_target, resolved, Env};

verus! {

/// What a block asks for once its frontmatter is read.
pub enum BlockPlan {
    /// Replace or insert the marker-delimited block in `target`.
    Markdown { target: String, marker: String, placement: String },
    /// Remove/ensure entries of the array at `json_path` in `target`.
    Json { target: String, json_path: String },
    /// Nothing to do: the format is unknown.
    Skipped(Res),
}

/// The view of a plan, or of the refusal to make one.
pub enum Route {
    Markdown(Seq<char>, Seq<char>, Seq<char>),
    Json(Seq<char>, Seq<char>),
    Skipped(Seq<char>, Seq<char>, Seq<char>),
    Refused(Seq<char>),
}

pub open spec fn plan_view(r: Result<BlockPlan, String>) -> Route {
    match r {
        Ok(BlockPlan::Markdown { target, marker, placement }) => Route::Markdown(target@, marker@, placement@),
        Ok(BlockPlan::Json { target, json_path }) => Route::Json(target@, json_path@),
        Ok(BlockPlan::Skipped(res)) => Route::Skipped(res.target@, res.marker@, res.action@),
        Err(e) => Route::Refused(e@),
    }
}

/// A frontmatter value, "" when the key is absent.
pub open spec fn field(fm: Map<Seq<char>, Seq<char>>, key: Seq<char>) -> Seq<char> {
    if fm.contains_key(key) {
        fm[key]
    } else {
        seq![]
    }
}

/// Where a block goes: its `target` (required, non-empty) resolved, then
/// by `format`: "markdown" needs a `marker` and takes an optional
/// `placement`; "json" needs a `json_path`; any other format is skipped.
/// Refusals are prefixed with the block's name.
pub open spec fn route(name: Seq<char>, fm: Map<Seq<char>, Seq<char>>, env: Env, windows: bool) -> Route {
    let raw = field(fm, "target"@);
    if raw.len() == 0 {
        Route::Refused(name + ": missing 'target' in frontmatter"@)
    } else {
        match resolved(raw, env, windows) {
            None => Route::Refused(name + ": "@ + "cannot resolve home directory (HOME/USERPROFILE not set)"@),
            Some(target) => {
                let marker = field(fm, "marker"@);
                let format = field(fm, "format"@);
                if format == "markdown"@ {
                    if marker.len() == 0 {
                        Route::Refused(name + ": markdown block needs 'marker'"@)
                    } else {
                        Route::Markdown(target, marker, field(fm, "placement"@))
                    }
                } else if format == "json"@ {
                    let json_path = field(fm, "json_path"@);
                    if json_path.len() == 0 {
                        Route::Refused(name + ": json block needs 'json_path'"@)
                    } else {
                        Route::Json(target, json_path)
                    }
                } else {
                    Route::Skipped(target, marker, "skipped (unknown format "@ + debug_quoted(format) + ")"@)
                }
            },
        }
    }
}

/// A frontmatter value, "" when the key is absent.
pub fn field_or_empty(fm: &StringMap, key: &str) -> (r: String)
    ensures
        r@ == field(fm@, key@),
{
    match fm.get(key) {
        Some(v) => v.clone(),
        None => String::new(),
    }
}

/// Routes a parsed block to its format-specific handler (see `route`);
/// the handler itself runs where the target file can be read.
pub fn apply_block(name: &str, fm: &StringMap, env: &StringMap, windows: bool) -> (r: Result<BlockPlan, String>)
    ensures
        plan_view(r) == route(name@, fm@, env@, windows),
{
    let raw_target = field_or_empty(fm, "target");
    if raw_target.as_str().is_empty() {
        return Err(String::from_str(name).concat(": missing 'target' in frontmatter"));
    }
    let target = match resolve_target(raw_target.as_str(), env, windows) {
        Ok(t) => t,
        Err(e) => {
            return Err(String::from_str(name).concat(": ").concat(e.as_str()));
        },
    };
    let marker = field_or_empty(fm, "marker");
    let format = field_or_empty(fm, "format");
    if str_is(format.as_str(), "markdown") {
        if marker.as_str().is_empty() {
            return Err(String::from_str(name).concat(": markdown block needs 'marker'"));
        }
        let placement = field_or_empty(fm, "placement");
        Ok(BlockPlan::Markdown { target, marker, placement })
    } else if str_is(format.as_str(), "json") {
        let json_path = field_or_empty(fm, "json_path");
        if json_path.as_str().is_empty() {
            return Err(String::from_str(name).concat(": json block needs 'json_path'"));
        }
        Ok(BlockPlan::Json { target, json_path })
    } else {
        let action = String::from_str("skipped (unknown format ").concat(debug_str(format.as_str()).as_str()).concat(
            ")",
        );
        Ok(BlockPlan::Skipped(Res { target, marker, action }))
    }
}

/// One line of `list`: the block's format, its target as written, and its
/// json_path (for "json") or marker (otherwise).
pub fn list_entry(fm: &StringMap) -> (r: (String, String, String))
    ensures
        r.0@ == field(fm@, "format"@),
        r.1@ == field(fm@, "target"@),
        r.2@ == if field(fm@, "format"@) == "json"@ {
            field(fm@, "json_path"@)
        } else {
            field(fm@, "marker"@)
        },
{
    let format = field_or_empty(fm, "format");
    let detail = if str_is(format.as_str(), "json") {
        field_or_empty(fm, "json_path")
    } else {
        field_or_empty(fm, "marker")
    };
    let target = field_or_empty(fm, "target");
    (format, target, detail)
}

} // verus!
