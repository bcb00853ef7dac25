//! What applying one block came to, and what remains to be written.
use vstd::prelude::*;

verus! {

/// Outcome of applying one block: which target was touched, which
/// marker/json_path it corresponds to, and what happened.
pub struct Res {
    pub target: String,
    pub marker: String,
    pub action: String,
}

/// A computed application: the reported outcome and the file work it
/// still needs. When `write` holds a text, the target's previous contents
/// are first backed up if `backup` is set, then the text replaces them.
pub struct Applied {
    pub res: Res,
    pub write: Option<String>,
    pub backup: bool,
}

/// How a computed change is reported and carried out: an unchanged target
/// is reported as such and never written; a dry run reports the action it
/// would take with a " (dry-run)" suffix and writes nothing; otherwise the
/// new text is written, after a backup when the target existed.
pub open spec fn finished(
    a: Applied,
    target: Seq<char>,
    label: Seq<char>,
    unchanged: bool,
    existed: bool,
    new_text: Seq<char>,
    action: Seq<char>,
    dry_run: bool,
) -> bool {
    &&& a.res.target@ == target
    &&& a.res.marker@ == label
    &&& if unchanged {
        &&& a.res.action@ == "unchanged"@
        &&& a.write is None
        &&& !a.backup
    } else if dry_run {
        &&& a.res.action@ == action + " (dry-run)"@
        &&& a.write is None
        &&& !a.backup
    } else {
        &&& a.res.action@ == action
        &&& a.write matches Some(w) && w@ == new_text
        &&& a.backup == existed
    }
}

/// A dry run reports what the real run does, with " (dry-run)" after a
/// change, and writes and backs up nothing.
pub proof fn law_dry_run_reports_the_real_run(
    dry: Applied,
    wet: Applied,
    target: Seq<char>,
    label: Seq<char>,
    unchanged: bool,
    existed: bool,
    new_text: Seq<char>,
    action: Seq<char>,
)
    requires
        finished(dry, target, label, unchanged, existed, new_text, action, true),
        finished(wet, target, label, unchanged, existed, new_text, action, false),
    ensures
        dry.write is None,
        !dry.backup,
        dry.res.target@ == wet.res.target@,
        dry.res.marker@ == wet.res.marker@,
        dry.res.action@ == if unchanged {
            wet.res.action@
        } else {
            wet.res.action@ + " (dry-run)"@
        },
{
}

/// Builds the outcome of one application (see `finished`).
pub fn finish(
    target: &str,
    label: &str,
    unchanged: bool,
    existed: bool,
    new_text: String,
    action: &str,
    dry_run: bool,
) -> (a: Applied)
    ensures
        finished(a, target@, label@, unchanged, existed, new_text@, action@, dry_run),
{
    let t = String::from_str(target);
    let l = String::from_str(label);
    if unchanged {
        return Applied {
            res: Res { target: t, marker: l, action: String::from_str("unchanged") },
            write: None,
            backup: false,
        };
    }
    if dry_run {
        let act = String::from_str(action).concat(" (dry-run)");
        Applied { res: Res { target: t, marker: l, action: act }, write: None, backup: false }
    } else {
        Applied {
            res: Res { target: t, marker: l, action: String::from_str(action) },
            write: Some(new_text),
            backup: existed,
        }
    }
}

} // verus!
