//! Target path resolution: environment variable expansion and a leading
//! '~' for the home directory. The environment is handed in as a table of
//! variable names to values.
use vstd::prelude::*;
use crate::text::{
    append_chars, ascii_upper, push_char, to_ascii_upper, find_char, find_char_at, has_prefix, is_alphabetic, is_alphanumeric,
    lemma_find_char, string_of, to_chars, unicode_alphabetic, unicode_alphanumeric,
};
use crate::table::StringMap;

verus! {

/// Variable names to values. On Windows, where names match without regard
/// to case, the table holds each name with its ASCII letters upper-cased
/// (see `env_table`), and lookups fold the name the same way.
pub type Env = Map<Seq<char>, Seq<char>>;

/// A variable name as the table holds it: on Windows with its ASCII
/// letters upper-cased, elsewhere as it is.
pub open spec fn fold_name(name: Seq<char>, windows: bool) -> Seq<char> {
    if windows {
        name.map_values(|c: char| ascii_upper(c))
    } else {
        name
    }
}

/// The table that a list of variables denotes (a later entry wins).
pub open spec fn table_of(ps: Seq<(String, String)>, windows: bool) -> Env
    decreases ps.len(),
{
    if ps.len() == 0 {
        Map::empty()
    } else {
        table_of(ps.drop_last(), windows).insert(fold_name(ps.last().0@, windows), ps.last().1@)
    }
}

/// The value of a variable; an unset variable reads as "".
pub open spec fn env_value(env: Env, name: Seq<char>, windows: bool) -> Seq<char> {
    if env.contains_key(fold_name(name, windows)) {
        env[fold_name(name, windows)]
    } else {
        seq![]
    }
}

/// A non-empty value of a variable.
pub open spec fn non_empty_var(env: Env, name: Seq<char>) -> Option<Seq<char>> {
    if env.contains_key(name) && env[name].len() > 0 {
        Some(env[name])
    } else {
        None
    }
}

/// The home directory (the names are upper case, so they need no folding):
/// on Windows `USERPROFILE` when set and non-empty,
/// else `HOMEDRIVE` followed by `HOMEPATH` when both are set; elsewhere
/// `HOME` when set and non-empty.
pub open spec fn home_of(env: Env, windows: bool) -> Option<Seq<char>> {
    if windows {
        if non_empty_var(env, "USERPROFILE"@) is Some {
            non_empty_var(env, "USERPROFILE"@)
        } else if env.contains_key("HOMEDRIVE"@) && env.contains_key("HOMEPATH"@) {
            Some(env["HOMEDRIVE"@] + env["HOMEPATH"@])
        } else {
            None
        }
    } else {
        non_empty_var(env, "HOME"@)
    }
}

pub open spec fn ident_start(c: char) -> bool {
    unicode_alphabetic(c) || c == '_'
}

pub open spec fn ident_char(c: char) -> bool {
    unicode_alphanumeric(c) || c == '_'
}

/// End of the run of identifier characters starting at `j`.
pub open spec fn ident_end(cs: Seq<char>, j: int) -> int
    decreases cs.len() - j,
{
    if 0 <= j < cs.len() && ident_char(cs[j]) {
        ident_end(cs, j + 1)
    } else {
        j
    }
}

/// Every character is an identifier character.
pub open spec fn all_ident(s: Seq<char>) -> bool {
    forall|j: int| 0 <= j < s.len() ==> ident_char(#[trigger] s[j])
}

/// Where a `${NAME}` reference starting at `i` closes, if it does.
pub open spec fn brace_close(cs: Seq<char>, i: int) -> Option<int> {
    if 0 <= i && i + 1 < cs.len() && cs[i] == '$' && cs[i + 1] == '{' {
        match find_char(cs.subrange(i + 2, cs.len() as int), '}') {
            Some(k) => Some(i + 2 + k),
            None => None,
        }
    } else {
        None
    }
}

/// Where a `%NAME%` reference starting at `i` closes, if it is one: a
/// non-empty name of identifier characters between the two '%'.
pub open spec fn percent_close(cs: Seq<char>, i: int) -> Option<int> {
    if 0 <= i < cs.len() && cs[i] == '%' {
        match find_char(cs.subrange(i + 1, cs.len() as int), '%') {
            Some(k) => if k > 0 && all_ident(cs.subrange(i + 1, i + 1 + k)) {
                Some(i + 1 + k)
            } else {
                None
            },
            None => None,
        }
    } else {
        None
    }
}

/// The expansion of `cs[i..]`: `${NAME}` (up to the first '}'), `$NAME`
/// (an identifier) and `%NAME%` are replaced by the variable's value, an
/// unset variable by ""; every other character is kept.
pub open spec fn expand_from(cs: Seq<char>, env: Env, windows: bool, i: int) -> Seq<char>
    decreases cs.len() - i,
{
    if i < 0 || i >= cs.len() {
        seq![]
    } else if cs[i] == '$' && i + 1 < cs.len() && cs[i + 1] == '{' {
        match brace_close(cs, i) {
            Some(end) => if i < end < cs.len() {
                env_value(env, cs.subrange(i + 2, end), windows) + expand_from(cs, env, windows, end + 1)
            } else {
                seq![]
            },
            None => seq!['$'] + expand_from(cs, env, windows, i + 1),
        }
    } else if cs[i] == '$' && i + 1 < cs.len() && ident_start(cs[i + 1]) {
        let end = ident_end(cs, i + 1);
        if i < end <= cs.len() {
            env_value(env, cs.subrange(i + 1, end), windows) + expand_from(cs, env, windows, end)
        } else {
            seq![]
        }
    } else if cs[i] == '%' && percent_close(cs, i) is Some {
        let end = percent_close(cs, i)->0;
        if i < end < cs.len() {
            env_value(env, cs.subrange(i + 1, end), windows) + expand_from(cs, env, windows, end + 1)
        } else {
            seq![]
        }
    } else {
        seq![cs[i]] + expand_from(cs, env, windows, i + 1)
    }
}

/// The expansion of a whole text.
pub open spec fn expanded(s: Seq<char>, env: Env, windows: bool) -> Seq<char> {
    expand_from(s, env, windows, 0)
}

/// `s` without trailing '/' and '\' characters.
pub open spec fn trim_end_slashes(s: Seq<char>) -> Seq<char>
    decreases s.len(),
{
    if s.len() > 0 && (s.last() == '/' || s.last() == '\\') {
        trim_end_slashes(s.drop_last())
    } else {
        s
    }
}

/// Every '/' turned into '\'.
pub open spec fn backslashed(s: Seq<char>) -> Seq<char> {
    s.map_values(|c: char| if c == '/' { '\\' } else { c })
}

/// The resolved target path, or `None` when it needs the home directory
/// and there is none: after expansion, "~" is the home directory, and a
/// leading "~/" or "~\" is the home directory (without trailing
/// separators) joined to the rest with that separator. On Windows every
/// '/' then becomes '\'.
pub open spec fn resolved(raw: Seq<char>, env: Env, windows: bool) -> Option<Seq<char>> {
    let e = expanded(raw, env, windows);
    let home = home_of(env, windows);
    let with_home = if e == "~"@ {
        home
    } else if "~/"@.is_prefix_of(e) {
        match home {
            Some(h) => Some(trim_end_slashes(h) + seq!['/'] + e.skip(2)),
            None => None,
        }
    } else if "~\\"@.is_prefix_of(e) {
        match home {
            Some(h) => Some(trim_end_slashes(h) + seq!['\\'] + e.skip(2)),
            None => None,
        }
    } else {
        Some(e)
    };
    match with_home {
        Some(p) => if windows {
            Some(backslashed(p))
        } else {
            Some(p)
        },
        None => None,
    }
}

/// The home directory: on Windows `USERPROFILE` whenever it is set and
/// non-empty, otherwise `HOMEDRIVE` followed by `HOMEPATH` when both are set,
/// otherwise none; elsewhere `HOME` when set and non-empty, otherwise none.
pub proof fn law_home_dir(env: Env)
    ensures
        env.contains_key("USERPROFILE"@) && env["USERPROFILE"@].len() > 0 ==> home_of(env, true) == Some(
            env["USERPROFILE"@],
        ),
        !(env.contains_key("USERPROFILE"@) && env["USERPROFILE"@].len() > 0) && env.contains_key(
            "HOMEDRIVE"@,
        ) && env.contains_key("HOMEPATH"@) ==> home_of(env, true) == Some(env["HOMEDRIVE"@] + env["HOMEPATH"@]),
        !(env.contains_key("USERPROFILE"@) && env["USERPROFILE"@].len() > 0) && !(env.contains_key(
            "HOMEDRIVE"@,
        ) && env.contains_key("HOMEPATH"@)) ==> home_of(env, true) is None,
        home_of(env, false) == if env.contains_key("HOME"@) && env["HOME"@].len() > 0 {
            Some(env["HOME"@])
        } else {
            None
        },
{
}

/// A target of just "~" is the home directory: `HOME` elsewhere, and on
/// Windows `USERPROFILE` (with '\\' for '/') whenever it is set and
/// non-empty; without a home directory it does not resolve.
pub proof fn law_resolve_tilde(env: Env)
    ensures
        resolved("~"@, env, false) == if env.contains_key("HOME"@) && env["HOME"@].len() > 0 {
            Some(env["HOME"@])
        } else {
            None
        },
        env.contains_key("USERPROFILE"@) && env["USERPROFILE"@].len() > 0 ==> resolved("~"@, env, true) == Some(
            backslashed(env["USERPROFILE"@]),
        ),
{
    reveal_strlit("~");
    law_expand_plain_text("~"@, env, false);
    law_expand_plain_text("~"@, env, true);
}

/// Text without '$' and '%' is kept as it is: only references expand.
pub proof fn law_expand_plain_text(s: Seq<char>, env: Env, windows: bool)
    requires
        forall|j: int| 0 <= j < s.len() ==> s[j] != '$' && s[j] != '%',
    ensures
        expanded(s, env, windows) == s,
{
    lemma_expand_plain_from(s, env, windows, 0);
    assert(s.skip(0) =~= s);
}

proof fn lemma_expand_plain_from(s: Seq<char>, env: Env, windows: bool, i: int)
    requires
        0 <= i <= s.len(),
        forall|j: int| 0 <= j < s.len() ==> s[j] != '$' && s[j] != '%',
    ensures
        expand_from(s, env, windows, i) == s.skip(i),
    decreases s.len() - i,
{
    if i < s.len() {
        lemma_expand_plain_from(s, env, windows, i + 1);
        assert(seq![s[i]] + s.skip(i + 1) =~= s.skip(i));
    } else {
        assert(s.skip(i) =~= Seq::<char>::empty());
    }
}

// ------------------------------------------------------------------
// Executable code
// ------------------------------------------------------------------

fn is_ident_start(c: char) -> (b: bool)
    ensures
        b == ident_start(c),
{
    is_alphabetic(c) || c == '_'
}

fn is_ident_char(c: char) -> (b: bool)
    ensures
        b == ident_char(c),
{
    is_alphanumeric(c) || c == '_'
}

/// The non-empty value of a variable.
fn non_empty(env: &StringMap, name: &str) -> (r: Option<String>)
    ensures
        match r {
            Some(v) => non_empty_var(env@, name@) == Some(v@),
            None => non_empty_var(env@, name@) is None,
        },
{
    match env.get(name) {
        Some(v) => {
            if v.as_str().is_empty() {
                None
            } else {
                Some(v.clone())
            }
        },
        None => None,
    }
}

/// The home directory (see `home_of`).
pub fn home_dir(env: &StringMap, windows: bool) -> (r: Option<String>)
    ensures
        match r {
            Some(h) => home_of(env@, windows) == Some(h@),
            None => home_of(env@, windows) is None,
        },
{
    if windows {
        match non_empty(env, "USERPROFILE") {
            Some(p) => {
                return Some(p);
            },
            None => {},
        }
        match env.get("HOMEDRIVE") {
            Some(drive) => match env.get("HOMEPATH") {
                Some(path) => Some(drive.clone().concat(path.as_str())),
                None => None,
            },
            None => None,
        }
    } else {
        non_empty(env, "HOME")
    }
}

/// A variable name as the table holds it (see `fold_name`).
pub fn fold_name_exec(name: &str, windows: bool) -> (r: String)
    ensures
        r@ == fold_name(name@, windows),
{
    if !windows {
        return String::from_str(name);
    }
    let cs = to_chars(name);
    let mut out = String::new();
    let mut i: usize = 0;
    while i < cs.len()
        invariant
            i <= cs@.len(),
            cs@ == name@,
            out@ == cs@.take(i as int).map_values(|c: char| ascii_upper(c)),
        decreases cs@.len() - i,
    {
        let u = to_ascii_upper(cs[i]);
        push_char(&mut out, u);
        assert(cs@.take(i + 1).map_values(|c: char| ascii_upper(c)) =~= cs@.take(i as int).map_values(
            |c: char| ascii_upper(c),
        ).push(ascii_upper(cs@[i as int])));
        i = i + 1;
    }
    assert(cs@.take(cs@.len() as int) =~= cs@);
    out
}

/// The table of the given variables (a later entry wins), each name held
/// as `fold_name` gives it.
pub fn env_table(vars: &Vec<(String, String)>, windows: bool) -> (m: StringMap)
    ensures
        m@ == table_of(vars@, windows),
{
    let mut m = StringMap::new();
    let mut i: usize = 0;
    while i < vars.len()
        invariant
            i <= vars@.len(),
            m@ == table_of(vars@.take(i as int), windows),
        decreases vars@.len() - i,
    {
        let k = fold_name_exec(vars[i].0.as_str(), windows);
        m.insert(k, vars[i].1.clone());
        assert(vars@.take(i + 1).drop_last() =~= vars@.take(i as int));
        i = i + 1;
    }
    assert(vars@.take(vars@.len() as int) =~= vars@);
    m
}

/// Appends the value of the variable named `cs[lo..hi]` ("" when unset).
fn push_var(out: &mut Vec<char>, cs: &Vec<char>, lo: usize, hi: usize, env: &StringMap, windows: bool)
    requires
        lo <= hi <= cs@.len(),
    ensures
        final(out)@ == old(out)@ + env_value(env@, cs@.subrange(lo as int, hi as int), windows),
{
    let name = string_of(cs, lo, hi);
    let key = fold_name_exec(name.as_str(), windows);
    match env.get(key.as_str()) {
        Some(v) => {
            let vc = to_chars(v.as_str());
            append_chars(out, &vc);
        },
        None => {
            assert(old(out)@ + Seq::<char>::empty() =~= old(out)@);
        },
    }
}

/// Hand-rolled $VAR / ${VAR} / %VAR% expansion; an unset variable expands
/// to the empty string.
#[verifier::rlimit(40)]
pub fn expand_env_vars(input: &str, env: &StringMap, windows: bool) -> (r: String)
    ensures
        r@ == expanded(input@, env@, windows),
{
    let cs = to_chars(input);
    let n = cs.len();
    let mut out: Vec<char> = Vec::new();
    let mut i: usize = 0;
    while i < n
        invariant
            n == cs@.len(),
            i <= n,
            out@ + expand_from(cs@, env@, windows, i as int) == expand_from(cs@, env@, windows, 0),
        decreases n - i,
    {
        let ghost prev = out@;
        let c = cs[i];
        if c == '$' && i + 1 < n && cs[i + 1] == '{' {
            match find_char_at(&cs, i + 2, n, '}') {
                Some(end) => {
                    proof {
                        lemma_find_char(cs@.subrange(i + 2, n as int), '}');
                        assert(brace_close(cs@, i as int) == Some(end as int));
                    }
                    push_var(&mut out, &cs, i + 2, end, env, windows);
                    assert(prev + expand_from(cs@, env@, windows, i as int) =~= out@ + expand_from(cs@, env@, windows, end + 1));
                    i = end + 1;
                },
                None => {
                    out.push('$');
                    assert(prev + expand_from(cs@, env@, windows, i as int) =~= out@ + expand_from(cs@, env@, windows, i + 1));
                    i = i + 1;
                },
            }
        } else if c == '$' && i + 1 < n && is_ident_start(cs[i + 1]) {
            let start = i + 1;
            let mut end = start;
            while end < n && is_ident_char(cs[end])
                invariant
                    n == cs@.len(),
                    start <= end <= n,
                    ident_end(cs@, start as int) == ident_end(cs@, end as int),
                decreases n - end,
            {
                end = end + 1;
            }
            push_var(&mut out, &cs, start, end, env, windows);
            assert(prev + expand_from(cs@, env@, windows, i as int) =~= out@ + expand_from(cs@, env@, windows, end as int));
            i = end;
        } else if c == '%' {
            let close = find_char_at(&cs, i + 1, n, '%');
            let mut expanded_here = false;
            match close {
                Some(end) => {
                    if end > i + 1 {
                        let mut ok = true;
                        let mut j = i + 1;
                        while j < end
                            invariant
                                n == cs@.len(),
                                i + 1 <= j <= end < n,
                                ok == (forall|x: int| i + 1 <= x < j ==> ident_char(#[trigger] cs@[x])),
                            decreases end - j,
                        {
                            if !is_ident_char(cs[j]) {
                                ok = false;
                            }
                            j = j + 1;
                        }
                        proof {
                            let nm = cs@.subrange(i + 1, end as int);
                            assert(all_ident(nm) == ok) by {
                                if ok {
                                    assert forall|x: int| 0 <= x < nm.len() implies ident_char(#[trigger] nm[x]) by {
                                        assert(nm[x] == cs@[i + 1 + x]);
                                    }
                                } else {
                                    let x = choose|x: int| i + 1 <= x < end && !ident_char(#[trigger] cs@[x]);
                                    assert(nm[x - i - 1] == cs@[x]);
                                }
                            }
                        }
                        if ok {
                            proof {
                                assert(percent_close(cs@, i as int) == Some(end as int));
                            }
                            push_var(&mut out, &cs, i + 1, end, env, windows);
                            assert(prev + expand_from(cs@, env@, windows, i as int) =~= out@ + expand_from(
                                cs@,
                                env@,
                                windows,
                                end + 1,
                            ));
                            i = end + 1;
                            expanded_here = true;
                        }
                    }
                },
                None => {},
            }
            if !expanded_here {
                proof {
                    assert(percent_close(cs@, i as int) is None);
                }
                out.push('%');
                assert(prev + expand_from(cs@, env@, windows, i as int) =~= out@ + expand_from(cs@, env@, windows, i + 1));
                i = i + 1;
            }
        } else {
            out.push(c);
            assert(prev + expand_from(cs@, env@, windows, i as int) =~= out@ + expand_from(cs@, env@, windows, i + 1));
            i = i + 1;
        }
    }
    assert(out@ + Seq::<char>::empty() =~= out@);
    let r = string_of(&out, 0, out.len());
    assert(out@.subrange(0, out@.len() as int) =~= out@);
    r
}

/// Mechanical path resolution only: expand environment variables and a
/// leading '~' to the per-OS home directory (see `resolved`); without a
/// home directory to use, the error names the variables it comes from.
pub fn resolve_target(raw: &str, env: &StringMap, windows: bool) -> (r: Result<String, String>)
    ensures
        match resolved(raw@, env@, windows) {
            Some(p) => r matches Ok(t) && t@ == p,
            None => r matches Err(e) && e@ == "cannot resolve home directory (HOME/USERPROFILE not set)"@,
        },
{
    let expanded = expand_env_vars(raw, env, windows);
    let e = to_chars(expanded.as_str());
    let n = e.len();
    let tilde = to_chars("~");
    let tilde_slash = to_chars("~/");
    let tilde_back = to_chars("~\\");
    let no_home = "cannot resolve home directory (HOME/USERPROFILE not set)";
    assert(e@.subrange(0, n as int) =~= e@);
    proof {
        reveal_strlit("~/");
        reveal_strlit("~\\");
    }
    let mut with_home: Vec<char>;
    if crate::text::chars_eq(&e, &tilde) {
        match home_dir(env, windows) {
            Some(h) => {
                with_home = to_chars(h.as_str());
            },
            None => {
                return Err(String::from_str(no_home));
            },
        }
    } else if has_prefix(&e, 0, n, &tilde_slash) || has_prefix(&e, 0, n, &tilde_back) {
        let sep = if has_prefix(&e, 0, n, &tilde_slash) {
            '/'
        } else {
            '\\'
        };
        match home_dir(env, windows) {
            Some(h) => {
                let hc = to_chars(h.as_str());
                let mut k = hc.len();
                assert(hc@.take(k as int) =~= hc@);
                while k > 0 && (hc[k - 1] == '/' || hc[k - 1] == '\\')
                    invariant
                        k <= hc@.len(),
                        trim_end_slashes(hc@) == trim_end_slashes(hc@.take(k as int)),
                    decreases k,
                {
                    assert(hc@.take(k as int).drop_last() =~= hc@.take(k - 1));
                    k = k - 1;
                }
                assert(hc@.take(hc@.len() as int) =~= hc@);
                with_home = crate::text::copy_range(&hc, 0, k);
                assert(hc@.subrange(0, k as int) =~= hc@.take(k as int));
                with_home.push(sep);
                let rest = crate::text::copy_range(&e, 2, n);
                append_chars(&mut with_home, &rest);
                proof {
                    assert(e@.subrange(2, n as int) =~= e@.skip(2));
                }
            },
            None => {
                return Err(String::from_str(no_home));
            },
        }
    } else {
        with_home = e;
    }
    if windows {
        let mut k: usize = 0;
        let ghost before = with_home@;
        while k < with_home.len()
            invariant
                k <= with_home@.len() == before.len(),
                forall|x: int| 0 <= x < k ==> with_home@[x] == (if before[x] == '/' { '\\' } else { before[x] }),
                forall|x: int| k <= x < with_home@.len() ==> with_home@[x] == before[x],
            decreases with_home@.len() - k,
        {
            if with_home[k] == '/' {
                with_home.set(k, '\\');
            }
            k = k + 1;
        }
        assert(with_home@ =~= backslashed(before));
    }
    let r = string_of(&with_home, 0, with_home.len());
    assert(with_home@.subrange(0, with_home@.len() as int) =~= with_home@);
    Ok(r)
}

} // verus!
