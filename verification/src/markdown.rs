//! Marker-delimited block replacement in markdown files.
//!
//! A block is delimited by `<!-- MARKER ... -->` and `<!-- /MARKER -->`
//! lines. An existing block is replaced in place (duplicates collapse to
//! one); a missing block is inserted after the last `<!-- /gentle-ai:... -->`
//! line, or at the end. A change that would lose a gentle-ai marker is
//! refused.
use vstd::prelude::*;
use crate::text::{
    append_chars, chars_eq, copy_chars, copy_range, decimal, has_prefix, has_suffix, is_alphanumeric,
    split_char, split_chars, string_of, strip_prefix, to_chars, trim, trim_at, trim_end,
    trim_end_at, trim_start, trim_start_at, unicode_alphanumeric, usize_to_decimal, views,
    lemma_find_char, find_char,
};
use crate::outcome::{finish, finished, Applied};

verus! {

// ------------------------------------------------------------------
// Line predicates
// ------------------------------------------------------------------

pub open spec fn is_word_char(c: char) -> bool {
    unicode_alphanumeric(c) || c == '_'
}

/// An opening marker line, `^\s*<!--\s*MARKER\b.*-->\s*$` in regex terms.
pub open spec fn opens_block(line: Seq<char>, marker: Seq<char>) -> bool {
    match strip_prefix(trim_start(line), "<!--"@) {
        None => false,
        Some(after_open) => match strip_prefix(trim_start(after_open), marker) {
            None => false,
            Some(after_marker) => {
                &&& (after_marker.len() > 0 ==> !is_word_char(after_marker[0]))
                &&& "-->"@.is_suffix_of(trim_end(after_marker))
            },
        },
    }
}

/// A closing marker line, `^\s*<!--\s*/MARKER\s*-->\s*$` in regex terms.
pub open spec fn closes_block(line: Seq<char>, marker: Seq<char>) -> bool {
    match strip_prefix(trim_start(line), "<!--"@) {
        None => false,
        Some(after_open) => match strip_prefix(trim_start(after_open), seq!['/'] + marker) {
            None => false,
            Some(after_marker) => match strip_prefix(trim_start(after_marker), "-->"@) {
                None => false,
                Some(tail) => trim(tail).len() == 0,
            },
        },
    }
}

/// A gentle-ai closing anchor line, `^\s*<!--\s*/gentle-ai:.*-->\s*$`.
pub open spec fn is_gentle_anchor(line: Seq<char>) -> bool {
    match strip_prefix(trim_start(line), "<!--"@) {
        None => false,
        Some(after_open) => match strip_prefix(trim_start(after_open), "/gentle-ai:"@) {
            None => false,
            Some(after) => "-->"@.is_suffix_of(trim_end(after)),
        },
    }
}

/// A line starting with an opening or closing gentle-ai marker prefix,
/// `^\s*<!--\s*/?gentle-ai:` in regex terms.
pub open spec fn is_gentle_line(line: Seq<char>) -> bool {
    match strip_prefix(trim_start(line), "<!--"@) {
        None => false,
        Some(after_open) => {
            let rest = trim_start(after_open);
            let rest = if rest.len() > 0 && rest[0] == '/' {
                rest.drop_first()
            } else {
                rest
            };
            "gentle-ai:"@.is_prefix_of(rest)
        },
    }
}

/// How many of `lines` are gentle-ai marker lines.
pub open spec fn count_gentle_lines(lines: Seq<Seq<char>>) -> nat
    decreases lines.len(),
{
    if lines.len() == 0 {
        0
    } else {
        count_gentle_lines(lines.drop_last()) + if is_gentle_line(lines.last()) {
            1nat
        } else {
            0nat
        }
    }
}

/// How many '\n'-separated lines of `text` are gentle-ai marker lines.
pub open spec fn gentle_count(text: Seq<char>) -> nat {
    count_gentle_lines(split_char(text, '\n'))
}

// ------------------------------------------------------------------
// Lines
// ------------------------------------------------------------------

/// A line without its trailing carriage returns, all of them.
pub open spec fn strip_cr(l: Seq<char>) -> Seq<char>
    decreases l.len(),
{
    if l.len() > 0 && l.last() == '\r' {
        strip_cr(l.drop_last())
    } else {
        l
    }
}

/// A stripped line is a prefix of the line and ends with no '\r'.
pub proof fn lemma_strip_cr(l: Seq<char>)
    ensures
        strip_cr(l).len() <= l.len(),
        strip_cr(l) == l.take(strip_cr(l).len() as int),
        strip_cr(strip_cr(l)) == strip_cr(l),
    decreases l.len(),
{
    if l.len() > 0 && l.last() == '\r' {
        lemma_strip_cr(l.drop_last());
        assert(l.drop_last().take(strip_cr(l).len() as int) =~= l.take(strip_cr(l).len() as int));
    } else {
        assert(l.take(l.len() as int) =~= l);
    }
}

/// Each line with its trailing '\r's dropped.
pub open spec fn strip_lines(ls: Seq<Seq<char>>) -> Seq<Seq<char>> {
    ls.map_values(|l: Seq<char>| strip_cr(l))
}

/// The lines of `s` without their endings: "" has none, a final '\n'
/// adds no empty line, and the trailing '\r's are dropped from each line.
pub open spec fn lines_of(s: Seq<char>) -> Seq<Seq<char>> {
    let parts = split_char(s, '\n');
    let parts = if parts.len() > 0 && parts.last().len() == 0 {
        parts.drop_last()
    } else {
        parts
    };
    strip_lines(parts)
}

/// The lines joined with '\n' between them.
pub open spec fn join_lines(ls: Seq<Seq<char>>) -> Seq<char>
    decreases ls.len(),
{
    if ls.len() == 0 {
        seq![]
    } else if ls.len() == 1 {
        ls[0]
    } else {
        join_lines(ls.drop_last()) + seq!['\n'] + ls.last()
    }
}

// ------------------------------------------------------------------
// Block ranges
// ------------------------------------------------------------------

/// Index of the first closing line for `marker` at or after `k`.
pub open spec fn first_close_from(lines: Seq<Seq<char>>, marker: Seq<char>, k: int) -> Option<int>
    decreases lines.len() - k,
{
    if k < 0 || k >= lines.len() {
        None
    } else if closes_block(lines[k], marker) {
        Some(k)
    } else {
        first_close_from(lines, marker, k + 1)
    }
}

/// The inclusive line ranges of the blocks for `marker` found scanning
/// from line `i`: an opening line runs to the first closing line after it,
/// or stands alone when no closing line follows.
pub open spec fn ranges_from(lines: Seq<Seq<char>>, marker: Seq<char>, i: int) -> Seq<(int, int)>
    decreases lines.len() - i,
{
    if i < 0 || i >= lines.len() {
        seq![]
    } else if opens_block(lines[i], marker) {
        match first_close_from(lines, marker, i + 1) {
            Some(j) => if i < j < lines.len() {
                seq![(i, j)] + ranges_from(lines, marker, j + 1)
            } else {
                seq![]
            },
            None => seq![(i, i)] + ranges_from(lines, marker, i + 1),
        }
    } else {
        ranges_from(lines, marker, i + 1)
    }
}

/// The lines that lie outside `rs`, from line `from` on.
pub open spec fn gaps(lines: Seq<Seq<char>>, rs: Seq<(int, int)>, from: int) -> Seq<Seq<char>>
    decreases rs.len(),
{
    if rs.len() == 0 {
        lines.subrange(from, lines.len() as int)
    } else {
        lines.subrange(from, rs[0].0) + gaps(lines, rs.drop_first(), rs[0].1 + 1)
    }
}

/// Index of the last gentle-ai anchor line.
pub open spec fn last_anchor(lines: Seq<Seq<char>>) -> Option<int>
    decreases lines.len(),
{
    if lines.len() == 0 {
        None
    } else if is_gentle_anchor(lines.last()) {
        Some(lines.len() - 1)
    } else {
        last_anchor(lines.drop_last())
    }
}

/// The block appended at the end, after a separating empty line when the
/// last line is not blank.
pub open spec fn appended_at_end(lines: Seq<Seq<char>>, block: Seq<Seq<char>>) -> Seq<Seq<char>> {
    if lines.len() > 0 && trim(lines.last()).len() > 0 {
        lines.push(seq![]) + block
    } else {
        lines + block
    }
}

/// The edited lines and the action taken: the first existing block is
/// replaced by `block` and every later one dropped; without one, `block`
/// goes after the last gentle-ai anchor (with an empty line before it) when
/// `placement` asks for that and an anchor exists, else at the end.
pub open spec fn edit_lines(
    lines: Seq<Seq<char>>,
    block: Seq<Seq<char>>,
    marker: Seq<char>,
    placement: Seq<char>,
) -> (Seq<Seq<char>>, Seq<char>) {
    let rs = ranges_from(lines, marker, 0);
    if rs.len() > 0 {
        (
            lines.take(rs[0].0) + block + gaps(lines, rs.drop_first(), rs[0].1 + 1),
            if rs.len() == 1 {
                "updated"@
            } else {
                "updated+deduped"@
            },
        )
    } else if placement == "after-last-gentle-ai-marker"@ && last_anchor(lines) is Some {
        let a = last_anchor(lines)->0;
        (lines.take(a + 1) + seq![seq![]] + block + lines.skip(a + 1), "inserted"@)
    } else {
        (appended_at_end(lines, block), "inserted"@)
    }
}

/// The new file text: the edited lines joined, ending with '\n' when the
/// target did not exist or its text ended with '\n'.
pub open spec fn markdown_text(
    existed: bool,
    original: Seq<char>,
    body: Seq<char>,
    marker: Seq<char>,
    placement: Seq<char>,
) -> Seq<char> {
    let edited = edit_lines(lines_of(original), split_char(body, '\n'), marker, placement).0;
    let joined = join_lines(edited);
    if !existed || (original.len() > 0 && original.last() == '\n') {
        joined.push('\n')
    } else {
        joined
    }
}

/// The action a changed target is reported with.
pub open spec fn markdown_action(original: Seq<char>, body: Seq<char>, marker: Seq<char>, placement: Seq<char>) -> Seq<char> {
    edit_lines(lines_of(original), split_char(body, '\n'), marker, placement).1
}

/// The refusal for a change that would lose gentle-ai markers.
pub open spec fn safety_message(before: nat, after: nat, target: Seq<char>) -> Seq<char> {
    "SAFETY ABORT: would drop gentle-ai markers ("@ + decimal(before) + "->"@ + decimal(after)
        + ") in "@ + target
}

// ------------------------------------------------------------------
// Lemmas
// ------------------------------------------------------------------

pub proof fn lemma_first_close_from(lines: Seq<Seq<char>>, marker: Seq<char>, k: int)
    requires
        0 <= k,
    ensures
        match first_close_from(lines, marker, k) {
            Some(j) => k <= j < lines.len() && closes_block(lines[j], marker) && forall|x: int|
                k <= x < j ==> !closes_block(#[trigger] lines[x], marker),
            None => forall|x: int| k <= x < lines.len() ==> !closes_block(#[trigger] lines[x], marker),
        },
    decreases lines.len() - k,
{
    if k < lines.len() && !closes_block(lines[k], marker) {
        lemma_first_close_from(lines, marker, k + 1);
    }
}

/// Ranges within `[lo, n)`, each well ordered, and in increasing order.
pub open spec fn ranges_wf(rs: Seq<(int, int)>, lo: int, n: int) -> bool {
    &&& forall|k: int| 0 <= k < rs.len() ==> lo <= #[trigger] rs[k].0 <= rs[k].1 < n
    &&& forall|j: int, k: int| #![trigger rs[j], rs[k]] 0 <= j < k < rs.len() ==> rs[j].1 < rs[k].0
}

pub proof fn lemma_ranges_wf(lines: Seq<Seq<char>>, marker: Seq<char>, i: int)
    requires
        0 <= i,
    ensures
        ranges_wf(ranges_from(lines, marker, i), i, lines.len() as int),
    decreases lines.len() - i,
{
    if i < lines.len() {
        lemma_ranges_wf(lines, marker, i + 1);
        if opens_block(lines[i], marker) {
            lemma_first_close_from(lines, marker, i + 1);
            match first_close_from(lines, marker, i + 1) {
                Some(j) => {
                    lemma_ranges_wf(lines, marker, j + 1);
                    let rest = ranges_from(lines, marker, j + 1);
                    let rs = seq![(i, j)] + rest;
                    assert forall|a: int, b: int| #![trigger rs[a], rs[b]] 0 <= a < b < rs.len() implies rs[a].1 < rs[b].0 by {
                        assert(rs[b] == rest[b - 1]);
                        if a > 0 {
                            assert(rs[a] == rest[a - 1]);
                        }
                    }
                    assert forall|k: int| 0 <= k < rs.len() implies i <= #[trigger] rs[k].0 <= rs[k].1 < lines.len() by {
                        if k > 0 {
                            assert(rs[k] == rest[k - 1]);
                        }
                    }
                },
                None => {
                    let rest = ranges_from(lines, marker, i + 1);
                    let rs = seq![(i, i)] + rest;
                    assert forall|a: int, b: int| #![trigger rs[a], rs[b]] 0 <= a < b < rs.len() implies rs[a].1 < rs[b].0 by {
                        assert(rs[b] == rest[b - 1]);
                        if a > 0 {
                            assert(rs[a] == rest[a - 1]);
                        }
                    }
                    assert forall|k: int| 0 <= k < rs.len() implies i <= #[trigger] rs[k].0 <= rs[k].1 < lines.len() by {
                        if k > 0 {
                            assert(rs[k] == rest[k - 1]);
                        }
                    }
                },
            }
        }
    }
}

pub proof fn lemma_split_char_len(s: Seq<char>, c: char)
    ensures
        split_char(s, c).len() >= 1,
        split_char(s, c).len() <= s.len() + 1,
    decreases s.len(),
{
    lemma_find_char(s, c);
    match find_char(s, c) {
        Some(i) => {
            lemma_split_char_len(s.skip(i + 1), c);
        },
        None => {},
    }
}

// ------------------------------------------------------------------
// Executable code
// ------------------------------------------------------------------

/// Inclusive range of line indices.
pub struct LineRange {
    pub start: usize,
    pub end: usize,
}

pub open spec fn range_views(rs: Seq<LineRange>) -> Seq<(int, int)> {
    rs.map_values(|r: LineRange| (r.start as int, r.end as int))
}

/// Matches an opening marker line -- `^\s*<!--\s*MARKER\b.*-->\s*$` in
/// regex terms: tolerates trailing text after the marker, as long as the
/// marker is followed by a non-word character and the line still ends
/// (ignoring trailing whitespace) with "-->".
pub fn matches_open(line: &Vec<char>, marker: &Vec<char>) -> (b: bool)
    ensures
        b == opens_block(line@, marker@),
{
    let n = line.len();
    assert(line@.subrange(0, n as int) =~= line@);
    let t = trim_start_at(line, 0, n);
    let open = to_chars("<!--");
    if !has_prefix(line, t, n, &open) {
        return false;
    }
    assert(line@.subrange(t as int, n as int).skip(open@.len() as int) =~= line@.subrange(
        t + open@.len(),
        n as int,
    ));
    let r = trim_start_at(line, t + open.len(), n);
    if !has_prefix(line, r, n, marker) {
        return false;
    }
    let a = r + marker.len();
    assert(line@.subrange(r as int, n as int).skip(marker@.len() as int) =~= line@.subrange(
        a as int,
        n as int,
    ));
    if a < n {
        let c = line[a];
        assert(line@.subrange(a as int, n as int)[0] == c);
        if is_alphanumeric(c) || c == '_' {
            return false;
        }
    }
    let e = trim_end_at(line, a, n);
    let close = to_chars("-->");
    has_suffix(line, a, e, &close)
}

/// Matches a closing marker line -- `^\s*<!--\s*/MARKER\s*-->\s*$` in
/// regex terms: exact, no extra text between the marker and "-->".
pub fn matches_close(line: &Vec<char>, marker: &Vec<char>) -> (b: bool)
    ensures
        b == closes_block(line@, marker@),
{
    let n = line.len();
    assert(line@.subrange(0, n as int) =~= line@);
    let t = trim_start_at(line, 0, n);
    let open = to_chars("<!--");
    if !has_prefix(line, t, n, &open) {
        return false;
    }
    assert(line@.subrange(t as int, n as int).skip(open@.len() as int) =~= line@.subrange(
        t + open@.len(),
        n as int,
    ));
    let r = trim_start_at(line, t + open.len(), n);
    let mut expect: Vec<char> = vec!['/'];
    append_chars(&mut expect, marker);
    assert(expect@ =~= seq!['/'] + marker@);
    if !has_prefix(line, r, n, &expect) {
        return false;
    }
    let a = r + expect.len();
    assert(line@.subrange(r as int, n as int).skip(expect@.len() as int) =~= line@.subrange(
        a as int,
        n as int,
    ));
    let w = trim_start_at(line, a, n);
    let close = to_chars("-->");
    if !has_prefix(line, w, n, &close) {
        return false;
    }
    assert(line@.subrange(w as int, n as int).skip(close@.len() as int) =~= line@.subrange(
        w + close@.len(),
        n as int,
    ));
    let (x, y) = trim_at(line, w + close.len(), n);
    x == y
}

/// Matches a gentle-ai closing anchor line, in regex terms:
/// `^\s*<!--\s*/gentle-ai:.*-->\s*$`.
pub fn matches_gentle_anchor(line: &Vec<char>) -> (b: bool)
    ensures
        b == is_gentle_anchor(line@),
{
    let n = line.len();
    assert(line@.subrange(0, n as int) =~= line@);
    let t = trim_start_at(line, 0, n);
    let open = to_chars("<!--");
    if !has_prefix(line, t, n, &open) {
        return false;
    }
    assert(line@.subrange(t as int, n as int).skip(open@.len() as int) =~= line@.subrange(
        t + open@.len(),
        n as int,
    ));
    let r = trim_start_at(line, t + open.len(), n);
    let anchor = to_chars("/gentle-ai:");
    if !has_prefix(line, r, n, &anchor) {
        return false;
    }
    let a = r + anchor.len();
    assert(line@.subrange(r as int, n as int).skip(anchor@.len() as int) =~= line@.subrange(
        a as int,
        n as int,
    ));
    let e = trim_end_at(line, a, n);
    let close = to_chars("-->");
    has_suffix(line, a, e, &close)
}

/// Whether a line starts with an opening or closing gentle-ai marker
/// prefix; no "-->" is required.
pub fn gentle_line(line: &Vec<char>) -> (b: bool)
    ensures
        b == is_gentle_line(line@),
{
    let n = line.len();
    assert(line@.subrange(0, n as int) =~= line@);
    let t = trim_start_at(line, 0, n);
    let open = to_chars("<!--");
    if !has_prefix(line, t, n, &open) {
        return false;
    }
    assert(line@.subrange(t as int, n as int).skip(open@.len() as int) =~= line@.subrange(
        t + open@.len(),
        n as int,
    ));
    let r = trim_start_at(line, t + open.len(), n);
    let r2 = if r < n && line[r] == '/' {
        assert(line@.subrange(r as int, n as int).drop_first() =~= line@.subrange(r + 1, n as int));
        r + 1
    } else {
        r
    };
    let g = to_chars("gentle-ai:");
    has_prefix(line, r2, n, &g)
}

/// Counts the gentle-ai marker lines among the '\n'-separated lines of
/// the characters `v`.
pub fn count_gentle_chars(v: &Vec<char>) -> (r: usize)
    ensures
        r == gentle_count(v@),
{
    let parts = split_chars(v, '\n');
    let mut count: usize = 0;
    let mut k: usize = 0;
    while k < parts.len()
        invariant
            k <= parts@.len(),
            views(parts@) == split_char(v@, '\n'),
            count <= k,
            count == count_gentle_lines(views(parts@).take(k as int)),
        decreases parts@.len() - k,
    {
        assert(views(parts@).take(k + 1).drop_last() =~= views(parts@).take(k as int));
        if gentle_line(&parts[k]) {
            count = count + 1;
        }
        k = k + 1;
    }
    assert(views(parts@).take(parts@.len() as int) =~= views(parts@));
    count
}

/// Counts lines starting with an opening or closing gentle-ai marker
/// prefix -- `(?m)^\s*<!--\s*/?gentle-ai:` in regex terms. Used to compare
/// marker counts before/after a change as a safety net.
pub fn count_gentle(text: &str) -> (r: usize)
    ensures
        r == gentle_count(text@),
{
    let v = to_chars(text);
    count_gentle_chars(&v)
}

/// Splits text into lines without keeping line endings: "" gives no line,
/// and a final trailing newline never produces an extra empty element.
pub fn split_lines_no_keep_ends(v: &Vec<char>) -> (r: Vec<Vec<char>>)
    ensures
        views(r@) == lines_of(v@),
{
    let mut parts = split_chars(v, '\n');
    let ghost all = views(parts@);
    if parts.len() > 0 && parts[parts.len() - 1].len() == 0 {
        parts.pop();
        assert(views(parts@) =~= all.drop_last());
    }
    let ghost kept = views(parts@);
    let mut out: Vec<Vec<char>> = Vec::new();
    let mut k: usize = 0;
    while k < parts.len()
        invariant
            k <= parts@.len(),
            kept == views(parts@),
            views(out@) == strip_lines(kept.take(k as int)),
        decreases parts@.len() - k,
    {
        let p = &parts[k];
        let mut m = p.len();
        proof {
            assert(p@.take(m as int) =~= p@);
        }
        while m > 0 && p[m - 1] == '\r'
            invariant
                m <= p@.len(),
                strip_cr(p@) == strip_cr(p@.take(m as int)),
            decreases m,
        {
            proof {
                assert(p@.take(m as int).drop_last() =~= p@.take(m - 1));
            }
            m = m - 1;
        }
        let line = copy_range(p, 0, m);
        proof {
            assert(p@.subrange(0, m as int) =~= p@.take(m as int));
            assert(p@ == kept[k as int]);
            assert(line@ == strip_cr(kept[k as int]));
            assert(views(out@.push(line)) =~= views(out@).push(line@));
            assert(strip_lines(kept.take(k + 1)) =~= strip_lines(kept.take(k as int)).push(
                strip_cr(kept[k as int]),
            ));
        }
        out.push(line);
        k = k + 1;
    }
    assert(kept.take(parts@.len() as int) =~= kept);
    out
}

/// Appends copies of `lines[lo..hi]` to `out`.
pub fn push_lines(out: &mut Vec<Vec<char>>, lines: &Vec<Vec<char>>, lo: usize, hi: usize)
    requires
        lo <= hi <= lines@.len(),
    ensures
        views(final(out)@) == views(old(out)@) + views(lines@).subrange(lo as int, hi as int),
{
    let mut k = lo;
    while k < hi
        invariant
            lo <= k <= hi <= lines@.len(),
            views(out@) == views(old(out)@) + views(lines@).subrange(lo as int, k as int),
        decreases hi - k,
    {
        let l = copy_chars(&lines[k]);
        proof {
            assert(views(out@.push(l)) =~= views(out@).push(l@));
            assert(views(lines@).subrange(lo as int, k + 1) =~= views(lines@).subrange(
                lo as int,
                k as int,
            ).push(lines@[k as int]@));
        }
        out.push(l);
        k = k + 1;
    }
}

/// Computes the inclusive line ranges of every existing marker-delimited
/// block matching `marker`.
pub fn block_line_ranges(lines: &Vec<Vec<char>>, marker: &Vec<char>) -> (r: Vec<LineRange>)
    ensures
        range_views(r@) == ranges_from(views(lines@), marker@, 0),
{
    let ghost ls = views(lines@);
    let n = lines.len();
    let mut ranges: Vec<LineRange> = Vec::new();
    let mut i: usize = 0;
    while i < n
        invariant
            n == lines@.len(),
            ls == views(lines@),
            i <= n,
            range_views(ranges@) + ranges_from(ls, marker@, i as int) == ranges_from(ls, marker@, 0),
        decreases n - i,
    {
        if matches_open(&lines[i], marker) {
            let mut j = i + 1;
            while j < n && !matches_close(&lines[j], marker)
                invariant
                    n == lines@.len(),
                    ls == views(lines@),
                    i < j <= n,
                    first_close_from(ls, marker@, (i + 1) as int) == first_close_from(ls, marker@, j as int),
                decreases n - j,
            {
                j = j + 1;
            }
            let ghost before = ranges@;
            if j < n {
                ranges.push(LineRange { start: i, end: j });
                proof {
                    assert(range_views(ranges@) =~= range_views(before).push((i as int, j as int)));
                    assert(range_views(before).push((i as int, j as int)) + ranges_from(ls, marker@, j + 1)
                        =~= range_views(before) + (seq![(i as int, j as int)] + ranges_from(ls, marker@, j + 1)));
                }
                i = j + 1;
            } else {
                ranges.push(LineRange { start: i, end: i });
                proof {
                    assert(range_views(ranges@) =~= range_views(before).push((i as int, i as int)));
                    assert(range_views(before).push((i as int, i as int)) + ranges_from(ls, marker@, i + 1)
                        =~= range_views(before) + (seq![(i as int, i as int)] + ranges_from(ls, marker@, i + 1)));
                }
                i = i + 1;
            }
        } else {
            i = i + 1;
        }
    }
    assert(range_views(ranges@) + ranges_from(ls, marker@, n as int) =~= range_views(ranges@));
    ranges
}

/// Index of the last gentle-ai anchor line, if any.
pub fn last_anchor_index(lines: &Vec<Vec<char>>) -> (r: Option<usize>)
    ensures
        match r {
            Some(i) => last_anchor(views(lines@)) == Some(i as int),
            None => last_anchor(views(lines@)) is None,
        },
{
    let mut j = lines.len();
    assert(views(lines@).take(j as int) =~= views(lines@));
    while j > 0
        invariant
            j <= lines@.len(),
            last_anchor(views(lines@)) == last_anchor(views(lines@).take(j as int)),
        decreases j,
    {
        assert(views(lines@).take(j as int).drop_last() =~= views(lines@).take(j - 1));
        if matches_gentle_anchor(&lines[j - 1]) {
            return Some(j - 1);
        }
        j = j - 1;
    }
    None
}

/// Appends the block, separated from a non-blank last line by an empty line.
pub fn append_block_at_end(lines: &mut Vec<Vec<char>>, block_lines: &Vec<Vec<char>>)
    ensures
        views(final(lines)@) == appended_at_end(views(old(lines)@), views(block_lines@)),
{
    let n = lines.len();
    if n > 0 {
        let last = &lines[n - 1];
        let (a, b) = trim_at(last, 0, last.len());
        proof {
            assert(last@.subrange(0, last@.len() as int) =~= last@);
        }
        if a < b {
            lines.push(Vec::new());
            assert(views(lines@) =~= views(old(lines)@).push(seq![]));
        }
    }
    let ghost mid = views(lines@);
    push_lines(lines, block_lines, 0, block_lines.len());
    assert(views(block_lines@).subrange(0, block_lines@.len() as int) =~= views(block_lines@));
}

/// The lines joined with '\n' between them.
pub fn join_chars(ls: &Vec<Vec<char>>) -> (r: Vec<char>)
    ensures
        r@ == join_lines(views(ls@)),
{
    let mut r: Vec<char> = Vec::new();
    let mut k: usize = 0;
    while k < ls.len()
        invariant
            k <= ls@.len(),
            r@ == join_lines(views(ls@).take(k as int)),
        decreases ls@.len() - k,
    {
        let ghost prev = r@;
        assert(views(ls@).take(k + 1).drop_last() =~= views(ls@).take(k as int));
        if k > 0 {
            r.push('\n');
        } else {
            assert(r@ == Seq::<char>::empty());
        }
        append_chars(&mut r, &ls[k]);
        proof {
            if k == 0 {
                assert(r@ =~= views(ls@).take(1)[0]);
            } else {
                assert(r@ =~= prev + seq!['\n'] + views(ls@).take(k + 1).last());
            }
        }
        k = k + 1;
    }
    assert(views(ls@).take(ls@.len() as int) =~= views(ls@));
    r
}

/// The edited lines and the action (see `edit_lines`).
pub fn edit(lines: &Vec<Vec<char>>, block: &Vec<Vec<char>>, marker: &Vec<char>, placement: &str) -> (r: (
    Vec<Vec<char>>,
    &'static str,
))
    ensures
        views(r.0@) == edit_lines(views(lines@), views(block@), marker@, placement@).0,
        r.1@ == edit_lines(views(lines@), views(block@), marker@, placement@).1,
{
    let ghost ls = views(lines@);
    let ghost bl = views(block@);
    let n = lines.len();
    let ranges = block_line_ranges(lines, marker);
    proof {
        lemma_ranges_wf(ls, marker@, 0);
    }
    let ghost rs = range_views(ranges@);
    if ranges.len() > 0 {
        let mut out: Vec<Vec<char>> = Vec::new();
        let first_start = ranges[0].start;
        let first_end = ranges[0].end;
        assert(rs[0] == (first_start as int, first_end as int));
        assert(ranges_wf(rs, 0, n as int));
        assert(0 <= rs[0].0 <= rs[0].1 < n);
        push_lines(&mut out, lines, 0, first_start);
        push_lines(&mut out, block, 0, block.len());
        proof {
            assert(ls.subrange(0, first_start as int) =~= ls.take(first_start as int));
            assert(bl.subrange(0, bl.len() as int) =~= bl);
        }
        let mut from = first_end + 1;
        let mut k: usize = 1;
        while k < ranges.len()
            invariant
                1 <= k <= ranges@.len(),
                n == lines@.len(),
                ls == views(lines@),
                rs == range_views(ranges@),
                ranges_wf(rs, 0, n as int),
                from == rs[k - 1].1 + 1,
                views(out@) + gaps(ls, rs.skip(k as int), from as int) == ls.take(rs[0].0) + bl + gaps(
                    ls,
                    rs.drop_first(),
                    rs[0].1 + 1,
                ),
            decreases ranges@.len() - k,
        {
            let s = ranges[k].start;
            let e = ranges[k].end;
            assert(rs[k as int] == (s as int, e as int));
            assert(rs[k - 1].1 < rs[k as int].0);
            let ghost prev = views(out@);
            push_lines(&mut out, lines, from, s);
            proof {
                assert(rs.skip(k as int).drop_first() =~= rs.skip(k + 1));
                assert(rs.skip(k as int)[0] == rs[k as int]);
                assert(prev + gaps(ls, rs.skip(k as int), from as int) =~= prev + ls.subrange(
                    from as int,
                    s as int,
                ) + gaps(ls, rs.skip(k + 1), e + 1));
            }
            from = e + 1;
            k = k + 1;
        }
        let ghost prev = views(out@);
        assert(rs[k - 1].0 <= rs[k - 1].1 < n);
        push_lines(&mut out, lines, from, n);
        proof {
            assert(rs.skip(ranges@.len() as int).len() == 0);
            assert(rs.drop_first() =~= rs.skip(1));
        }
        let action = if ranges.len() == 1 {
            "updated"
        } else {
            "updated+deduped"
        };
        return (out, action);
    }
    let after_last = to_chars("after-last-gentle-ai-marker");
    let want_anchor = chars_eq(&to_chars(placement), &after_last);
    if want_anchor {
        match last_anchor_index(lines) {
            Some(a) => {
                proof {
                    lemma_last_anchor(ls);
                }
                let mut out: Vec<Vec<char>> = Vec::new();
                push_lines(&mut out, lines, 0, a + 1);
                out.push(Vec::new());
                push_lines(&mut out, block, 0, block.len());
                push_lines(&mut out, lines, a + 1, n);
                proof {
                    assert(views(out@) =~= ls.take(a + 1) + seq![seq![]] + bl + ls.skip(a + 1));
                }
                return (out, "inserted");
            },
            None => {},
        }
    }
    let mut out: Vec<Vec<char>> = Vec::new();
    push_lines(&mut out, lines, 0, n);
    assert(ls.subrange(0, n as int) =~= ls);
    append_block_at_end(&mut out, block);
    (out, "inserted")
}

pub proof fn lemma_last_anchor(lines: Seq<Seq<char>>)
    ensures
        last_anchor(lines) matches Some(a) ==> 0 <= a < lines.len(),
    decreases lines.len(),
{
    if lines.len() > 0 && !is_gentle_anchor(lines.last()) {
        lemma_last_anchor(lines.drop_last());
    }
}

/// The last gentle-ai anchor: when there is one, its line is an anchor
/// and no later line is; when there is none, no line is an anchor.
pub proof fn law_last_anchor(lines: Seq<Seq<char>>)
    ensures
        match last_anchor(lines) {
            Some(a) => 0 <= a < lines.len() && is_gentle_anchor(lines[a]) && forall|k: int|
                a < k < lines.len() ==> !is_gentle_anchor(#[trigger] lines[k]),
            None => forall|k: int| 0 <= k < lines.len() ==> !is_gentle_anchor(#[trigger] lines[k]),
        },
    decreases lines.len(),
{
    if lines.len() > 0 {
        law_last_anchor(lines.drop_last());
        if !is_gentle_anchor(lines.last()) {
            assert forall|k: int| 0 <= k < lines.len() - 1 implies lines[k] == lines.drop_last()[k] by {}
        }
    }
}

/// Without an existing block, placement after the gentle-ai markers puts
/// the block, after an empty line, right after the last anchor line (no
/// anchor follows it); without any anchor the block goes at the end.
pub proof fn law_insert_after_last_anchor(lines: Seq<Seq<char>>, block: Seq<Seq<char>>, marker: Seq<char>)
    requires
        ranges_from(lines, marker, 0).len() == 0,
    ensures
        (exists|k: int| 0 <= k < lines.len() && is_gentle_anchor(#[trigger] lines[k])) ==> exists|a: int|
            0 <= a < lines.len() && is_gentle_anchor(#[trigger] lines[a]) && (forall|k: int|
                a < k < lines.len() ==> !is_gentle_anchor(#[trigger] lines[k])) && edit_lines(
                lines,
                block,
                marker,
                "after-last-gentle-ai-marker"@,
            ).0 == lines.take(a + 1) + seq![seq![]] + block + lines.skip(a + 1),
        (forall|k: int| 0 <= k < lines.len() ==> !is_gentle_anchor(#[trigger] lines[k])) ==> edit_lines(
            lines,
            block,
            marker,
            "after-last-gentle-ai-marker"@,
        ).0 == appended_at_end(lines, block),
{
    law_last_anchor(lines);
    match last_anchor(lines) {
        Some(a) => {
            assert(is_gentle_anchor(lines[a]));
        },
        None => {},
    }
}

/// Replaces an existing marker-delimited block in place (de-duplicating if
/// more than one exists), or inserts after the last gentle-ai marker
/// (falling back to EOF) when the block doesn't exist yet. The change is
/// refused when it would lose gentle-ai marker lines. `existed` and
/// `original` are what was read from `target`; the result says what to
/// write there.
pub fn apply_markdown(
    target: &str,
    existed: bool,
    original: &str,
    body: &str,
    marker: &str,
    placement: &str,
    dry_run: bool,
) -> (r: Result<Applied, String>)
    ensures
        ({
            let new_text = markdown_text(existed, original@, body@, marker@, placement@);
            let before = gentle_count(original@);
            let after = gentle_count(new_text);
            match r {
                Ok(a) => after >= before && finished(
                    a,
                    target@,
                    marker@,
                    new_text == original@,
                    existed,
                    new_text,
                    markdown_action(original@, body@, marker@, placement@),
                    dry_run,
                ),
                Err(e) => after < before && e@ == safety_message(before, after, target@),
            }
        }),
{
    let orig = to_chars(original);
    let gentle_before = count_gentle_chars(&orig);
    let lines = split_lines_no_keep_ends(&orig);
    let body_chars = to_chars(body);
    let block_lines = split_chars(&body_chars, '\n');
    let marker_chars = to_chars(marker);
    let (edited, action) = edit(&lines, &block_lines, &marker_chars, placement);
    let mut new_chars = join_chars(&edited);
    let n = orig.len();
    if !existed || (n > 0 && orig[n - 1] == '\n') {
        new_chars.push('\n');
    }
    let gentle_after = count_gentle_chars(&new_chars);
    if gentle_after < gentle_before {
        let msg = String::from_str("SAFETY ABORT: would drop gentle-ai markers (");
        let msg = msg.concat(usize_to_decimal(gentle_before).as_str());
        let msg = msg.concat("->");
        let msg = msg.concat(usize_to_decimal(gentle_after).as_str());
        let msg = msg.concat(") in ");
        let msg = msg.concat(target);
        return Err(msg);
    }
    let unchanged = chars_eq(&new_chars, &orig);
    let new_text = string_of(&new_chars, 0, new_chars.len());
    assert(new_chars@.subrange(0, new_chars@.len() as int) =~= new_chars@);
    Ok(finish(target, marker, unchanged, existed, new_text, action, dry_run))
}

} // verus!
