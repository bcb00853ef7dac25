//! Block files: a minimal "key: value" frontmatter between two '---'
//! lines, followed by the body.
use vstd::prelude::*;
use crate::text::{
    debug_quoted, debug_str, find_char, find_char_at, lemma_find_char_at, string_of, to_chars, trim,
    trim_at, trim_end_char, trim_end_char_at, trim_start_char, trim_start_char_at, views,
    window_eq, append_chars,
};
use crate::table::StringMap;

verus! {

/// The lines of `s`, each keeping its trailing '\n' (the last one may
/// lack it); "" has no line.
pub open spec fn lines_keep_ends(s: Seq<char>) -> Seq<Seq<char>>
    decreases s.len(),
{
    if s.len() == 0 {
        seq![]
    } else {
        match find_char(s, '\n') {
            Some(i) => if 0 <= i < s.len() {
                seq![s.take(i + 1)] + lines_keep_ends(s.skip(i + 1))
            } else {
                seq![s]
            },
            None => seq![s],
        }
    }
}

/// The lines concatenated.
pub open spec fn concat_lines(ls: Seq<Seq<char>>) -> Seq<char>
    decreases ls.len(),
{
    if ls.len() == 0 {
        seq![]
    } else {
        concat_lines(ls.drop_last()) + ls.last()
    }
}

/// How a frontmatter line reads once trimmed.
pub enum LineKind {
    /// "---": the end of the frontmatter.
    Close,
    /// Blank, or a '#' comment: skipped.
    Skip,
    /// Holds a ':': a key/value entry.
    Entry,
    /// Anything else: refused.
    Bad,
}

pub open spec fn line_kind(line: Seq<char>) -> LineKind {
    let t = trim(line);
    if t == "---"@ {
        LineKind::Close
    } else if t.len() == 0 || t[0] == '#' {
        LineKind::Skip
    } else if find_char(t, ':') is Some {
        LineKind::Entry
    } else {
        LineKind::Bad
    }
}

/// The key of an entry line: the trimmed text before its first ':'.
pub open spec fn entry_key(line: Seq<char>) -> Seq<char> {
    let t = trim(line);
    trim(t.take(find_char(t, ':')->0))
}

/// The value of an entry line: the trimmed text after its first ':'.
pub open spec fn entry_value(line: Seq<char>) -> Seq<char> {
    let t = trim(line);
    trim(t.skip(find_char(t, ':')->0 + 1))
}

/// Index of the first line at or after `i` that ends the frontmatter
/// scan: a closing line or a refused one (`lines.len()` when none does).
pub open spec fn scan_end(lines: Seq<Seq<char>>, i: int) -> int
    decreases lines.len() - i,
{
    if i < 0 || i >= lines.len() {
        lines.len() as int
    } else {
        match line_kind(lines[i]) {
            LineKind::Close => i,
            LineKind::Bad => i,
            _ => scan_end(lines, i + 1),
        }
    }
}

/// The entries of lines `lo..hi`, a later entry overriding an earlier one.
pub open spec fn frontmatter_map(lines: Seq<Seq<char>>, lo: int, hi: int) -> Map<Seq<char>, Seq<char>>
    decreases hi - lo,
{
    if hi <= lo {
        Map::empty()
    } else {
        let m = frontmatter_map(lines, lo, hi - 1);
        if line_kind(lines[hi - 1]) is Entry {
            m.insert(entry_key(lines[hi - 1]), entry_value(lines[hi - 1]))
        } else {
            m
        }
    }
}

/// `s` without leading and trailing '\n' characters.
pub open spec fn trim_newlines(s: Seq<char>) -> Seq<char> {
    trim_end_char(trim_start_char(s, '\n'), '\n')
}

/// Why a block file is refused, with the offending line when there is one.
pub enum BlockFileError {
    NoOpening,
    BadLine(Seq<char>),
    NotClosed,
}

/// The parse of a block file: the frontmatter map and the body, or why
/// the file is refused. The body is everything after the closing '---'
/// line, byte for byte, except that leading and trailing '\n' are removed.
pub open spec fn block_file(content: Seq<char>) -> Result<(Map<Seq<char>, Seq<char>>, Seq<char>), BlockFileError> {
    let lines = lines_keep_ends(content);
    if lines.len() == 0 || trim(lines[0]) != "---"@ {
        Err(BlockFileError::NoOpening)
    } else {
        let e = scan_end(lines, 1);
        if e >= lines.len() {
            Err(BlockFileError::NotClosed)
        } else if line_kind(lines[e]) is Bad {
            Err(BlockFileError::BadLine(trim(lines[e])))
        } else {
            Ok((frontmatter_map(lines, 1, e), trim_newlines(concat_lines(lines.skip(e + 1)))))
        }
    }
}

/// The message a refusal is reported with, prefixed by the file's name.
pub open spec fn block_file_message(name: Seq<char>, e: BlockFileError) -> Seq<char> {
    match e {
        BlockFileError::NoOpening => name + ": must start with '---' frontmatter"@,
        BlockFileError::BadLine(t) => name + ": bad frontmatter line: "@ + debug_quoted(t),
        BlockFileError::NotClosed => name + ": frontmatter not closed with '---'"@,
    }
}

// ------------------------------------------------------------------
// Lemmas
// ------------------------------------------------------------------

proof fn lemma_concat_cons(a: Seq<char>, rest: Seq<Seq<char>>)
    ensures
        concat_lines(seq![a] + rest) == a + concat_lines(rest),
    decreases rest.len(),
{
    if rest.len() == 0 {
        assert(seq![a] + rest =~= seq![a]);
        assert(seq![a].drop_last() =~= Seq::<Seq<char>>::empty());
        assert(concat_lines(seq![a]) == concat_lines(Seq::<Seq<char>>::empty()) + a);
        assert(Seq::<char>::empty() + a =~= a);
        assert(a + Seq::<char>::empty() =~= a);
    } else {
        lemma_concat_cons(a, rest.drop_last());
        let x = seq![a] + rest;
        assert(x.drop_last() =~= seq![a] + rest.drop_last());
        assert(x.last() == rest.last());
        assert(concat_lines(x) == concat_lines(x.drop_last()) + x.last());
        assert(a + concat_lines(rest.drop_last()) + rest.last() =~= a + (concat_lines(rest.drop_last())
            + rest.last()));
    }
}

/// Joining the lines back gives the text: no character is lost or added.
pub proof fn law_lines_keep_ends_concat(s: Seq<char>)
    ensures
        concat_lines(lines_keep_ends(s)) == s,
    decreases s.len(),
{
    if s.len() > 0 {
        crate::text::lemma_find_char(s, '\n');
        match find_char(s, '\n') {
            Some(i) => {
                assert(lines_keep_ends(s) == seq![s.take(i + 1)] + lines_keep_ends(s.skip(i + 1)));
                law_lines_keep_ends_concat(s.skip(i + 1));
                lemma_concat_cons(s.take(i + 1), lines_keep_ends(s.skip(i + 1)));
                assert(s.take(i + 1) + s.skip(i + 1) =~= s);
            },
            None => {
                assert(lines_keep_ends(s) == seq![s]);
                assert(seq![s].drop_last() =~= Seq::<Seq<char>>::empty());
                assert(concat_lines(seq![s]) == concat_lines(Seq::<Seq<char>>::empty()) + s);
                assert(Seq::<char>::empty() + s =~= s);
            },
        }
    }
}

/// The shape of the lines: none is empty, each but the last ends with
/// '\n', and a '\n' stands only at the end of a line.
pub open spec fn keep_ends_shape(ls: Seq<Seq<char>>) -> bool {
    forall|k: int|
        0 <= k < ls.len() ==> {
            &&& (#[trigger] ls[k]).len() > 0
            &&& (k < ls.len() - 1 ==> ls[k].last() == '\n')
            &&& forall|j: int| 0 <= j < ls[k].len() - 1 ==> ls[k][j] != '\n'
        }
}

/// Every line is non-empty, every line but the last ends with '\n', and
/// '\n' occurs in a line only as its last character (so "" has no line).
pub proof fn law_lines_keep_ends_shape(s: Seq<char>)
    ensures
        keep_ends_shape(lines_keep_ends(s)),
    decreases s.len(),
{
    if s.len() > 0 {
        crate::text::lemma_find_char(s, '\n');
        match find_char(s, '\n') {
            Some(i) => {
                let rest = lines_keep_ends(s.skip(i + 1));
                let ls = lines_keep_ends(s);
                assert(ls == seq![s.take(i + 1)] + rest);
                law_lines_keep_ends_shape(s.skip(i + 1));
                assert forall|k: int| 0 <= k < ls.len() implies {
                    &&& (#[trigger] ls[k]).len() > 0
                    &&& (k < ls.len() - 1 ==> ls[k].last() == '\n')
                    &&& forall|j: int| 0 <= j < ls[k].len() - 1 ==> ls[k][j] != '\n'
                } by {
                    if k > 0 {
                        assert(ls[k] == rest[k - 1]);
                    } else {
                        assert(ls[0] == s.take(i + 1));
                        assert forall|j: int| 0 <= j < ls[0].len() - 1 implies ls[0][j] != '\n' by {
                            assert(ls[0][j] == s[j]);
                        }
                    }
                }
            },
            None => {
                let ls = lines_keep_ends(s);
                assert(ls == seq![s]);
            },
        }
    }
}

/// A frontmatter line that carries no entry: blank once trimmed, or a '#'
/// comment.
pub open spec fn comment_or_blank(line: Seq<char>) -> bool {
    trim(line).len() == 0 || trim(line)[0] == '#'
}

/// Blank lines and '#' comments are skipped, whatever else they hold (a
/// comment may hold a ':'); a trimmed "---" closes the frontmatter.
pub proof fn law_comment_lines_skipped(line: Seq<char>)
    ensures
        comment_or_blank(line) ==> line_kind(line) is Skip,
        trim(line) == "---"@ ==> line_kind(line) is Close,
{
    reveal_strlit("---");
}

/// Every key of the frontmatter comes from a line of it that is neither
/// blank nor a comment, holds a ':', and has that key before its first
/// ':'; a comment line never adds a key.
pub proof fn law_frontmatter_keys(lines: Seq<Seq<char>>, lo: int, hi: int)
    ensures
        forall|k: Seq<char>| #[trigger]
            frontmatter_map(lines, lo, hi).contains_key(k) ==> exists|i: int|
                lo <= i < hi && !comment_or_blank(#[trigger] lines[i]) && find_char(trim(lines[i]), ':') is Some
                    && entry_key(lines[i]) == k,
    decreases hi - lo,
{
    if hi > lo {
        law_frontmatter_keys(lines, lo, hi - 1);
        let m = frontmatter_map(lines, lo, hi);
        assert forall|k: Seq<char>| #[trigger] m.contains_key(k) implies exists|i: int|
            lo <= i < hi && !comment_or_blank(#[trigger] lines[i]) && find_char(trim(lines[i]), ':') is Some
                && entry_key(lines[i]) == k by {
            if line_kind(lines[hi - 1]) is Entry && k == entry_key(lines[hi - 1]) {
                assert(!comment_or_blank(lines[hi - 1]));
            } else {
                assert(frontmatter_map(lines, lo, hi - 1).contains_key(k));
            }
        }
    }
}

/// A parsed block file's frontmatter keys each come from a line of the
/// file that is neither blank nor a '#' comment.
pub proof fn law_block_file_keys(content: Seq<char>)
    ensures
        block_file(content) matches Ok((m, _)) ==> forall|k: Seq<char>| #[trigger]
            m.contains_key(k) ==> exists|i: int|
                0 <= i < lines_keep_ends(content).len() && !comment_or_blank(
                    #[trigger] lines_keep_ends(content)[i],
                ) && entry_key(lines_keep_ends(content)[i]) == k,
{
    let lines = lines_keep_ends(content);
    if block_file(content) is Ok {
        let e = scan_end(lines, 1);
        law_frontmatter_keys(lines, 1, e);
        lemma_scan_end_bound(lines, 1);
    }
}

proof fn lemma_scan_end_bound(lines: Seq<Seq<char>>, i: int)
    requires
        0 <= i,
    ensures
        scan_end(lines, i) <= lines.len(),
    decreases lines.len() - i,
{
    if i < lines.len() {
        lemma_scan_end_bound(lines, i + 1);
    }
}

// ------------------------------------------------------------------
// Executable code
// ------------------------------------------------------------------

/// Splits text into lines, keeping each line's trailing '\n'.
pub fn split_lines_keep_ends(v: &Vec<char>) -> (r: Vec<Vec<char>>)
    ensures
        views(r@) == lines_keep_ends(v@),
{
    let n = v.len();
    let mut lines: Vec<Vec<char>> = Vec::new();
    let mut start: usize = 0;
    let mut i: usize = 0;
    assert(v@.subrange(0, n as int) =~= v@);
    while i < n
        invariant
            n == v@.len(),
            start <= i <= n,
            forall|j: int| start <= j < i ==> v@[j] != '\n',
            views(lines@) + lines_keep_ends(v@.subrange(start as int, n as int)) == lines_keep_ends(v@),
        decreases n - i,
    {
        if v[i] == '\n' {
            let line = crate::text::copy_range(v, start, i + 1);
            proof {
                let t = v@.subrange(start as int, n as int);
                lemma_find_char_at(t, '\n', i - start);
                assert(t.take(i - start + 1) =~= line@);
                assert(t.skip(i - start + 1) =~= v@.subrange(i + 1, n as int));
                assert(views(lines@.push(line)) =~= views(lines@).push(line@));
                assert(views(lines@).push(line@) + lines_keep_ends(v@.subrange(i + 1, n as int)) =~= views(
                    lines@,
                ) + (seq![line@] + lines_keep_ends(v@.subrange(i + 1, n as int))));
            }
            lines.push(line);
            start = i + 1;
        }
        i = i + 1;
    }
    if start < n {
        let line = crate::text::copy_range(v, start, n);
        proof {
            lemma_find_char_at(v@.subrange(start as int, n as int), '\n', n - start);
            assert(views(lines@.push(line)) =~= views(lines@).push(line@));
            assert(views(lines@) + seq![line@] =~= views(lines@).push(line@));
        }
        lines.push(line);
    } else {
        assert(v@.subrange(start as int, n as int).len() == 0);
        assert(views(lines@) + Seq::<Seq<char>>::empty() =~= views(lines@));
    }
    lines
}

/// How a frontmatter line reads (see `line_kind`), with the bounds of its
/// trimmed text.
fn classify(line: &Vec<char>) -> (r: (LineKind, usize, usize))
    ensures
        r.0 == line_kind(line@),
        r.1 <= r.2 <= line@.len(),
        trim(line@) == line@.subrange(r.1 as int, r.2 as int),
{
    let (a, b) = trim_at(line, 0, line.len());
    assert(line@.subrange(0, line@.len() as int) =~= line@);
    let dashes = to_chars("---");
    if window_eq(line, a, b, &dashes) {
        return (LineKind::Close, a, b);
    }
    if a == b || line[a] == '#' {
        return (LineKind::Skip, a, b);
    }
    match find_char_at(line, a, b, ':') {
        Some(_) => (LineKind::Entry, a, b),
        None => (LineKind::Bad, a, b),
    }
}

/// Parses a block file's minimal "key: value" frontmatter, delimited by two
/// '---' lines (blank lines and '#' comments inside it are skipped),
/// followed by a body kept byte-for-byte verbatim except that
/// leading/trailing '\n' characters are stripped -- only newlines are
/// trimmed, no other whitespace.
pub fn parse_block_file(name: &str, content: &str) -> (r: Result<(StringMap, String), String>)
    ensures
        match block_file(content@) {
            Ok((m, body)) => r matches Ok((fm, b)) && fm@ == m && b@ == body,
            Err(e) => r matches Err(msg) && msg@ == block_file_message(name@, e),
        },
{
    let cv = to_chars(content);
    let lines = split_lines_keep_ends(&cv);
    let ghost ls = views(lines@);
    let n = lines.len();
    if n == 0 {
        return Err(String::from_str(name).concat(": must start with '---' frontmatter"));
    }
    let (k0, _, _) = classify(&lines[0]);
    match k0 {
        LineKind::Close => {},
        _ => {
            return Err(String::from_str(name).concat(": must start with '---' frontmatter"));
        },
    }
    let mut e: usize = 1;
    loop
        invariant
            n == lines@.len(),
            ls == views(lines@),
            1 <= e <= n,
            scan_end(ls, 1) == scan_end(ls, e as int),
        ensures
            1 <= e <= n,
            scan_end(ls, 1) == scan_end(ls, e as int),
            e == n || line_kind(ls[e as int]) is Close || line_kind(ls[e as int]) is Bad,
        decreases n - e,
    {
        if e == n {
            break;
        }
        let (k, _, _) = classify(&lines[e]);
        match k {
            LineKind::Close => {
                break;
            },
            LineKind::Bad => {
                break;
            },
            _ => {},
        }
        e = e + 1;
    }
    if e == n {
        return Err(String::from_str(name).concat(": frontmatter not closed with '---'"));
    }
    let (ke, a, b) = classify(&lines[e]);
    match ke {
        LineKind::Bad => {
            let t = string_of(&lines[e], a, b);
            let q = debug_str(t.as_str());
            return Err(String::from_str(name).concat(": bad frontmatter line: ").concat(q.as_str()));
        },
        _ => {},
    }
    let mut fm = StringMap::new();
    let mut i: usize = 1;
    while i < e
        invariant
            n == lines@.len(),
            ls == views(lines@),
            1 <= i <= e < n,
            fm@ == frontmatter_map(ls, 1, i as int),
        decreases e - i,
    {
        let line = &lines[i];
        let (k, a, b) = classify(line);
        match k {
            LineKind::Entry => {
                let idx = find_char_at(line, a, b, ':');
                match idx {
                    Some(c) => {
                        let (ka, kb) = trim_at(line, a, c);
                        let (va, vb) = trim_at(line, c + 1, b);
                        let key = string_of(line, ka, kb);
                        let value = string_of(line, va, vb);
                        proof {
                            let t = line@.subrange(a as int, b as int);
                            assert(t.take(c - a) =~= line@.subrange(a as int, c as int));
                            assert(t.skip(c - a + 1) =~= line@.subrange(c + 1, b as int));
                        }
                        fm.insert(key, value);
                    },
                    None => {},
                }
            },
            _ => {},
        }
        i = i + 1;
    }
    let mut acc: Vec<char> = Vec::new();
    let mut j: usize = e + 1;
    assert(ls.subrange(e + 1, e + 1) =~= Seq::<Seq<char>>::empty());
    while j < n
        invariant
            n == lines@.len(),
            ls == views(lines@),
            e + 1 <= j <= n,
            acc@ == concat_lines(ls.subrange(e + 1, j as int)),
        decreases n - j,
    {
        append_chars(&mut acc, &lines[j]);
        assert(ls.subrange(e + 1, j + 1).drop_last() =~= ls.subrange(e + 1, j as int));
        j = j + 1;
    }
    assert(ls.subrange(e + 1, n as int) =~= ls.skip(e + 1));
    let s = trim_start_char_at(&acc, 0, acc.len(), '\n');
    let t = trim_end_char_at(&acc, s, acc.len(), '\n');
    assert(acc@.subrange(0, acc@.len() as int) =~= acc@);
    let body = string_of(&acc, s, t);
    Ok((fm, body))
}

} // verus!
