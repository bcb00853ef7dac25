//! Properties of markdown block application that span several runs.
use vstd::prelude::*;
use crate::text::{
    find_char, lemma_find_char, lemma_split_char_none, lemma_split_char_step, no_char,
    split_char, strip_prefix, trim_start,
};
use crate::markdown::{
    appended_at_end, closes_block, edit_lines, first_close_from, gaps, join_lines, last_anchor,
    lemma_first_close_from, lemma_last_anchor, lemma_ranges_wf, lines_of, markdown_text,
    opens_block, ranges_from, ranges_wf, strip_cr, strip_lines, lemma_strip_cr,
};

verus! {

/// No line opens a block for `marker`.
pub open spec fn no_opens(ls: Seq<Seq<char>>, marker: Seq<char>) -> bool {
    forall|k: int| 0 <= k < ls.len() ==> !opens_block(#[trigger] ls[k], marker)
}

/// No line holds a '\n'.
pub open spec fn no_newlines(ls: Seq<Seq<char>>) -> bool {
    forall|k: int| 0 <= k < ls.len() ==> no_char(#[trigger] ls[k], '\n')
}

/// No line ends with '\r'.
pub open spec fn no_trailing_cr(ls: Seq<Seq<char>>) -> bool {
    forall|k: int| 0 <= k < ls.len() ==> strip_cr(#[trigger] ls[k]) == ls[k]
}

/// The body's lines form exactly one block: at least two lines, the first
/// opens it, the last closes it, and no line in between closes it.
pub open spec fn block_shape(block: Seq<Seq<char>>, marker: Seq<char>) -> bool {
    &&& block.len() >= 2
    &&& opens_block(block[0], marker)
    &&& closes_block(block.last(), marker)
    &&& forall|k: int| 1 <= k < block.len() - 1 ==> !closes_block(#[trigger] block[k], marker)
}

// ------------------------------------------------------------------
// Scanning for ranges
// ------------------------------------------------------------------

proof fn lemma_skip_non_openers(ls: Seq<Seq<char>>, m: Seq<char>, i: int, j: int)
    requires
        0 <= i <= j <= ls.len(),
        forall|k: int| i <= k < j ==> !opens_block(#[trigger] ls[k], m),
    ensures
        ranges_from(ls, m, i) == ranges_from(ls, m, j),
    decreases j - i,
{
    if i < j {
        lemma_skip_non_openers(ls, m, i + 1, j);
    }
}

proof fn lemma_first_close_at(ls: Seq<Seq<char>>, m: Seq<char>, k: int, j: int)
    requires
        0 <= k <= j < ls.len(),
        closes_block(ls[j], m),
        forall|x: int| k <= x < j ==> !closes_block(#[trigger] ls[x], m),
    ensures
        first_close_from(ls, m, k) == Some(j),
    decreases j - k,
{
    if k < j {
        lemma_first_close_at(ls, m, k + 1, j);
    }
}

proof fn lemma_ranges_head(ls: Seq<Seq<char>>, m: Seq<char>, i: int)
    requires
        0 <= i,
        ranges_from(ls, m, i).len() > 0,
    ensures
        i <= ranges_from(ls, m, i)[0].0,
        forall|k: int| i <= k < ranges_from(ls, m, i)[0].0 ==> !opens_block(#[trigger] ls[k], m),
        ranges_from(ls, m, i).drop_first() == ranges_from(ls, m, ranges_from(ls, m, i)[0].1 + 1),
    decreases ls.len() - i,
{
    let rs = ranges_from(ls, m, i);
    if i < ls.len() {
        if !opens_block(ls[i], m) {
            lemma_ranges_head(ls, m, i + 1);
        } else {
            match first_close_from(ls, m, i + 1) {
                Some(j) => {
                    assert(rs.drop_first() =~= ranges_from(ls, m, j + 1));
                },
                None => {
                    assert(rs.drop_first() =~= ranges_from(ls, m, i + 1));
                },
            }
        }
    }
}

proof fn lemma_gaps_step(ls: Seq<Seq<char>>, rs: Seq<(int, int)>, i: int)
    requires
        0 <= i < ls.len(),
        ranges_wf(rs, i + 1, ls.len() as int),
    ensures
        gaps(ls, rs, i) == seq![ls[i]] + gaps(ls, rs, i + 1),
{
    if rs.len() == 0 {
        assert(ls.subrange(i, ls.len() as int) =~= seq![ls[i]] + ls.subrange(i + 1, ls.len() as int));
    } else {
        assert(i + 1 <= rs[0].0);
        assert(ls.subrange(i, rs[0].0) =~= seq![ls[i]] + ls.subrange(i + 1, rs[0].0));
        assert(gaps(ls, rs, i) =~= seq![ls[i]] + gaps(ls, rs, i + 1));
    }
}

/// The lines left outside the ranges found from `i` open no block.
proof fn lemma_gaps_free(ls: Seq<Seq<char>>, m: Seq<char>, i: int)
    requires
        0 <= i <= ls.len(),
    ensures
        no_opens(gaps(ls, ranges_from(ls, m, i), i), m),
    decreases ls.len() - i,
{
    let rs = ranges_from(ls, m, i);
    if i == ls.len() {
        assert(gaps(ls, rs, i) =~= Seq::<Seq<char>>::empty());
    } else if opens_block(ls[i], m) {
        lemma_first_close_from(ls, m, i + 1);
        match first_close_from(ls, m, i + 1) {
            Some(j) => {
                lemma_gaps_free(ls, m, j + 1);
                assert(rs.drop_first() =~= ranges_from(ls, m, j + 1));
                assert(gaps(ls, rs, i) =~= gaps(ls, ranges_from(ls, m, j + 1), j + 1));
            },
            None => {
                lemma_gaps_free(ls, m, i + 1);
                assert(rs.drop_first() =~= ranges_from(ls, m, i + 1));
                assert(gaps(ls, rs, i) =~= gaps(ls, ranges_from(ls, m, i + 1), i + 1));
            },
        }
    } else {
        lemma_gaps_free(ls, m, i + 1);
        lemma_ranges_wf(ls, m, i + 1);
        lemma_gaps_step(ls, rs, i);
        let g = gaps(ls, rs, i);
        let g1 = gaps(ls, rs, i + 1);
        assert forall|k: int| 0 <= k < g.len() implies !opens_block(#[trigger] g[k], m) by {
            if k > 0 {
                assert(g[k] == g1[k - 1]);
            }
        }
    }
}

/// Lines of the gaps are lines of `ls`, so they keep any property that
/// every line of `ls` has; here, holding no '\n'.
proof fn lemma_gaps_no_newlines(ls: Seq<Seq<char>>, rs: Seq<(int, int)>, from: int)
    requires
        no_newlines(ls),
        0 <= from <= ls.len(),
        ranges_wf(rs, from, ls.len() as int),
    ensures
        no_newlines(gaps(ls, rs, from)),
    decreases rs.len(),
{
    if rs.len() == 0 {
        let g = ls.subrange(from, ls.len() as int);
        assert forall|k: int| 0 <= k < g.len() implies no_char(#[trigger] g[k], '\n') by {
            assert(g[k] == ls[from + k]);
        }
    } else {
        let rest = rs.drop_first();
        assert(from <= rs[0].0 <= rs[0].1 < ls.len());
        assert forall|k: int| 0 <= k < rest.len() implies rs[0].1 + 1 <= #[trigger] rest[k].0
            <= rest[k].1 < ls.len() by {
            assert(rest[k] == rs[k + 1]);
        }
        assert forall|a: int, b: int| #![trigger rest[a], rest[b]] 0 <= a < b < rest.len() implies rest[a].1
            < rest[b].0 by {
            assert(rest[a] == rs[a + 1]);
            assert(rest[b] == rs[b + 1]);
        }
        lemma_gaps_no_newlines(ls, rest, rs[0].1 + 1);
        let head = ls.subrange(from, rs[0].0);
        let tail = gaps(ls, rest, rs[0].1 + 1);
        let g = gaps(ls, rs, from);
        assert(g == head + tail);
        assert forall|k: int| 0 <= k < g.len() implies no_char(#[trigger] g[k], '\n') by {
            if k < head.len() {
                assert(g[k] == ls[from + k]);
            } else {
                assert(g[k] == tail[k - head.len()]);
            }
        }
    }
}

/// Lines of the gaps are lines of `ls`; here, ending with no '\r'.
proof fn lemma_gaps_no_cr(ls: Seq<Seq<char>>, rs: Seq<(int, int)>, from: int)
    requires
        no_trailing_cr(ls),
        0 <= from <= ls.len(),
        ranges_wf(rs, from, ls.len() as int),
    ensures
        no_trailing_cr(gaps(ls, rs, from)),
    decreases rs.len(),
{
    if rs.len() == 0 {
        let g = ls.subrange(from, ls.len() as int);
        assert forall|k: int| 0 <= k < g.len() implies strip_cr(#[trigger] g[k]) == g[k] by {
            assert(g[k] == ls[from + k]);
        }
    } else {
        let rest = rs.drop_first();
        assert(from <= rs[0].0 <= rs[0].1 < ls.len());
        assert forall|k: int| 0 <= k < rest.len() implies rs[0].1 + 1 <= #[trigger] rest[k].0
            <= rest[k].1 < ls.len() by {
            assert(rest[k] == rs[k + 1]);
        }
        assert forall|a: int, b: int| #![trigger rest[a], rest[b]] 0 <= a < b < rest.len() implies rest[a].1
            < rest[b].0 by {
            assert(rest[a] == rs[a + 1]);
            assert(rest[b] == rs[b + 1]);
        }
        lemma_gaps_no_cr(ls, rest, rs[0].1 + 1);
        let head = ls.subrange(from, rs[0].0);
        let tail = gaps(ls, rest, rs[0].1 + 1);
        let g = gaps(ls, rs, from);
        assert(g == head + tail);
        assert forall|k: int| 0 <= k < g.len() implies strip_cr(#[trigger] g[k]) == g[k] by {
            if k < head.len() {
                assert(g[k] == ls[from + k]);
            } else {
                assert(g[k] == tail[k - head.len()]);
            }
        }
    }
}

// ------------------------------------------------------------------
// Splitting and joining
// ------------------------------------------------------------------

pub proof fn lemma_split_concat(a: Seq<char>, b: Seq<char>, c: char)
    ensures
        split_char(a + seq![c] + b, c) == split_char(a, c) + split_char(b, c),
    decreases a.len(),
{
    let x = a + seq![c] + b;
    lemma_find_char(a, c);
    match find_char(a, c) {
        None => {
            lemma_split_char_step(x, c, a.len() as int);
            assert(x.take(a.len() as int) =~= a);
            assert(x.skip(a.len() as int + 1) =~= b);
            lemma_split_char_none(a, c);
        },
        Some(i) => {
            lemma_split_char_step(x, c, i);
            lemma_split_char_step(a, c, i);
            lemma_split_concat(a.skip(i + 1), b, c);
            assert(x.skip(i + 1) =~= a.skip(i + 1) + seq![c] + b);
            assert(x.take(i) =~= a.take(i));
            assert(seq![a.take(i)] + (split_char(a.skip(i + 1), c) + split_char(b, c)) =~= (seq![
                a.take(i),
            ] + split_char(a.skip(i + 1), c)) + split_char(b, c));
        },
    }
}

pub proof fn lemma_split_pieces(s: Seq<char>, c: char)
    ensures
        forall|k: int| 0 <= k < split_char(s, c).len() ==> no_char(#[trigger] split_char(s, c)[k], c),
    decreases s.len(),
{
    lemma_find_char(s, c);
    match find_char(s, c) {
        None => {},
        Some(i) => {
            lemma_split_pieces(s.skip(i + 1), c);
            let rest = split_char(s.skip(i + 1), c);
            let all = split_char(s, c);
            assert forall|k: int| 0 <= k < all.len() implies no_char(#[trigger] all[k], c) by {
                if k > 0 {
                    assert(all[k] == rest[k - 1]);
                }
            }
        },
    }
}

proof fn lemma_split_join(ls: Seq<Seq<char>>)
    requires
        ls.len() >= 1,
        no_newlines(ls),
    ensures
        split_char(join_lines(ls), '\n') == ls,
    decreases ls.len(),
{
    if ls.len() == 1 {
        assert(no_char(ls[0], '\n'));
        lemma_split_char_none(ls[0], '\n');
        assert(ls =~= seq![ls[0]]);
    } else {
        let init = ls.drop_last();
        assert forall|k: int| 0 <= k < init.len() implies no_char(#[trigger] init[k], '\n') by {
            assert(init[k] == ls[k]);
        }
        lemma_split_join(init);
        lemma_split_concat(join_lines(init), ls.last(), '\n');
        assert(no_char(ls.last(), '\n'));
        lemma_split_char_none(ls.last(), '\n');
        assert(init + seq![ls.last()] =~= ls);
    }
}

/// Reading back lines whose only trailing '\r's are in the middle part
/// strips just those.
proof fn lemma_strip_around(p: Seq<Seq<char>>, mid: Seq<Seq<char>>, s: Seq<Seq<char>>)
    requires
        no_trailing_cr(p),
        no_trailing_cr(s),
    ensures
        strip_lines(p + mid + s) == p + strip_lines(mid) + s,
{
    let x = p + mid + s;
    let y = p + strip_lines(mid) + s;
    assert forall|k: int| 0 <= k < x.len() implies strip_lines(x)[k] == y[k] by {
        if k < p.len() {
            assert(x[k] == p[k]);
        } else if k < p.len() + mid.len() {
            assert(x[k] == mid[k - p.len()]);
        } else {
            assert(x[k] == s[k - p.len() - mid.len()]);
        }
    }
    assert(strip_lines(x) =~= y);
}

proof fn lemma_join_last(ls: Seq<Seq<char>>)
    requires
        ls.len() >= 1,
        ls.last().len() > 0,
    ensures
        join_lines(ls).len() > 0,
        join_lines(ls).last() == ls.last().last(),
{
}

proof fn lemma_join_empty_last(ls: Seq<Seq<char>>)
    requires
        ls.len() >= 2,
        ls.last().len() == 0,
    ensures
        join_lines(ls) == join_lines(ls.drop_last()).push('\n'),
{
    assert(join_lines(ls) =~= join_lines(ls.drop_last()).push('\n'));
}

/// The lines of a text are free of '\n'.
proof fn lemma_lines_of_no_newlines(s: Seq<char>)
    ensures
        no_newlines(lines_of(s)),
        no_trailing_cr(lines_of(s)),
{
    lemma_split_pieces(s, '\n');
    let parts = split_char(s, '\n');
    let kept = if parts.len() > 0 && parts.last().len() == 0 {
        parts.drop_last()
    } else {
        parts
    };
    let ls = lines_of(s);
    assert forall|k: int| 0 <= k < ls.len() implies strip_cr(#[trigger] ls[k]) == ls[k] by {
        assert(ls[k] == strip_cr(kept[k]));
        lemma_strip_cr(kept[k]);
    }
    assert forall|k: int| 0 <= k < ls.len() implies no_char(#[trigger] ls[k], '\n') by {
        assert(kept[k] == parts[k]);
        assert(no_char(parts[k], '\n'));
        assert(ls[k] == strip_cr(kept[k]));
        lemma_strip_cr(kept[k]);
        assert forall|i: int| 0 <= i < ls[k].len() implies ls[k][i] != '\n' by {
            assert(ls[k][i] == kept[k][i]);
        }
    }
}

// ------------------------------------------------------------------
// Shape of an edit
// ------------------------------------------------------------------

proof fn lemma_empty_line_not_block()
    ensures
        forall|m: Seq<char>| !opens_block(seq![], m) && !closes_block(seq![], m),
{
    reveal_strlit("<!--");
    assert(trim_start(Seq::<char>::empty()) =~= Seq::<char>::empty());
    assert(strip_prefix(Seq::<char>::empty(), "<!--"@) is None);
}

/// The edited lines are the block between two runs of lines that open no
/// block and hold no '\n'.
proof fn lemma_edit_shape(
    ls: Seq<Seq<char>>,
    block: Seq<Seq<char>>,
    m: Seq<char>,
    placement: Seq<char>,
) -> (r: (Seq<Seq<char>>, Seq<Seq<char>>))
    requires
        no_newlines(ls),
        no_trailing_cr(ls),
    ensures
        edit_lines(ls, block, m, placement).0 == r.0 + block + r.1,
        no_opens(r.0, m),
        no_opens(r.1, m),
        no_newlines(r.0),
        no_newlines(r.1),
        no_trailing_cr(r.0),
        no_trailing_cr(r.1),
{
    lemma_empty_line_not_block();
    lemma_ranges_wf(ls, m, 0);
    let rs = ranges_from(ls, m, 0);
    if rs.len() > 0 {
        lemma_ranges_head(ls, m, 0);
        let s0 = rs[0].0;
        let e0 = rs[0].1;
        assert(0 <= s0 <= e0 < ls.len());
        let p = ls.take(s0);
        lemma_gaps_free(ls, m, e0 + 1);
        lemma_ranges_wf(ls, m, e0 + 1);
        lemma_gaps_no_newlines(ls, ranges_from(ls, m, e0 + 1), e0 + 1);
        lemma_gaps_no_cr(ls, ranges_from(ls, m, e0 + 1), e0 + 1);
        let s = gaps(ls, rs.drop_first(), e0 + 1);
        assert forall|k: int| 0 <= k < p.len() implies !opens_block(#[trigger] p[k], m) by {
            assert(p[k] == ls[k]);
        }
        assert forall|k: int| 0 <= k < p.len() implies no_char(#[trigger] p[k], '\n') && strip_cr(p[k])
            == p[k] by {
            assert(p[k] == ls[k]);
        }
        (p, s)
    } else {
        lemma_gaps_free(ls, m, 0);
        assert(gaps(ls, rs, 0) =~= ls);
        if placement == "after-last-gentle-ai-marker"@ && last_anchor(ls) is Some {
            let a = last_anchor(ls)->0;
            lemma_last_anchor(ls);
            let p = ls.take(a + 1) + seq![seq![]];
            let s = ls.skip(a + 1);
            assert forall|k: int| 0 <= k < p.len() implies !opens_block(#[trigger] p[k], m) && no_char(
                p[k],
                '\n',
            ) && strip_cr(p[k]) == p[k] by {
                if k < a + 1 {
                    assert(p[k] == ls[k]);
                }
            }
            assert forall|k: int| 0 <= k < s.len() implies !opens_block(#[trigger] s[k], m) && no_char(
                s[k],
                '\n',
            ) && strip_cr(s[k]) == s[k] by {
                assert(s[k] == ls[a + 1 + k]);
            }
            (p, s)
        } else {
            let p = if ls.len() > 0 && crate::text::trim(ls.last()).len() > 0 {
                ls.push(seq![])
            } else {
                ls
            };
            assert forall|k: int| 0 <= k < p.len() implies !opens_block(#[trigger] p[k], m) && no_char(
                p[k],
                '\n',
            ) && strip_cr(p[k]) == p[k] by {
                if k < ls.len() {
                    assert(p[k] == ls[k]);
                }
            }
            assert(appended_at_end(ls, block) =~= p + block + Seq::<Seq<char>>::empty());
            (p, Seq::<Seq<char>>::empty())
        }
    }
}

/// Editing lines that hold one block (`mid`, the block as read back) with
/// no other opening line around it puts `block` in its place and changes
/// nothing else.
proof fn lemma_edit_stable(
    p: Seq<Seq<char>>,
    mid: Seq<Seq<char>>,
    block: Seq<Seq<char>>,
    s: Seq<Seq<char>>,
    m: Seq<char>,
    placement: Seq<char>,
)
    requires
        no_opens(p, m),
        no_opens(s, m),
        block_shape(mid, m),
    ensures
        edit_lines(p + mid + s, block, m, placement).0 == p + block + s,
{
    let x = p + mid + s;
    let np = p.len() as int;
    let nb = mid.len() as int;
    let e = np + nb - 1;
    assert forall|k: int| 0 <= k < np implies !opens_block(#[trigger] x[k], m) by {
        assert(x[k] == p[k]);
    }
    lemma_skip_non_openers(x, m, 0, np);
    assert(x[np] == mid[0]);
    assert forall|k: int| np + 1 <= k < e implies !closes_block(#[trigger] x[k], m) by {
        assert(x[k] == mid[k - np]);
    }
    assert(x[e] == mid.last());
    lemma_first_close_at(x, m, np + 1, e);
    assert forall|k: int| e + 1 <= k < x.len() implies !opens_block(#[trigger] x[k], m) by {
        assert(x[k] == s[k - np - nb]);
    }
    lemma_skip_non_openers(x, m, e + 1, x.len() as int);
    assert(ranges_from(x, m, x.len() as int) =~= Seq::<(int, int)>::empty());
    assert(ranges_from(x, m, np) =~= seq![(np, e)]);
    let rs = ranges_from(x, m, 0);
    assert(rs =~= seq![(np, e)]);
    assert(rs.drop_first() =~= Seq::<(int, int)>::empty());
    assert(x.take(np) =~= p);
    assert(x.subrange(e + 1, x.len() as int) =~= s);
}

/// How many leading lines an edit keeps: those before the first existing
/// block; without one, those up to and including the last gentle-ai anchor
/// when the block goes after it; else every line.
pub open spec fn kept_head(lines: Seq<Seq<char>>, marker: Seq<char>, placement: Seq<char>) -> int {
    let rs = ranges_from(lines, marker, 0);
    if rs.len() > 0 {
        rs[0].0
    } else if placement == "after-last-gentle-ai-marker"@ && last_anchor(lines) is Some {
        last_anchor(lines)->0 + 1
    } else {
        lines.len() as int
    }
}

/// An edit never touches the lines before where it writes: the lines
/// before the first existing block, or (when inserting) every line up to
/// the last gentle-ai anchor, or every line when appending at the end.
pub proof fn law_markdown_keeps_head(
    lines: Seq<Seq<char>>,
    block: Seq<Seq<char>>,
    marker: Seq<char>,
    placement: Seq<char>,
)
    ensures
        0 <= kept_head(lines, marker, placement) <= lines.len(),
        edit_lines(lines, block, marker, placement).0.take(kept_head(lines, marker, placement)) == lines.take(
            kept_head(lines, marker, placement),
        ),
{
    lemma_ranges_wf(lines, marker, 0);
    lemma_last_anchor(lines);
    let h = kept_head(lines, marker, placement);
    let rs = ranges_from(lines, marker, 0);
    let e = edit_lines(lines, block, marker, placement).0;
    if rs.len() > 0 {
        assert(0 <= rs[0].0 <= rs[0].1 < lines.len());
    }
    assert forall|k: int| 0 <= k < h implies e[k] == lines[k] by {}
    assert(e.take(h) =~= lines.take(h));
}

/// Applying a block is idempotent: feeding the text one application
/// produced back into a second application (of the same block, marker and
/// placement, to the now existing target) yields the same text, so the
/// second run reports it unchanged. This holds whenever the body, as read
/// back, is one block: its first line opens it, its last line closes it,
/// no line between closes it. The block's lines may end with '\r', as in a
/// CRLF block file: the second run writes the same block again.
pub proof fn law_markdown_idempotent(
    existed: bool,
    original: Seq<char>,
    body: Seq<char>,
    marker: Seq<char>,
    placement: Seq<char>,
)
    requires
        block_shape(strip_lines(split_char(body, '\n')), marker),
    ensures
        markdown_text(true, markdown_text(existed, original, body, marker, placement), body, marker, placement)
            == markdown_text(existed, original, body, marker, placement),
{
    let ls = lines_of(original);
    let block = split_char(body, '\n');
    let mid = strip_lines(block);
    let e = edit_lines(ls, block, marker, placement).0;
    let n = markdown_text(existed, original, body, marker, placement);
    lemma_lines_of_no_newlines(original);
    lemma_split_pieces(body, '\n');
    let (p, s) = lemma_edit_shape(ls, block, marker, placement);
    assert(e == p + block + s);
    assert forall|k: int| 0 <= k < e.len() implies no_char(#[trigger] e[k], '\n') by {
        if k < p.len() {
            assert(e[k] == p[k]);
        } else if k < p.len() + block.len() {
            assert(e[k] == block[k - p.len()]);
        } else {
            assert(e[k] == s[k - p.len() - block.len()]);
        }
    }
    lemma_split_join(e);
    reveal_strlit("<!--");
    assert(block.last().len() > 0) by {
        assert(mid.last() == strip_cr(block.last()));
        assert(trim_start(mid.last()).len() <= mid.last().len()) by {
            crate::text::lemma_trim_start_suffix(mid.last());
        }
    }
    if !existed || (original.len() > 0 && original.last() == '\n') {
        // n = join(e) + "\n"
        assert(n == join_lines(e).push('\n'));
        lemma_split_concat(join_lines(e), Seq::<char>::empty(), '\n');
        assert(join_lines(e) + seq!['\n'] + Seq::<char>::empty() =~= n);
        lemma_split_char_none(Seq::<char>::empty(), '\n');
        let parts = split_char(n, '\n');
        assert(parts == e + seq![Seq::<char>::empty()]);
        assert(parts.drop_last() =~= e);
        lemma_strip_around(p, block, s);
        assert(lines_of(n) == p + mid + s);
        lemma_edit_stable(p, mid, block, s, marker, placement);
        assert(n.len() > 0 && n.last() == '\n');
    } else {
        assert(n == join_lines(e));
        if e.last().len() > 0 {
            lemma_strip_around(p, block, s);
            assert(lines_of(n) == p + mid + s);
            lemma_edit_stable(p, mid, block, s, marker, placement);
            lemma_join_last(e);
            assert(no_char(e.last(), '\n'));
            assert(e.last()[e.last().len() - 1] != '\n');
        } else {
            // the last line is empty and comes from `s`
            assert(s.len() > 0) by {
                if s.len() == 0 {
                    assert(e.last() == block.last());
                }
            }
            let s2 = s.drop_last();
            assert(e.drop_last() =~= p + block + s2);
            assert forall|k: int| 0 <= k < s2.len() implies !opens_block(#[trigger] s2[k], marker) by {
                assert(s2[k] == s[k]);
            }
            assert forall|k: int| 0 <= k < s2.len() implies strip_cr(#[trigger] s2[k]) == s2[k] by {
                assert(s2[k] == s[k]);
            }
            lemma_strip_around(p, block, s2);
            assert(lines_of(n) == p + mid + s2);
            lemma_edit_stable(p, mid, block, s2, marker, placement);
            lemma_join_empty_last(e);
            assert(n.len() > 0 && n.last() == '\n');
        }
    }
}

} // verus!
