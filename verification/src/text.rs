//! Character-level text primitives shared by every parser of the crate.
//!
//! Text is modelled as `Seq<char>` (the view of `str` and `String`); the
//! executable helpers work on `Vec<char>` buffers and windows `[lo, hi)` of
//! them, and every helper is proved against the spec function it names.
use vstd::prelude::*;

verus! {

// ------------------------------------------------------------------
// Character classes
// ------------------------------------------------------------------

/// The Unicode `White_Space` property, which `char::is_whitespace`
/// answers: TAB..CR, SPACE, NEL, NO-BREAK SPACE, OGHAM SPACE MARK,
/// U+2000..U+200A, LINE and PARAGRAPH SEPARATOR, NARROW NO-BREAK SPACE,
/// MEDIUM MATHEMATICAL SPACE and IDEOGRAPHIC SPACE.
pub open spec fn unicode_white_space(c: char) -> bool {
    let u = c as u32;
    ||| 0x09 <= u <= 0x0D
    ||| u == 0x20
    ||| u == 0x85
    ||| u == 0xA0
    ||| u == 0x1680
    ||| 0x2000 <= u <= 0x200A
    ||| u == 0x2028
    ||| u == 0x2029
    ||| u == 0x202F
    ||| u == 0x205F
    ||| u == 0x3000
}

/// What `char::is_alphanumeric` answers (Unicode `Alphabetic` or `Numeric`).
pub uninterp spec fn unicode_alphanumeric(c: char) -> bool;

/// What `char::is_alphabetic` answers (the Unicode `Alphabetic` property).
pub uninterp spec fn unicode_alphabetic(c: char) -> bool;

pub open spec fn is_ascii_char(c: char) -> bool {
    (c as u32) < 128
}

pub open spec fn ascii_letter(c: char) -> bool {
    (65 <= (c as u32) && (c as u32) <= 90) || (97 <= (c as u32) && (c as u32) <= 122)
}

pub open spec fn ascii_digit(c: char) -> bool {
    48 <= (c as u32) && (c as u32) <= 57
}

/// `char::is_whitespace`: whether `c` has the Unicode `White_Space`
/// property (see `unicode_white_space`).
pub fn is_whitespace(c: char) -> (b: bool)
    ensures
        b == unicode_white_space(c),
{
    let u = c as u32;
    (0x09 <= u && u <= 0x0D) || u == 0x20 || u == 0x85 || u == 0xA0 || u == 0x1680 || (0x2000 <= u && u
        <= 0x200A) || u == 0x2028 || u == 0x2029 || u == 0x202F || u == 0x205F || u == 0x3000
}

/// Trusted: `char::is_alphanumeric`. Claims the result is the Unicode
/// alphanumeric property of `c`, which on ASCII is exactly letters and digits.
#[verifier::external_body]
pub(crate) fn is_alphanumeric(c: char) -> (b: bool)
    ensures
        b == unicode_alphanumeric(c),
        is_ascii_char(c) ==> (b <==> (ascii_letter(c) || ascii_digit(c))),
{
    c.is_alphanumeric()
}

/// Trusted: `char::is_alphabetic`. Claims the result is the Unicode
/// `Alphabetic` property of `c`, which on ASCII is exactly the letters.
#[verifier::external_body]
pub(crate) fn is_alphabetic(c: char) -> (b: bool)
    ensures
        b == unicode_alphabetic(c),
        is_ascii_char(c) ==> (b <==> ascii_letter(c)),
{
    c.is_alphabetic()
}

/// A character with an ASCII lower-case letter made upper case.
pub open spec fn ascii_upper(c: char) -> char {
    if 97 <= (c as u32) && (c as u32) <= 122 {
        ((c as u32) - 32) as char
    } else {
        c
    }
}

/// `char::to_ascii_uppercase`: 'a'..='z' become 'A'..='Z', every other
/// character is unchanged.
pub fn to_ascii_upper(c: char) -> (r: char)
    ensures
        r == ascii_upper(c),
{
    let u = c as u32;
    if 97 <= u && u <= 122 {
        let b = (u - 32) as u8;
        b as char
    } else {
        c
    }
}

/// Trusted: `String::push`. Claims the char is appended at the end.
#[verifier::external_body]
pub(crate) fn push_char(s: &mut String, c: char)
    ensures
        final(s)@ == old(s)@.push(c),
{
    s.push(c)
}

/// What `{:?}` prints for a string: the text in double quotes, with
/// quotes, backslashes and non-printable characters escaped.
pub uninterp spec fn debug_quoted(s: Seq<char>) -> Seq<char>;

/// Printable ASCII other than the double quote and the backslash, which
/// `{:?}` prints unchanged.
pub open spec fn plain_debug_char(c: char) -> bool {
    32 <= (c as u32) && (c as u32) <= 126 && c != '"' && c != '\\'
}

/// Trusted: `format!("{:?}", s)` for a `str`. Claims the result is
/// `debug_quoted(s)`, and that text of plain characters is just quoted.
#[verifier::external_body]
pub(crate) fn debug_str(s: &str) -> (r: String)
    ensures
        r@ == debug_quoted(s@),
        (forall|i: int| 0 <= i < s@.len() ==> plain_debug_char(#[trigger] s@[i])) ==> r@ == seq!['"'] + s@
            + seq!['"'],
{
    format!("{:?}", s)
}

// ------------------------------------------------------------------
// Spec functions on Seq<char>
// ------------------------------------------------------------------

/// `str::trim_start`: drops leading white space.
pub open spec fn trim_start(s: Seq<char>) -> Seq<char>
    decreases s.len(),
{
    if s.len() > 0 && unicode_white_space(s[0]) {
        trim_start(s.drop_first())
    } else {
        s
    }
}

/// `str::trim_end`: drops trailing white space.
pub open spec fn trim_end(s: Seq<char>) -> Seq<char>
    decreases s.len(),
{
    if s.len() > 0 && unicode_white_space(s.last()) {
        trim_end(s.drop_last())
    } else {
        s
    }
}

/// `str::trim`: drops white space at both ends.
pub open spec fn trim(s: Seq<char>) -> Seq<char> {
    trim_end(trim_start(s))
}

/// `str::trim_start_matches(c)`: drops every leading `c`.
pub open spec fn trim_start_char(s: Seq<char>, c: char) -> Seq<char>
    decreases s.len(),
{
    if s.len() > 0 && s[0] == c {
        trim_start_char(s.drop_first(), c)
    } else {
        s
    }
}

/// `str::trim_end_matches(c)`: drops every trailing `c`.
pub open spec fn trim_end_char(s: Seq<char>, c: char) -> Seq<char>
    decreases s.len(),
{
    if s.len() > 0 && s.last() == c {
        trim_end_char(s.drop_last(), c)
    } else {
        s
    }
}

/// Index of the first occurrence of `c` in `s`.
pub open spec fn find_char(s: Seq<char>, c: char) -> Option<int>
    decreases s.len(),
{
    if s.len() == 0 {
        None
    } else if s[0] == c {
        Some(0)
    } else {
        match find_char(s.drop_first(), c) {
            Some(i) => Some(i + 1),
            None => None,
        }
    }
}

/// Index of the last occurrence of `c` in `s`.
pub open spec fn rfind_char(s: Seq<char>, c: char) -> Option<int>
    decreases s.len(),
{
    if s.len() == 0 {
        None
    } else if s.last() == c {
        Some(s.len() - 1)
    } else {
        rfind_char(s.drop_last(), c)
    }
}

/// `str::split(c)`: the pieces between occurrences of `c` (never empty).
pub open spec fn split_char(s: Seq<char>, c: char) -> Seq<Seq<char>>
    decreases s.len(),
{
    match find_char(s, c) {
        Some(i) => if 0 <= i < s.len() {
            seq![s.take(i)] + split_char(s.skip(i + 1), c)
        } else {
            seq![s]
        },
        None => seq![s],
    }
}

/// `s` with `p` removed from its front, when `s` starts with `p`.
pub open spec fn strip_prefix(s: Seq<char>, p: Seq<char>) -> Option<Seq<char>> {
    if p.is_prefix_of(s) {
        Some(s.skip(p.len() as int))
    } else {
        None
    }
}

/// `s` holds no `c`.
pub open spec fn no_char(s: Seq<char>, c: char) -> bool {
    forall|j: int| 0 <= j < s.len() ==> s[j] != c
}

/// The views of a sequence of character buffers.
pub open spec fn views(ls: Seq<Vec<char>>) -> Seq<Seq<char>> {
    ls.map_values(|l: Vec<char>| l@)
}

/// The views of a sequence of strings.
pub open spec fn string_views(ls: Seq<String>) -> Seq<Seq<char>> {
    ls.map_values(|l: String| l@)
}

/// Decimal digits of a natural number, most significant first.
pub open spec fn decimal(n: nat) -> Seq<char>
    decreases n,
{
    if n < 10 {
        seq![digit_char(n)]
    } else {
        decimal(n / 10).push(digit_char(n % 10))
    }
}

pub open spec fn digit_char(d: nat) -> char {
    if d == 0 { '0' }
    else if d == 1 { '1' }
    else if d == 2 { '2' }
    else if d == 3 { '3' }
    else if d == 4 { '4' }
    else if d == 5 { '5' }
    else if d == 6 { '6' }
    else if d == 7 { '7' }
    else if d == 8 { '8' }
    else { '9' }
}

// ------------------------------------------------------------------
// Lemmas
// ------------------------------------------------------------------

pub proof fn lemma_find_char(s: Seq<char>, c: char)
    ensures
        match find_char(s, c) {
            Some(i) => 0 <= i < s.len() && s[i] == c && forall|j: int| 0 <= j < i ==> s[j] != c,
            None => forall|j: int| 0 <= j < s.len() ==> s[j] != c,
        },
    decreases s.len(),
{
    if s.len() > 0 && s[0] != c {
        lemma_find_char(s.drop_first(), c);
        match find_char(s.drop_first(), c) {
            Some(i) => {
                assert forall|j: int| 0 <= j < i + 1 implies s[j] != c by {
                    if j > 0 {
                        assert(s[j] == s.drop_first()[j - 1]);
                    }
                }
            },
            None => {
                assert forall|j: int| 0 <= j < s.len() implies s[j] != c by {
                    if j > 0 {
                        assert(s[j] == s.drop_first()[j - 1]);
                    }
                }
            },
        }
    }
}

/// The first occurrence is determined by the positions before it.
pub proof fn lemma_find_char_at(s: Seq<char>, c: char, k: int)
    requires
        0 <= k <= s.len(),
        forall|j: int| 0 <= j < k ==> s[j] != c,
        k < s.len() ==> s[k] == c,
    ensures
        k < s.len() ==> find_char(s, c) == Some(k),
        k == s.len() ==> find_char(s, c) is None,
{
    lemma_find_char(s, c);
    match find_char(s, c) {
        Some(i) => {
            if i < k {
                assert(s[i] != c);
            }
            if k < i {
                assert(s[k] != c);
            }
        },
        None => {
            if k < s.len() {
                assert(s[k] != c);
            }
        },
    }
}

pub proof fn lemma_rfind_char(s: Seq<char>, c: char)
    ensures
        match rfind_char(s, c) {
            Some(i) => 0 <= i < s.len() && s[i] == c && forall|j: int| i < j < s.len() ==> s[j] != c,
            None => forall|j: int| 0 <= j < s.len() ==> s[j] != c,
        },
    decreases s.len(),
{
    if s.len() > 0 && s.last() != c {
        lemma_rfind_char(s.drop_last(), c);
        match rfind_char(s.drop_last(), c) {
            Some(i) => {
                assert forall|j: int| i < j < s.len() implies s[j] != c by {
                    if j < s.len() - 1 {
                        assert(s[j] == s.drop_last()[j]);
                    }
                }
            },
            None => {
                assert forall|j: int| 0 <= j < s.len() implies s[j] != c by {
                    if j < s.len() - 1 {
                        assert(s[j] == s.drop_last()[j]);
                    }
                }
            },
        }
    }
}

pub proof fn lemma_rfind_char_at(s: Seq<char>, c: char, k: int)
    requires
        -1 <= k < s.len(),
        forall|j: int| k < j < s.len() ==> s[j] != c,
        k >= 0 ==> s[k] == c,
    ensures
        k >= 0 ==> rfind_char(s, c) == Some(k),
        k == -1 ==> rfind_char(s, c) is None,
{
    lemma_rfind_char(s, c);
    match rfind_char(s, c) {
        Some(i) => {
            if i < k {
                assert(s[k] != c);
            }
            if k < i {
                assert(s[i] != c);
            }
        },
        None => {
            if k >= 0 {
                assert(s[k] != c);
            }
        },
    }
}

/// Splitting at a known first separator.
pub proof fn lemma_split_char_step(s: Seq<char>, c: char, k: int)
    requires
        0 <= k < s.len(),
        s[k] == c,
        forall|j: int| 0 <= j < k ==> s[j] != c,
    ensures
        split_char(s, c) == seq![s.take(k)] + split_char(s.skip(k + 1), c),
{
    lemma_find_char_at(s, c, k);
}

/// Splitting text that holds no separator.
pub proof fn lemma_split_char_none(s: Seq<char>, c: char)
    requires
        forall|j: int| 0 <= j < s.len() ==> s[j] != c,
    ensures
        split_char(s, c) == seq![s],
{
    lemma_find_char_at(s, c, s.len() as int);
}

pub proof fn lemma_trim_start_suffix(s: Seq<char>)
    ensures
        trim_start(s).len() <= s.len(),
        trim_start(s) == s.skip(s.len() - trim_start(s).len()),
        trim_start(s).len() > 0 ==> !unicode_white_space(trim_start(s)[0]),
    decreases s.len(),
{
    if s.len() > 0 && unicode_white_space(s[0]) {
        lemma_trim_start_suffix(s.drop_first());
        assert(s.drop_first().skip(s.drop_first().len() - trim_start(s).len()) =~= s.skip(
            s.len() - trim_start(s).len(),
        ));
    } else {
        assert(s.skip(0) =~= s);
    }
}

// ------------------------------------------------------------------
// Executable helpers
// ------------------------------------------------------------------

/// The characters of `s`, in order.
pub fn to_chars(s: &str) -> (v: Vec<char>)
    ensures
        v@ == s@,
{
    let mut v: Vec<char> = Vec::new();
    for c in it: s.chars()
        invariant
            v@ == it.seq().take(it.index() as int),
    {
        v.push(c);
    }
    v
}

/// A `String` holding the characters `v[lo..hi]`.
pub fn string_of(v: &Vec<char>, lo: usize, hi: usize) -> (s: String)
    requires
        lo <= hi <= v@.len(),
    ensures
        s@ == v@.subrange(lo as int, hi as int),
{
    let mut s = String::new();
    let mut i = lo;
    while i < hi
        invariant
            lo <= i <= hi <= v@.len(),
            s@ == v@.subrange(lo as int, i as int),
        decreases hi - i,
    {
        push_char(&mut s, v[i]);
        assert(v@.subrange(lo as int, i + 1) =~= v@.subrange(lo as int, i as int).push(v@[i as int]));
        i = i + 1;
    }
    s
}

/// A copy of `v[lo..hi]`.
pub fn copy_range(v: &Vec<char>, lo: usize, hi: usize) -> (r: Vec<char>)
    requires
        lo <= hi <= v@.len(),
    ensures
        r@ == v@.subrange(lo as int, hi as int),
{
    let mut r: Vec<char> = Vec::new();
    let mut i = lo;
    while i < hi
        invariant
            lo <= i <= hi <= v@.len(),
            r@ == v@.subrange(lo as int, i as int),
        decreases hi - i,
    {
        r.push(v[i]);
        assert(v@.subrange(lo as int, i + 1) =~= v@.subrange(lo as int, i as int).push(v@[i as int]));
        i = i + 1;
    }
    r
}

/// A copy of the whole buffer.
pub fn copy_chars(v: &Vec<char>) -> (r: Vec<char>)
    ensures
        r@ == v@,
{
    let r = copy_range(v, 0, v.len());
    assert(v@.subrange(0, v@.len() as int) =~= v@);
    r
}

/// Appends `w` to `v`.
pub fn append_chars(v: &mut Vec<char>, w: &Vec<char>)
    ensures
        final(v)@ == old(v)@ + w@,
{
    let mut i: usize = 0;
    while i < w.len()
        invariant
            i <= w@.len(),
            v@ == old(v)@ + w@.take(i as int),
        decreases w@.len() - i,
    {
        v.push(w[i]);
        assert(w@.take(i + 1) =~= w@.take(i as int).push(w@[i as int]));
        i = i + 1;
    }
    assert(w@.take(w@.len() as int) =~= w@);
}

/// Whether the text is empty or only white space.
pub fn is_blank(s: &str) -> (r: bool)
    ensures
        r == (trim(s@).len() == 0),
{
    let v = to_chars(s);
    let (a, b) = trim_at(&v, 0, v.len());
    assert(v@.subrange(0, v@.len() as int) =~= v@);
    a == b
}

/// Whether `a` reads `lit`.
pub fn str_is(a: &str, lit: &str) -> (r: bool)
    ensures
        r == (a@ == lit@),
{
    chars_eq(&to_chars(a), &to_chars(lit))
}

/// Whether two character windows are equal.
pub fn window_eq(a: &Vec<char>, alo: usize, ahi: usize, b: &Vec<char>) -> (r: bool)
    requires
        alo <= ahi <= a@.len(),
    ensures
        r == (a@.subrange(alo as int, ahi as int) == b@),
{
    if ahi - alo != b.len() {
        return false;
    }
    let mut i: usize = 0;
    while i < b.len()
        invariant
            alo <= ahi <= a@.len(),
            ahi - alo == b@.len(),
            i <= b@.len(),
            forall|j: int| 0 <= j < i ==> a@[alo + j] == b@[j],
        decreases b@.len() - i,
    {
        if a[alo + i] != b[i] {
            assert(a@.subrange(alo as int, ahi as int)[i as int] != b@[i as int]);
            return false;
        }
        i = i + 1;
    }
    assert(a@.subrange(alo as int, ahi as int) =~= b@);
    true
}

/// Whether `a` and `b` hold the same characters.
pub fn chars_eq(a: &Vec<char>, b: &Vec<char>) -> (r: bool)
    ensures
        r == (a@ == b@),
{
    let r = window_eq(a, 0, a.len(), b);
    assert(a@.subrange(0, a@.len() as int) =~= a@);
    r
}

/// Whether `p` is a prefix of the window `v[lo..hi]`.
pub fn has_prefix(v: &Vec<char>, lo: usize, hi: usize, p: &Vec<char>) -> (r: bool)
    requires
        lo <= hi <= v@.len(),
    ensures
        r == p@.is_prefix_of(v@.subrange(lo as int, hi as int)),
{
    if hi - lo < p.len() {
        return false;
    }
    let r = window_eq(v, lo, lo + p.len(), p);
    assert(v@.subrange(lo as int, (lo + p.len()) as int) =~= v@.subrange(lo as int, hi as int).subrange(
        0,
        p@.len() as int,
    ));
    r
}

/// Whether `p` is a suffix of the window `v[lo..hi]`.
pub fn has_suffix(v: &Vec<char>, lo: usize, hi: usize, p: &Vec<char>) -> (r: bool)
    requires
        lo <= hi <= v@.len(),
    ensures
        r == p@.is_suffix_of(v@.subrange(lo as int, hi as int)),
{
    if hi - lo < p.len() {
        return false;
    }
    let r = window_eq(v, hi - p.len(), hi, p);
    assert(v@.subrange((hi - p.len()) as int, hi as int) =~= v@.subrange(lo as int, hi as int).subrange(
        (hi - lo - p.len()) as int,
        (hi - lo) as int,
    ));
    r
}

/// Start of `trim_start(v[lo..hi])`.
pub fn trim_start_at(v: &Vec<char>, lo: usize, hi: usize) -> (r: usize)
    requires
        lo <= hi <= v@.len(),
    ensures
        lo <= r <= hi,
        trim_start(v@.subrange(lo as int, hi as int)) == v@.subrange(r as int, hi as int),
{
    let mut i = lo;
    while i < hi && is_whitespace(v[i])
        invariant
            lo <= i <= hi <= v@.len(),
            trim_start(v@.subrange(lo as int, hi as int)) == trim_start(v@.subrange(i as int, hi as int)),
        decreases hi - i,
    {
        assert(v@.subrange(i as int, hi as int).drop_first() =~= v@.subrange(i + 1, hi as int));
        i = i + 1;
    }
    i
}

/// End of `trim_end(v[lo..hi])`.
pub fn trim_end_at(v: &Vec<char>, lo: usize, hi: usize) -> (r: usize)
    requires
        lo <= hi <= v@.len(),
    ensures
        lo <= r <= hi,
        trim_end(v@.subrange(lo as int, hi as int)) == v@.subrange(lo as int, r as int),
{
    let mut j = hi;
    while j > lo && is_whitespace(v[j - 1])
        invariant
            lo <= j <= hi <= v@.len(),
            trim_end(v@.subrange(lo as int, hi as int)) == trim_end(v@.subrange(lo as int, j as int)),
        decreases j - lo,
    {
        assert(v@.subrange(lo as int, j as int).drop_last() =~= v@.subrange(lo as int, j - 1));
        j = j - 1;
    }
    j
}

/// Bounds of `trim(v[lo..hi])`.
pub fn trim_at(v: &Vec<char>, lo: usize, hi: usize) -> (r: (usize, usize))
    requires
        lo <= hi <= v@.len(),
    ensures
        lo <= r.0 <= r.1 <= hi,
        trim(v@.subrange(lo as int, hi as int)) == v@.subrange(r.0 as int, r.1 as int),
{
    let a = trim_start_at(v, lo, hi);
    let b = trim_end_at(v, a, hi);
    (a, b)
}

/// Start of `trim_start_matches(c)` applied to `v[lo..hi]`.
pub fn trim_start_char_at(v: &Vec<char>, lo: usize, hi: usize, c: char) -> (r: usize)
    requires
        lo <= hi <= v@.len(),
    ensures
        lo <= r <= hi,
        trim_start_char(v@.subrange(lo as int, hi as int), c) == v@.subrange(r as int, hi as int),
{
    let mut i = lo;
    while i < hi && v[i] == c
        invariant
            lo <= i <= hi <= v@.len(),
            trim_start_char(v@.subrange(lo as int, hi as int), c) == trim_start_char(
                v@.subrange(i as int, hi as int),
                c,
            ),
        decreases hi - i,
    {
        assert(v@.subrange(i as int, hi as int).drop_first() =~= v@.subrange(i + 1, hi as int));
        i = i + 1;
    }
    i
}

/// End of `trim_end_matches(c)` applied to `v[lo..hi]`.
pub fn trim_end_char_at(v: &Vec<char>, lo: usize, hi: usize, c: char) -> (r: usize)
    requires
        lo <= hi <= v@.len(),
    ensures
        lo <= r <= hi,
        trim_end_char(v@.subrange(lo as int, hi as int), c) == v@.subrange(lo as int, r as int),
{
    let mut j = hi;
    while j > lo && v[j - 1] == c
        invariant
            lo <= j <= hi <= v@.len(),
            trim_end_char(v@.subrange(lo as int, hi as int), c) == trim_end_char(
                v@.subrange(lo as int, j as int),
                c,
            ),
        decreases j - lo,
    {
        assert(v@.subrange(lo as int, j as int).drop_last() =~= v@.subrange(lo as int, j - 1));
        j = j - 1;
    }
    j
}

/// Position of the first `c` in `v[lo..hi]`, relative to `v`.
pub fn find_char_at(v: &Vec<char>, lo: usize, hi: usize, c: char) -> (r: Option<usize>)
    requires
        lo <= hi <= v@.len(),
    ensures
        match r {
            Some(i) => lo <= i < hi && find_char(v@.subrange(lo as int, hi as int), c) == Some(i - lo),
            None => find_char(v@.subrange(lo as int, hi as int), c) is None,
        },
{
    let mut i = lo;
    while i < hi
        invariant
            lo <= i <= hi <= v@.len(),
            forall|j: int| lo <= j < i ==> v@[j] != c,
        decreases hi - i,
    {
        if v[i] == c {
            proof {
                lemma_find_char_at(v@.subrange(lo as int, hi as int), c, i - lo);
            }
            return Some(i);
        }
        i = i + 1;
    }
    proof {
        lemma_find_char_at(v@.subrange(lo as int, hi as int), c, hi - lo);
    }
    None
}

/// Position of the last `c` in `v[lo..hi]`, relative to `v`.
pub fn rfind_char_at(v: &Vec<char>, lo: usize, hi: usize, c: char) -> (r: Option<usize>)
    requires
        lo <= hi <= v@.len(),
    ensures
        match r {
            Some(i) => lo <= i < hi && rfind_char(v@.subrange(lo as int, hi as int), c) == Some(i - lo),
            None => rfind_char(v@.subrange(lo as int, hi as int), c) is None,
        },
{
    let mut j = hi;
    while j > lo
        invariant
            lo <= j <= hi <= v@.len(),
            forall|k: int| j <= k < hi ==> v@[k] != c,
        decreases j - lo,
    {
        if v[j - 1] == c {
            proof {
                lemma_rfind_char_at(v@.subrange(lo as int, hi as int), c, j - 1 - lo);
            }
            return Some(j - 1);
        }
        j = j - 1;
    }
    proof {
        lemma_rfind_char_at(v@.subrange(lo as int, hi as int), c, -1);
    }
    None
}

/// The pieces of `v` between occurrences of `c`, as `str::split` gives them.
pub fn split_chars(v: &Vec<char>, c: char) -> (r: Vec<Vec<char>>)
    ensures
        views(r@) == split_char(v@, c),
{
    let n = v.len();
    let mut pieces: Vec<Vec<char>> = Vec::new();
    let mut start: usize = 0;
    let mut i: usize = 0;
    assert(v@.subrange(0, n as int) =~= v@);
    while i < n
        invariant
            n == v@.len(),
            start <= i <= n,
            forall|j: int| start <= j < i ==> v@[j] != c,
            views(pieces@) + split_char(v@.subrange(start as int, n as int), c) == split_char(v@, c),
        decreases n - i,
    {
        if v[i] == c {
            let piece = copy_range(v, start, i);
            proof {
                let t = v@.subrange(start as int, n as int);
                lemma_split_char_step(t, c, i - start);
                assert(t.take(i - start) =~= piece@);
                assert(t.skip(i - start + 1) =~= v@.subrange(i + 1, n as int));
                assert(views(pieces@.push(piece)) =~= views(pieces@).push(piece@));
                assert(views(pieces@).push(piece@) + split_char(v@.subrange(i + 1, n as int), c)
                    =~= views(pieces@) + (seq![piece@] + split_char(v@.subrange(i + 1, n as int), c)));
            }
            pieces.push(piece);
            start = i + 1;
        }
        i = i + 1;
    }
    let piece = copy_range(v, start, n);
    proof {
        lemma_split_char_none(v@.subrange(start as int, n as int), c);
        assert(views(pieces@.push(piece)) =~= views(pieces@).push(piece@));
        assert(views(pieces@) + seq![piece@] =~= views(pieces@).push(piece@));
    }
    pieces.push(piece);
    pieces
}

/// `n` written in decimal.
pub fn u64_to_decimal(n: u64) -> (s: String)
    ensures
        s@ == decimal(n as nat),
    decreases n,
{
    let d = n % 10;
    let c = if d == 0 { '0' }
        else if d == 1 { '1' }
        else if d == 2 { '2' }
        else if d == 3 { '3' }
        else if d == 4 { '4' }
        else if d == 5 { '5' }
        else if d == 6 { '6' }
        else if d == 7 { '7' }
        else if d == 8 { '8' }
        else { '9' };
    if n < 10 {
        let mut s = String::new();
        push_char(&mut s, c);
        assert(s@ =~= seq![digit_char(n as nat)]);
        s
    } else {
        let mut s = u64_to_decimal(n / 10);
        push_char(&mut s, c);
        s
    }
}

/// `n` written in decimal.
pub fn usize_to_decimal(n: usize) -> (s: String)
    ensures
        s@ == decimal(n as nat),
{
    u64_to_decimal(n as u64)
}

} // verus!
