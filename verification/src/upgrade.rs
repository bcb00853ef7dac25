//! Self-update decisions: which release asset runs on a platform, which
//! tag the latest release has, how versions compare, and what to do.
use vstd::prelude::*;
use crate::text::{
    decimal, digit_char, lemma_split_char_none, lemma_split_char_step, str_is, ascii_digit, chars_eq, debug_quoted, debug_str, find_char, find_char_at, rfind_char,
    rfind_char_at, split_char, split_chars, string_of, to_chars, trim, trim_at, trim_end_char,
    trim_end_char_at, views,
};

verus! {

// ------------------------------------------------------------------
// Release assets
// ------------------------------------------------------------------

/// The release asset that runs on an OS/architecture pair, for the four
/// platforms the release workflow builds.
pub open spec fn asset_for(os: Seq<char>, arch: Seq<char>) -> Option<Seq<char>> {
    if os == "macos"@ && arch == "x86_64"@ {
        Some("agent-rules-darwin-amd64"@)
    } else if os == "macos"@ && arch == "aarch64"@ {
        Some("agent-rules-darwin-arm64"@)
    } else if os == "linux"@ && arch == "x86_64"@ {
        Some("agent-rules-linux-amd64"@)
    } else if os == "windows"@ && arch == "x86_64"@ {
        Some("agent-rules-windows-amd64.exe"@)
    } else {
        None
    }
}

pub open spec fn no_asset_message(os: Seq<char>, arch: Seq<char>) -> Seq<char> {
    "no prebuilt binary for "@ + os + "-"@ + arch
        + " (supported: macos-x86_64, macos-aarch64, linux-x86_64, windows-x86_64)"@
}

/// Maps this host's OS/arch to the release asset that runs on it; any
/// other platform is an error naming it.
pub fn asset_name(os: &str, arch: &str) -> (r: Result<&'static str, String>)
    ensures
        match asset_for(os@, arch@) {
            Some(a) => r matches Ok(s) && s@ == a,
            None => r matches Err(e) && e@ == no_asset_message(os@, arch@),
        },
{
    if str_is(os, "macos") && str_is(arch, "x86_64") {
        Ok("agent-rules-darwin-amd64")
    } else if str_is(os, "macos") && str_is(arch, "aarch64") {
        Ok("agent-rules-darwin-arm64")
    } else if str_is(os, "linux") && str_is(arch, "x86_64") {
        Ok("agent-rules-linux-amd64")
    } else if str_is(os, "windows") && str_is(arch, "x86_64") {
        Ok("agent-rules-windows-amd64.exe")
    } else {
        Err(String::from_str("no prebuilt binary for ").concat(os).concat("-").concat(arch).concat(
            " (supported: macos-x86_64, macos-aarch64, linux-x86_64, windows-x86_64)",
        ))
    }
}

// ------------------------------------------------------------------
// The latest release's tag
// ------------------------------------------------------------------

/// The character's code with ASCII upper-case letters lowered.
pub open spec fn lower_code(c: char) -> u32 {
    if 65 <= (c as u32) && (c as u32) <= 90 {
        ((c as u32) + 32) as u32
    } else {
        c as u32
    }
}

/// Equality ignoring ASCII case.
pub open spec fn eq_ignore_ascii_case(a: Seq<char>, b: Seq<char>) -> bool {
    a.len() == b.len() && forall|i: int| 0 <= i < a.len() ==> lower_code(a[i]) == lower_code(#[trigger] b[i])
}

/// The text after the last '/' (all of it when there is none).
pub open spec fn after_last_slash(s: Seq<char>) -> Seq<char> {
    match rfind_char(s, '/') {
        Some(i) => s.skip(i + 1),
        None => s,
    }
}

/// The value of a `location:` header line (name compared ignoring ASCII
/// case, trailing '\r' removed), trimmed.
pub open spec fn location_value(raw_line: Seq<char>) -> Option<Seq<char>> {
    let line = trim_end_char(raw_line, '\r');
    match find_char(line, ':') {
        Some(c) => if eq_ignore_ascii_case(trim(line.take(c)), "location"@) {
            Some(trim(line.skip(c + 1)))
        } else {
            None
        },
        None => None,
    }
}

/// The value of the first `location:` header among `lines`.
pub open spec fn first_location(lines: Seq<Seq<char>>) -> Option<Seq<char>>
    decreases lines.len(),
{
    if lines.len() == 0 {
        None
    } else if location_value(lines[0]) is Some {
        location_value(lines[0])
    } else {
        first_location(lines.drop_first())
    }
}

/// Why no tag could be taken from the headers.
pub enum TagError {
    NoLocation,
    EmptyLocation,
}

/// The release tag: the last path segment of the first `location:`
/// header's value, trimmed.
pub open spec fn tag_from_headers(headers: Seq<char>) -> Result<Seq<char>, TagError> {
    match first_location(split_char(headers, '\n')) {
        Some(v) => {
            let tag = trim(after_last_slash(v));
            if tag.len() == 0 {
                Err(TagError::EmptyLocation)
            } else {
                Ok(tag)
            }
        },
        None => Err(TagError::NoLocation),
    }
}

pub open spec fn tag_error_message(e: TagError) -> Seq<char> {
    match e {
        TagError::NoLocation => "no 'location' header in response (releases/latest did not redirect as expected)"@,
        TagError::EmptyLocation => "empty 'location' header"@,
    }
}

/// Equality ignoring ASCII case of a window and a text.
fn window_eq_ignore_ascii_case(v: &Vec<char>, lo: usize, hi: usize, w: &Vec<char>) -> (r: bool)
    requires
        lo <= hi <= v@.len(),
    ensures
        r == eq_ignore_ascii_case(v@.subrange(lo as int, hi as int), w@),
{
    if hi - lo != w.len() {
        return false;
    }
    let ghost s = v@.subrange(lo as int, hi as int);
    let mut i: usize = 0;
    while i < w.len()
        invariant
            lo <= hi <= v@.len(),
            s == v@.subrange(lo as int, hi as int),
            hi - lo == w@.len(),
            i <= w@.len(),
            forall|j: int| 0 <= j < i ==> lower_code(s[j]) == lower_code(#[trigger] w@[j]),
        decreases w@.len() - i,
    {
        let a = v[lo + i] as u32;
        let b = w[i] as u32;
        let la = if 65 <= a && a <= 90 {
            a + 32
        } else {
            a
        };
        let lb = if 65 <= b && b <= 90 {
            b + 32
        } else {
            b
        };
        assert(s[i as int] == v@[lo + i]);
        if la != lb {
            return false;
        }
        i = i + 1;
    }
    true
}

/// The header line's `location` value (see `location_value`).
fn location_of(raw: &Vec<char>) -> (r: Option<(usize, usize)>)
    ensures
        match r {
            Some((a, b)) => a <= b <= raw@.len() && location_value(raw@) == Some(raw@.subrange(a as int, b as int)),
            None => location_value(raw@) is None,
        },
{
    let n = raw.len();
    assert(raw@.subrange(0, n as int) =~= raw@);
    let e = trim_end_char_at(raw, 0, n, '\r');
    match find_char_at(raw, 0, e, ':') {
        Some(c) => {
            let (na, nb) = trim_at(raw, 0, c);
            let location = to_chars("location");
            let ghost line = raw@.subrange(0, e as int);
            assert(line.take(c as int) =~= raw@.subrange(0, c as int));
            assert(line.skip(c + 1) =~= raw@.subrange(c + 1, e as int));
            if window_eq_ignore_ascii_case(raw, na, nb, &location) {
                let (va, vb) = trim_at(raw, c + 1, e);
                Some((va, vb))
            } else {
                None
            }
        },
        None => None,
    }
}

/// Extracts the release tag from a raw HTTP response header block: the
/// last path segment of the first `location:` header (matched
/// case-insensitively, lines split on '\n' with trailing '\r' removed).
pub fn extract_tag_from_headers(headers: &str) -> (r: Result<String, String>)
    ensures
        match tag_from_headers(headers@) {
            Ok(t) => r matches Ok(s) && s@ == t,
            Err(e) => r matches Err(m) && m@ == tag_error_message(e),
        },
{
    let hv = to_chars(headers);
    let lines = split_chars(&hv, '\n');
    let ghost ls = views(lines@);
    let mut k: usize = 0;
    assert(ls.skip(0) =~= ls);
    while k < lines.len()
        invariant
            k <= lines@.len(),
            ls == views(lines@),
            ls == split_char(hv@, '\n'),
            hv@ == headers@,
            first_location(ls) == first_location(ls.skip(k as int)),
        decreases lines@.len() - k,
    {
        let line = &lines[k];
        assert(ls.skip(k as int)[0] == line@);
        assert(ls.skip(k as int).drop_first() =~= ls.skip(k + 1));
        match location_of(line) {
            Some((a, b)) => {
                let ghost v = line@.subrange(a as int, b as int);
                assert(first_location(ls.skip(k as int)) == Some(v));
                let cut = match rfind_char_at(line, a, b, '/') {
                    Some(i) => {
                        assert(v.skip(i - a + 1) =~= line@.subrange(i + 1, b as int));
                        i + 1
                    },
                    None => a,
                };
                assert(after_last_slash(v) == line@.subrange(cut as int, b as int));
                let (ta, tb) = trim_at(line, cut, b);
                if ta == tb {
                    return Err(String::from_str("empty 'location' header"));
                }
                return Ok(string_of(line, ta, tb));
            },
            None => {},
        }
        k = k + 1;
    }
    assert(ls.skip(k as int).len() == 0);
    Err(String::from_str("no 'location' header in response (releases/latest did not redirect as expected)"))
}

// ------------------------------------------------------------------
// Versions
// ------------------------------------------------------------------

/// The value of a string of ASCII digits.
pub open spec fn digits_value(s: Seq<char>) -> nat
    decreases s.len(),
{
    if s.len() == 0 {
        0
    } else {
        digits_value(s.drop_last()) * 10 + ((s.last() as u32) - 48) as nat
    }
}

/// The text after an optional leading '+'.
pub open spec fn without_plus(s: Seq<char>) -> Seq<char> {
    if s.len() > 0 && s[0] == '+' {
        s.drop_first()
    } else {
        s
    }
}

/// What `str::parse::<u64>` accepts: an optional '+', then one or more
/// ASCII digits whose value fits in 64 bits.
pub open spec fn u64_text_value(s: Seq<char>) -> Option<u64> {
    let d = without_plus(s);
    if d.len() > 0 && (forall|i: int| 0 <= i < d.len() ==> ascii_digit(#[trigger] d[i])) && digits_value(d)
        <= u64::MAX {
        Some(digits_value(d) as u64)
    } else {
        None
    }
}

/// What `str::parse::<u64>` gives (see `u64_text_value`).
fn parse_u64(s: &str) -> (r: Option<u64>)
    ensures
        r == u64_text_value(s@),
{
    let cs = to_chars(s);
    let start: usize = if cs.len() > 0 && cs[0] == '+' {
        1
    } else {
        0
    };
    let ghost d = without_plus(s@);
    proof {
        assert(d =~= cs@.skip(start as int));
    }
    if start == cs.len() {
        return None;
    }
    let mut value: u64 = 0;
    let mut i: usize = start;
    while i < cs.len()
        invariant
            start <= i <= cs@.len(),
            start < cs@.len(),
            cs@ == s@,
            d == without_plus(s@),
            d == cs@.skip(start as int),
            forall|k: int| start <= k < i ==> ascii_digit(#[trigger] cs@[k]),
            value == digits_value(cs@.subrange(start as int, i as int)),
        decreases cs@.len() - i,
    {
        let c = cs[i];
        let cu = c as u32;
        if !(48 <= cu && cu <= 57) {
            proof {
                let k = i - start;
                assert(d[k] == cs@[i as int]);
                assert(cs@[i as int] == c);
                assert(!ascii_digit(d[k]));
                lemma_u64_text_non_digit(s@, k);
            }
            return None;
        }
        let digit = (cu - 48) as u64;
        proof {
            assert(cs@.subrange(start as int, i + 1).drop_last() =~= cs@.subrange(start as int, i as int));
            assert(digits_value(cs@.subrange(start as int, i + 1)) == value * 10 + digit);
        }
        let times = value.checked_mul(10);
        match times {
            Some(t) => match t.checked_add(digit) {
                Some(v) => {
                    value = v;
                },
                None => {
                    proof {
                        lemma_digits_value_grows(d, i + 1 - start);
                        assert(d.take(i + 1 - start) =~= cs@.subrange(start as int, i + 1));
                    }
                    return None;
                },
            },
            None => {
                proof {
                    lemma_digits_value_grows(d, i + 1 - start);
                    assert(d.take(i + 1 - start) =~= cs@.subrange(start as int, i + 1));
                }
                return None;
            },
        }
        i = i + 1;
    }
    proof {
        assert(cs@.subrange(start as int, cs@.len() as int) =~= d);
    }
    Some(value)
}

/// Text with a character that is no digit (after an optional '+') is no
/// `u64`.
proof fn lemma_u64_text_non_digit(s: Seq<char>, k: int)
    requires
        0 <= k < without_plus(s).len(),
        !ascii_digit(without_plus(s)[k]),
    ensures
        u64_text_value(s) is None,
{
}

/// A longer run of digits is worth at least as much as a prefix of it.
proof fn lemma_digits_value_grows(d: Seq<char>, n: int)
    requires
        0 <= n <= d.len(),
    ensures
        digits_value(d.take(n)) <= digits_value(d),
    decreases d.len() - n,
{
    if n < d.len() {
        lemma_digits_value_grows(d, n + 1);
        assert(d.take(n + 1).drop_last() =~= d.take(n));
        assert(digits_value(d.take(n)) <= digits_value(d.take(n)) * 10);
    } else {
        assert(d.take(n) =~= d);
    }
}

/// Index of the first '-' or '+' (the length when there is none).
pub open spec fn suffix_start(s: Seq<char>) -> int
    decreases s.len(),
{
    if s.len() == 0 {
        0
    } else if s[0] == '-' || s[0] == '+' {
        0
    } else {
        1 + suffix_start(s.drop_first())
    }
}

/// The numeric core of a version: without a leading 'v', and cut at the
/// first '-' or '+' (a SemVer prerelease or build suffix).
pub open spec fn version_core(raw: Seq<char>) -> Seq<char> {
    let s = if raw.len() > 0 && raw[0] == 'v' {
        raw.drop_first()
    } else {
        raw
    };
    s.take(suffix_start(s))
}

/// `(major, minor, patch)` of a version: exactly three '.'-separated
/// numbers in its core.
pub open spec fn version_of(raw: Seq<char>) -> Option<(u64, u64, u64)> {
    let parts = split_char(version_core(raw), '.');
    if parts.len() == 3 && u64_text_value(parts[0]) is Some && u64_text_value(parts[1]) is Some
        && u64_text_value(parts[2]) is Some {
        Some((u64_text_value(parts[0])->0, u64_text_value(parts[1])->0, u64_text_value(parts[2])->0))
    } else {
        None
    }
}

pub open spec fn bad_version_message(raw: Seq<char>) -> Seq<char> {
    "not a valid version: "@ + debug_quoted(raw)
}

/// Lexicographic order of version triples, component by component.
pub open spec fn version_lt(a: (u64, u64, u64), b: (u64, u64, u64)) -> bool {
    a.0 < b.0 || (a.0 == b.0 && (a.1 < b.1 || (a.1 == b.1 && a.2 < b.2)))
}

proof fn lemma_suffix_start(s: Seq<char>)
    ensures
        0 <= suffix_start(s) <= s.len(),
        suffix_start(s) < s.len() ==> (s[suffix_start(s)] == '-' || s[suffix_start(s)] == '+'),
        forall|j: int| 0 <= j < suffix_start(s) ==> s[j] != '-' && s[j] != '+',
    decreases s.len(),
{
    if s.len() > 0 && s[0] != '-' && s[0] != '+' {
        lemma_suffix_start(s.drop_first());
        assert forall|j: int| 0 <= j < suffix_start(s) implies s[j] != '-' && s[j] != '+' by {
            if j > 0 {
                assert(s[j] == s.drop_first()[j - 1]);
            }
        }
    }
}

proof fn lemma_suffix_start_at(s: Seq<char>, k: int)
    requires
        0 <= k <= s.len(),
        forall|j: int| 0 <= j < k ==> s[j] != '-' && s[j] != '+',
        k < s.len() ==> (s[k] == '-' || s[k] == '+'),
    ensures
        suffix_start(s) == k,
{
    lemma_suffix_start(s);
    if suffix_start(s) < k {
        assert(s[suffix_start(s)] != '-' && s[suffix_start(s)] != '+');
    }
    if k < suffix_start(s) {
        assert(s[k] != '-' && s[k] != '+');
    }
}

/// The decimal text of a number is a run of ASCII digits worth it.
proof fn lemma_decimal_digits(n: nat)
    ensures
        decimal(n).len() > 0,
        forall|i: int| 0 <= i < decimal(n).len() ==> ascii_digit(#[trigger] decimal(n)[i]),
        digits_value(decimal(n)) == n,
    decreases n,
{
    let r = n % 10;
    assert(0 <= r < 10);
    assert(((digit_char(r) as u32) - 48) as nat == r);
    assert(ascii_digit(digit_char(r)));
    if n < 10 {
        assert(r == n);
        let x = seq![digit_char(n)];
        assert(x.drop_last() =~= Seq::<char>::empty());
        assert(digits_value(x) == digits_value(x.drop_last()) * 10 + ((x.last() as u32) - 48) as nat);
    } else {
        lemma_decimal_digits(n / 10);
        let d = decimal(n / 10);
        let x = decimal(n);
        assert(x == d.push(digit_char(r)));
        assert(x.drop_last() =~= d);
        assert(x.last() == digit_char(r));
        assert(digits_value(x) == digits_value(d) * 10 + r);
        assert forall|i: int| 0 <= i < x.len() implies ascii_digit(#[trigger] x[i]) by {
            if i < d.len() {
                assert(x[i] == d[i]);
            }
        }
        assert(n == (n / 10) * 10 + n % 10) by (nonlinear_arith);
    }
}

/// The decimal text of a `u64` reads back as that number.
proof fn lemma_decimal_u64(n: u64)
    ensures
        u64_text_value(decimal(n as nat)) == Some(n),
        forall|i: int| 0 <= i < decimal(n as nat).len() ==> ascii_digit(#[trigger] decimal(n as nat)[i]),
        decimal(n as nat).len() > 0,
{
    lemma_decimal_digits(n as nat);
    assert(ascii_digit(decimal(n as nat)[0]));
}

/// Splitting `a.b.c` at '.' when no part holds one.
proof fn lemma_split_three(da: Seq<char>, db: Seq<char>, dc: Seq<char>)
    requires
        forall|j: int| 0 <= j < da.len() ==> da[j] != '.',
        forall|j: int| 0 <= j < db.len() ==> db[j] != '.',
        forall|j: int| 0 <= j < dc.len() ==> dc[j] != '.',
    ensures
        split_char(da + seq!['.'] + db + seq!['.'] + dc, '.') == seq![da, db, dc],
{
    let t = da + seq!['.'] + db + seq!['.'] + dc;
    let t2 = db + seq!['.'] + dc;
    assert forall|j: int| 0 <= j < da.len() implies t[j] != '.' by {
        assert(t[j] == da[j]);
    }
    lemma_split_char_step(t, '.', da.len() as int);
    assert(t.take(da.len() as int) =~= da);
    assert(t.skip(da.len() + 1int) =~= t2);
    assert forall|j: int| 0 <= j < db.len() implies t2[j] != '.' by {
        assert(t2[j] == db[j]);
    }
    lemma_split_char_step(t2, '.', db.len() as int);
    assert(t2.take(db.len() as int) =~= db);
    assert(t2.skip(db.len() + 1int) =~= dc);
    lemma_split_char_none(dc, '.');
    assert(split_char(t, '.') =~= seq![da, db, dc]);
}

/// Text made of digits and '.', starting with a digit, is its own core.
proof fn lemma_core_of_plain(t: Seq<char>)
    requires
        t.len() > 0,
        ascii_digit(t[0]),
        forall|j: int| 0 <= j < t.len() ==> t[j] != '-' && t[j] != '+',
    ensures
        version_core(t) == t,
{
    lemma_suffix_start_at(t, t.len() as int);
    assert(t.take(t.len() as int) =~= t);
}

/// A version printed as `a.b.c`, with or without a leading 'v', reads back
/// as `(a, b, c)`; so versions order as integer triples (see `version_lt`).
pub proof fn law_version_text_round_trip(a: u64, b: u64, c: u64)
    ensures
        version_of(decimal(a as nat) + seq!['.'] + decimal(b as nat) + seq!['.'] + decimal(c as nat)) == Some(
            (a, b, c),
        ),
        version_of(seq!['v'] + decimal(a as nat) + seq!['.'] + decimal(b as nat) + seq!['.'] + decimal(
            c as nat,
        )) == Some((a, b, c)),
{
    let da = decimal(a as nat);
    let db = decimal(b as nat);
    let dc = decimal(c as nat);
    lemma_decimal_u64(a);
    lemma_decimal_u64(b);
    lemma_decimal_u64(c);
    let t = da + seq!['.'] + db + seq!['.'] + dc;
    assert forall|j: int| 0 <= j < da.len() implies da[j] != '.' by {
        assert(ascii_digit(da[j]));
    }
    assert forall|j: int| 0 <= j < db.len() implies db[j] != '.' by {
        assert(ascii_digit(db[j]));
    }
    assert forall|j: int| 0 <= j < dc.len() implies dc[j] != '.' by {
        assert(ascii_digit(dc[j]));
    }
    lemma_split_three(da, db, dc);
    assert forall|j: int| 0 <= j < t.len() implies t[j] != '-' && t[j] != '+' by {
        if j < da.len() {
            assert(t[j] == da[j]);
            assert(ascii_digit(da[j]));
        } else if j == da.len() {
        } else if j < da.len() + 1 + db.len() {
            assert(t[j] == db[j - da.len() - 1]);
            assert(ascii_digit(db[j - da.len() - 1]));
        } else if j == da.len() + 1 + db.len() {
        } else {
            assert(t[j] == dc[j - da.len() - 2 - db.len()]);
            assert(ascii_digit(dc[j - da.len() - 2 - db.len()]));
        }
    }
    assert(t[0] == da[0]);
    lemma_core_of_plain(t);
    assert(seq!['v'] + da + seq!['.'] + db + seq!['.'] + dc =~= seq!['v'] + t);
    law_version_v_prefix_optional(t);
}

/// Versions are strictly ordered: no version is older than itself, of two
/// versions at most one is older than the other, the order is transitive,
/// and of two different versions one is older. So `plan_upgrade` reports
/// the running version ahead exactly when the latest one is not newer.
pub proof fn law_version_order(a: (u64, u64, u64), b: (u64, u64, u64), c: (u64, u64, u64))
    ensures
        !version_lt(a, a),
        version_lt(a, b) ==> !version_lt(b, a),
        version_lt(a, b) && version_lt(b, c) ==> version_lt(a, c),
        a != b ==> version_lt(a, b) || version_lt(b, a),
{
}

/// Versions compare part by part, most significant first: a smaller major
/// is older whatever follows, with equal majors a smaller minor is older
/// whatever the patches, and with equal major and minor the patch decides.
pub proof fn law_version_lexicographic(a: (u64, u64, u64), b: (u64, u64, u64))
    ensures
        a.0 < b.0 ==> version_lt(a, b),
        a.0 == b.0 && a.1 < b.1 ==> version_lt(a, b),
        a.0 == b.0 && a.1 == b.1 ==> (version_lt(a, b) <==> a.2 < b.2),
{
}

/// A leading 'v' is optional: adding one to a version that has none
/// changes nothing.
pub proof fn law_version_v_prefix_optional(s: Seq<char>)
    requires
        !(s.len() > 0 && s[0] == 'v'),
    ensures
        version_of(seq!['v'] + s) == version_of(s),
{
    assert((seq!['v'] + s).drop_first() =~= s);
}

/// A prerelease or build suffix is ignored: a version followed by '-' or
/// '+' and anything reads as the version alone.
pub proof fn law_version_suffix_ignored(core: Seq<char>, c: char, rest: Seq<char>)
    requires
        c == '-' || c == '+',
        forall|j: int| 0 <= j < core.len() ==> core[j] != '-' && core[j] != '+',
    ensures
        version_of(core + seq![c] + rest) == version_of(core),
{
    let full = core + seq![c] + rest;
    if core.len() > 0 && core[0] == 'v' {
        let a = full.drop_first();
        let b = core.drop_first();
        assert(a =~= b + seq![c] + rest);
        lemma_suffix_start_at(a, b.len() as int);
        lemma_suffix_start_at(b, b.len() as int);
        assert(a.take(b.len() as int) =~= b.take(b.len() as int));
    } else {
        lemma_suffix_start_at(full, core.len() as int);
        lemma_suffix_start_at(core, core.len() as int);
        assert(full.take(core.len() as int) =~= core.take(core.len() as int));
    }
}

/// Parses `vX.Y.Z[-suffix]` or `X.Y.Z[-suffix]` into `(major, minor,
/// patch)`; a leading `v` is optional and anything from the first `-` or
/// `+` on is ignored.
pub fn parse_version(raw: &str) -> (r: Result<(u64, u64, u64), String>)
    ensures
        match version_of(raw@) {
            Some(v) => r == Ok::<(u64, u64, u64), String>(v),
            None => r matches Err(e) && e@ == bad_version_message(raw@),
        },
{
    let rv = to_chars(raw);
    let n = rv.len();
    let start: usize = if n > 0 && rv[0] == 'v' {
        1
    } else {
        0
    };
    let ghost s = rv@.subrange(start as int, n as int);
    assert(start == 1 ==> s =~= rv@.drop_first());
    assert(start == 0 ==> s =~= rv@);
    let mut end = start;
    while end < n && rv[end] != '-' && rv[end] != '+'
        invariant
            start <= end <= n == rv@.len(),
            s == rv@.subrange(start as int, n as int),
            forall|j: int| start <= j < end ==> rv@[j] != '-' && rv@[j] != '+',
        decreases n - end,
    {
        end = end + 1;
    }
    proof {
        lemma_suffix_start_at(s, end - start);
        assert(s.take(end - start) =~= rv@.subrange(start as int, end as int));
    }
    let core = crate::text::copy_range(&rv, start, end);
    let parts = split_chars(&core, '.');
    let bad = String::from_str("not a valid version: ").concat(debug_str(raw).as_str());
    if parts.len() != 3 {
        return Err(bad);
    }
    let p0 = string_of(&parts[0], 0, parts[0].len());
    let p1 = string_of(&parts[1], 0, parts[1].len());
    let p2 = string_of(&parts[2], 0, parts[2].len());
    proof {
        assert(parts@[0]@.subrange(0, parts@[0]@.len() as int) =~= parts@[0]@);
        assert(parts@[1]@.subrange(0, parts@[1]@.len() as int) =~= parts@[1]@);
        assert(parts@[2]@.subrange(0, parts@[2]@.len() as int) =~= parts@[2]@);
        assert(views(parts@)[0] == parts@[0]@);
        assert(views(parts@)[1] == parts@[1]@);
        assert(views(parts@)[2] == parts@[2]@);
    }
    match (parse_u64(p0.as_str()), parse_u64(p1.as_str()), parse_u64(p2.as_str())) {
        (Some(a), Some(b), Some(c)) => Ok((a, b, c)),
        _ => Err(bad),
    }
}

/// Appends the literal ".old" suffix to a file name: an existing
/// extension is kept ("agent-rules.exe" becomes "agent-rules.exe.old").
pub fn old_sibling_name(file_name: &str) -> (r: String)
    ensures
        r@ == file_name@ + ".old"@,
{
    String::from_str(file_name).concat(".old")
}

// ------------------------------------------------------------------
// The decision
// ------------------------------------------------------------------

/// What an upgrade run does once it knows the latest release's tag.
pub enum UpgradePlan {
    /// The running version is the latest release.
    UpToDate,
    /// The running version is newer than the latest release.
    Ahead,
    /// Download `asset` from `url` and install it.
    Download { asset: String, url: String },
}

/// The download address of a release asset.
pub open spec fn asset_url(tag: Seq<char>, asset: Seq<char>) -> Seq<char> {
    "https://github.com/crsanti/agent-rules/releases/download/"@ + tag + "/"@ + asset
}

/// Decides an upgrade from the latest release's tag, the running version
/// and the platform: an unparsable version is an error naming it; equal
/// versions need nothing, a newer running version needs nothing either,
/// and an older one needs this platform's asset, which must exist.
pub fn plan_upgrade(tag: &str, current: &str, os: &str, arch: &str) -> (r: Result<UpgradePlan, String>)
    ensures
        match (version_of(tag@), version_of(current@)) {
            (None, _) => r matches Err(e) && e@ == "latest release tag "@ + debug_quoted(tag@) + ": "@
                + bad_version_message(tag@),
            (Some(_), None) => r matches Err(e) && e@ == "current version "@ + debug_quoted(current@)
                + ": "@ + bad_version_message(current@),
            (Some(latest), Some(cur)) => if latest == cur {
                r matches Ok(UpgradePlan::UpToDate)
            } else if version_lt(latest, cur) {
                r matches Ok(UpgradePlan::Ahead)
            } else {
                match asset_for(os@, arch@) {
                    Some(a) => r matches Ok(UpgradePlan::Download { asset, url }) && asset@ == a && url@
                        == asset_url(tag@, a),
                    None => r matches Err(e) && e@ == no_asset_message(os@, arch@),
                }
            },
        },
{
    let latest = match parse_version(tag) {
        Ok(v) => v,
        Err(e) => {
            return Err(String::from_str("latest release tag ").concat(debug_str(tag).as_str()).concat(
                ": ",
            ).concat(e.as_str()));
        },
    };
    let cur = match parse_version(current) {
        Ok(v) => v,
        Err(e) => {
            return Err(String::from_str("current version ").concat(debug_str(current).as_str()).concat(
                ": ",
            ).concat(e.as_str()));
        },
    };
    if latest.0 == cur.0 && latest.1 == cur.1 && latest.2 == cur.2 {
        return Ok(UpgradePlan::UpToDate);
    }
    if latest.0 < cur.0 || (latest.0 == cur.0 && (latest.1 < cur.1 || (latest.1 == cur.1 && latest.2
        < cur.2))) {
        return Ok(UpgradePlan::Ahead);
    }
    let asset = asset_name(os, arch)?;
    let url = String::from_str("https://github.com/crsanti/agent-rules/releases/download/").concat(
        tag,
    ).concat("/").concat(asset);
    Ok(UpgradePlan::Download { asset: String::from_str(asset), url })
}

} // verus!
