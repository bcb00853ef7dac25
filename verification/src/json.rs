//! Idempotent remove/ensure on a JSON array found at a dotted path.
//!
//! JSON documents are held in `Json`, a value type of this crate whose
//! objects keep their keys in insertion order; `JsonV` is its mathematical
//! view. Equality of values follows serde_json's value equality: numbers
//! by their printed text (the two float zeros are equal), arrays element by
//! element, objects as key/value sets.
use vstd::prelude::*;
use crate::text::{split_char, split_chars, str_is, string_of, to_chars, views};
use crate::outcome::{finish, finished, Applied};

verus! {

/// serde_json's number, carried through unread.
#[verifier::external_type_specification]
#[verifier::external_body]
pub struct ExNumber(serde_json::Number);

/// A JSON number as serde_json read it: the text it prints for the number
/// (the view), and the number itself, which printing writes back as it
/// is. Only reading JSON text makes one (see `jsontext::parse_json`).
pub struct JsonNumber {
    pub(crate) text: String,
    pub(crate) raw: serde_json::Number,
}

impl View for JsonNumber {
    type V = Seq<char>;

    closed spec fn view(&self) -> Seq<char> {
        self.text@
    }
}

/// Trusted: `Clone` for `serde_json::Number`. Claims nothing: the number
/// is opaque here, and `JsonNumber::copy` keeps its text beside it.
#[verifier::external_body]
fn clone_number(n: &serde_json::Number) -> serde_json::Number {
    n.clone()
}

impl JsonNumber {
    /// The printed text of the number.
    pub fn text(&self) -> (r: &String)
        ensures
            r@ == self@,
    {
        &self.text
    }

    /// A copy of the number.
    pub fn copy(&self) -> (r: JsonNumber)
        ensures
            r@ == self@,
    {
        JsonNumber { text: self.text.clone(), raw: clone_number(&self.raw) }
    }
}

/// A JSON value. Object entries keep their order and hold each key once.
pub enum Json {
    Null,
    Bool(bool),
    Number(JsonNumber),
    Str(String),
    Array(Vec<Json>),
    Object(Vec<(String, Json)>),
}

/// The mathematical view of a `Json` value.
pub enum JsonV {
    Null,
    Bool(bool),
    Number(Seq<char>),
    Str(Seq<char>),
    Array(Seq<JsonV>),
    Object(Seq<(Seq<char>, JsonV)>),
}

pub type Entries = Seq<(Seq<char>, JsonV)>;

/// The view of a value.
pub open spec fn jv(j: Json) -> JsonV
    decreases j,
{
    match j {
        Json::Null => JsonV::Null,
        Json::Bool(b) => JsonV::Bool(b),
        Json::Number(n) => JsonV::Number(n@),
        Json::Str(s) => JsonV::Str(s@),
        Json::Array(xs) => JsonV::Array(
            Seq::new(
                xs@.len(),
                |i: int|
                    if 0 <= i < xs@.len() {
                        proof {
                            assert(decreases_to!(xs => xs@));
                        }
                        jv(xs@[i])
                    } else {
                        JsonV::Null
                    },
            ),
        ),
        Json::Object(es) => JsonV::Object(
            Seq::new(
                es@.len(),
                |i: int|
                    if 0 <= i < es@.len() {
                        proof {
                            assert(decreases_to!(es => es@));
                        }
                        (es@[i].0@, jv(es@[i].1))
                    } else {
                        (Seq::empty(), JsonV::Null)
                    },
            ),
        ),
    }
}

/// The views of a sequence of values.
pub open spec fn jvs(xs: Seq<Json>) -> Seq<JsonV> {
    xs.map_values(|x: Json| jv(x))
}

/// The views of a sequence of object entries.
pub open spec fn jvo(es: Seq<(String, Json)>) -> Entries {
    es.map_values(|e: (String, Json)| (e.0@, jv(e.1)))
}

pub proof fn lemma_jv_array(xs: Vec<Json>)
    ensures
        jv(Json::Array(xs)) == JsonV::Array(jvs(xs@)),
{
    let t = jv(Json::Array(xs));
    let a = t->Array_0;
    assert(a.len() == xs@.len());
    assert forall|i: int| 0 <= i < a.len() implies a[i] == jvs(xs@)[i] by {
        assert(a[i] == jv(xs@[i]));
    }
    assert(a =~= jvs(xs@));
}

pub proof fn lemma_jv_object(es: Vec<(String, Json)>)
    ensures
        jv(Json::Object(es)) == JsonV::Object(jvo(es@)),
{
    let t = jv(Json::Object(es));
    let a = t->Object_0;
    assert(a.len() == es@.len());
    assert forall|i: int| 0 <= i < a.len() implies a[i] == jvo(es@)[i] by {
        assert(a[i] == (es@[i].0@, jv(es@[i].1)));
    }
    assert(a =~= jvo(es@));
}

// ------------------------------------------------------------------
// Objects
// ------------------------------------------------------------------

/// Index of the entry holding key `k`.
pub open spec fn key_index(es: Entries, k: Seq<char>) -> Option<int>
    decreases es.len(),
{
    if es.len() == 0 {
        None
    } else if es[0].0 == k {
        Some(0)
    } else {
        match key_index(es.drop_first(), k) {
            Some(i) => Some(i + 1),
            None => None,
        }
    }
}

/// The value stored under key `k`.
pub open spec fn obj_get(es: Entries, k: Seq<char>) -> Option<JsonV> {
    match key_index(es, k) {
        Some(i) => Some(es[i].1),
        None => None,
    }
}

/// Inserting under `k`: an existing entry gets the new value in place, a
/// new key goes at the end.
pub open spec fn obj_insert(es: Entries, k: Seq<char>, v: JsonV) -> Entries {
    match key_index(es, k) {
        Some(i) => es.update(i, (k, v)),
        None => es.push((k, v)),
    }
}

/// Every key occurs once, in this object and in every nested one.
pub open spec fn keys_unique(es: Entries) -> bool {
    forall|i: int, j: int| 0 <= i < j < es.len() ==> #[trigger] es[i].0 != #[trigger] es[j].0
}

pub proof fn lemma_key_index(es: Entries, k: Seq<char>)
    ensures
        match key_index(es, k) {
            Some(i) => 0 <= i < es.len() && es[i].0 == k && forall|j: int| 0 <= j < i ==> #[trigger] es[j].0 != k,
            None => forall|j: int| 0 <= j < es.len() ==> #[trigger] es[j].0 != k,
        },
    decreases es.len(),
{
    if es.len() > 0 && es[0].0 != k {
        lemma_key_index(es.drop_first(), k);
        match key_index(es.drop_first(), k) {
            Some(i) => {
                assert forall|j: int| 0 <= j < i + 1 implies #[trigger] es[j].0 != k by {
                    if j > 0 {
                        assert(es[j] == es.drop_first()[j - 1]);
                    }
                }
            },
            None => {
                assert forall|j: int| 0 <= j < es.len() implies #[trigger] es[j].0 != k by {
                    if j > 0 {
                        assert(es[j] == es.drop_first()[j - 1]);
                    }
                }
            },
        }
    }
}

pub proof fn lemma_key_index_at(es: Entries, k: Seq<char>, i: int)
    requires
        0 <= i <= es.len(),
        forall|j: int| 0 <= j < i ==> #[trigger] es[j].0 != k,
        i < es.len() ==> es[i].0 == k,
    ensures
        i < es.len() ==> key_index(es, k) == Some(i),
        i == es.len() ==> key_index(es, k) is None,
{
    lemma_key_index(es, k);
    match key_index(es, k) {
        Some(x) => {
            if x < i {
                assert(es[x].0 != k);
            }
            if i < x {
                assert(es[i].0 != k);
            }
        },
        None => {
            if i < es.len() {
                assert(es[i].0 != k);
            }
        },
    }
}

// ------------------------------------------------------------------
// Equality
// ------------------------------------------------------------------

/// A float zero as serde_json prints it.
pub open spec fn float_zero(t: Seq<char>) -> bool {
    t == "0.0"@ || t == "-0.0"@
}

/// Number equality on serde_json's printed texts: the same text, or the
/// two zeros `0.0` and `-0.0`, which compare equal as `f64`.
pub open spec fn number_eq(x: Seq<char>, y: Seq<char>) -> bool {
    x == y || (float_zero(x) && float_zero(y))
}

/// JSON value equality: numbers as serde_json compares them (`number_eq`),
/// strings by text, arrays element by element, objects of equal size whose
/// every entry is found, with an equal value, under the same key of the
/// other.
pub open spec fn jeq(a: JsonV, b: JsonV) -> bool
    decreases a, 0int,
{
    match (a, b) {
        (JsonV::Null, JsonV::Null) => true,
        (JsonV::Bool(x), JsonV::Bool(y)) => x == y,
        (JsonV::Number(x), JsonV::Number(y)) => number_eq(x, y),
        (JsonV::Str(x), JsonV::Str(y)) => x == y,
        (JsonV::Array(xs), JsonV::Array(ys)) => xs.len() == ys.len() && all_eq(xs, ys, xs.len() as int),
        (JsonV::Object(xs), JsonV::Object(ys)) => xs.len() == ys.len() && all_in(xs, ys, xs.len() as int),
        _ => false,
    }
}

/// The first `n` elements are pairwise equal.
pub open spec fn all_eq(xs: Seq<JsonV>, ys: Seq<JsonV>, n: int) -> bool
    decreases xs, n,
{
    if n <= 0 {
        true
    } else if n > xs.len() || n > ys.len() {
        false
    } else {
        all_eq(xs, ys, n - 1) && jeq(xs[n - 1], ys[n - 1])
    }
}

/// The first `n` entries of `xs` are found, with equal values, in `ys`.
pub open spec fn all_in(xs: Entries, ys: Entries, n: int) -> bool
    decreases xs, n,
{
    if n <= 0 {
        true
    } else if n > xs.len() {
        false
    } else {
        all_in(xs, ys, n - 1) && match obj_get(ys, xs[n - 1].0) {
            Some(w) => jeq(xs[n - 1].1, w),
            None => false,
        }
    }
}

pub proof fn lemma_all_eq_prefix(xs: Seq<JsonV>, ys: Seq<JsonV>, n: int, m: int)
    requires
        0 <= m <= n,
        all_eq(xs, ys, n),
    ensures
        all_eq(xs, ys, m),
    decreases n - m,
{
    if m < n {
        lemma_all_eq_prefix(xs, ys, n - 1, m);
    }
}

pub proof fn lemma_all_in_prefix(xs: Entries, ys: Entries, n: int, m: int)
    requires
        0 <= m <= n,
        all_in(xs, ys, n),
    ensures
        all_in(xs, ys, m),
    decreases n - m,
{
    if m < n {
        lemma_all_in_prefix(xs, ys, n - 1, m);
    }
}

// ------------------------------------------------------------------
// The list update
// ------------------------------------------------------------------

/// Some element of `rs` equals `x` (compared as `r == x`).
pub open spec fn matched_by(rs: Seq<JsonV>, x: JsonV) -> bool {
    exists|i: int| 0 <= i < rs.len() && jeq(#[trigger] rs[i], x)
}

/// Some element of `ls` equals `item` (compared as `x == item`).
pub open spec fn present(ls: Seq<JsonV>, item: JsonV) -> bool {
    exists|i: int| 0 <= i < ls.len() && jeq(#[trigger] ls[i], item)
}

/// The list without the elements matched by `rs`, in order.
pub open spec fn kept(cur: Seq<JsonV>, rs: Seq<JsonV>) -> Seq<JsonV> {
    cur.filter(|x: JsonV| !matched_by(rs, x))
}

/// Each element of `es`, in order, appended when no equal one is present.
pub open spec fn ensured(ls: Seq<JsonV>, es: Seq<JsonV>) -> Seq<JsonV>
    decreases es.len(),
{
    if es.len() == 0 {
        ls
    } else {
        let prev = ensured(ls, es.drop_last());
        if present(prev, es.last()) {
            prev
        } else {
            prev.push(es.last())
        }
    }
}

/// The updated list: removals first, then ensured elements.
pub open spec fn updated_list(cur: Seq<JsonV>, rs: Seq<JsonV>, es: Seq<JsonV>) -> Seq<JsonV> {
    ensured(kept(cur, rs), es)
}

/// Walks the intermediate `path` keys (a missing or non-object value is
/// replaced by an empty object), then updates the array under `last_key`
/// (a missing one counts as empty). `None` when that value is not an array.
pub open spec fn set_list(
    es: Entries,
    path: Seq<Seq<char>>,
    last_key: Seq<char>,
    rs: Seq<JsonV>,
    ens: Seq<JsonV>,
) -> Option<Entries>
    decreases path.len(),
{
    if path.len() == 0 {
        match obj_get(es, last_key) {
            None => Some(obj_insert(es, last_key, JsonV::Array(updated_list(seq![], rs, ens)))),
            Some(JsonV::Array(a)) => Some(obj_insert(es, last_key, JsonV::Array(updated_list(a, rs, ens)))),
            Some(_) => None,
        }
    } else {
        let child = match obj_get(es, path[0]) {
            Some(JsonV::Object(c)) => c,
            _ => seq![],
        };
        match set_list(child, path.drop_first(), last_key, rs, ens) {
            Some(c2) => Some(obj_insert(es, path[0], JsonV::Object(c2))),
            None => None,
        }
    }
}

/// The array named by a spec entry (`remove` or `ensure`), or none.
pub open spec fn spec_list(spec: Entries, key: Seq<char>) -> Seq<JsonV> {
    match obj_get(spec, key) {
        Some(JsonV::Array(a)) => a,
        _ => seq![],
    }
}

/// Why `update_json` refuses a document.
pub enum JsonRefusal {
    /// The top-level value is not an object.
    NotObject,
    /// The value at the path is not an array.
    NotArray,
}

/// The updated document, or why it is refused.
pub open spec fn json_update(data: JsonV, json_path: Seq<char>, rs: Seq<JsonV>, ens: Seq<JsonV>) -> Result<JsonV, JsonRefusal> {
    let keys = split_char(json_path, '.');
    match data {
        JsonV::Object(es) => match set_list(es, keys.drop_last(), keys.last(), rs, ens) {
            Some(es2) => Ok(JsonV::Object(es2)),
            None => Err(JsonRefusal::NotArray),
        },
        _ => Err(JsonRefusal::NotObject),
    }
}

// ------------------------------------------------------------------
// Executable code
// ------------------------------------------------------------------

/// Whether a number text is a float zero (see `float_zero`).
pub fn is_float_zero(t: &String) -> (r: bool)
    ensures
        r == float_zero(t@),
{
    str_is(t.as_str(), "0.0") || str_is(t.as_str(), "-0.0")
}

/// JSON value equality (see `jeq`).
pub fn json_eq(a: &Json, b: &Json) -> (r: bool)
    ensures
        r == jeq(jv(*a), jv(*b)),
    decreases a,
{
    match a {
        Json::Null => match b {
            Json::Null => true,
            _ => false,
        },
        Json::Bool(x) => match b {
            Json::Bool(y) => *x == *y,
            _ => false,
        },
        Json::Number(x) => match b {
            Json::Number(y) => x.text().eq(y.text()) || (is_float_zero(x.text()) && is_float_zero(y.text())),
            _ => false,
        },
        Json::Str(x) => match b {
            Json::Str(y) => x.eq(y),
            _ => false,
        },
        Json::Array(xs) => match b {
            Json::Array(ys) => {
                proof {
                    lemma_jv_array(*xs);
                    lemma_jv_array(*ys);
                }
                let ghost vx = jvs(xs@);
                let ghost vy = jvs(ys@);
                if xs.len() != ys.len() {
                    return false;
                }
                let mut i: usize = 0;
                while i < xs.len()
                    invariant
                        i <= xs@.len() == ys@.len(),
                        *a == Json::Array(*xs),
                        *b == Json::Array(*ys),
                        jv(*a) == JsonV::Array(vx),
                        jv(*b) == JsonV::Array(vy),
                        vx == jvs(xs@),
                        vy == jvs(ys@),
                        all_eq(vx, vy, i as int),
                    decreases xs@.len() - i,
                {
                    proof {
                        assert(decreases_to!(*xs => xs@[i as int]));
                    }
                    let e = json_eq(&xs[i], &ys[i]);
                    proof {
                        assert(all_eq(vx, vy, i + 1) == (all_eq(vx, vy, i as int) && jeq(vx[i as int], vy[i as int])));
                    }
                    if !e {
                        proof {
                            if all_eq(vx, vy, vx.len() as int) {
                                lemma_all_eq_prefix(vx, vy, vx.len() as int, i + 1);
                            }
                        }
                        return false;
                    }
                    i = i + 1;
                }
                true
            },
            _ => false,
        },
        Json::Object(xs) => match b {
            Json::Object(ys) => {
                proof {
                    lemma_jv_object(*xs);
                    lemma_jv_object(*ys);
                }
                let ghost vx = jvo(xs@);
                let ghost vy = jvo(ys@);
                if xs.len() != ys.len() {
                    return false;
                }
                let mut i: usize = 0;
                while i < xs.len()
                    invariant
                        i <= xs@.len() == ys@.len(),
                        *a == Json::Object(*xs),
                        *b == Json::Object(*ys),
                        jv(*a) == JsonV::Object(vx),
                        jv(*b) == JsonV::Object(vy),
                        vx == jvo(xs@),
                        vy == jvo(ys@),
                        all_in(vx, vy, i as int),
                    decreases xs@.len() - i,
                {
                    let found = find_key(ys, &xs[i].0);
                    proof {
                        assert(vx[i as int].0 == xs@[i as int].0@);
                    }
                    match found {
                        Some(j) => {
                            proof {
                                assert(decreases_to!(*xs => xs@[i as int]));
                                assert(vy[j as int].1 == jv(ys@[j as int].1));
                                assert(vx[i as int].1 == jv(xs@[i as int].1));
                            }
                            let e = json_eq(&xs[i].1, &ys[j].1);
                            if !e {
                                proof {
                                    if all_in(vx, vy, vx.len() as int) {
                                        lemma_all_in_prefix(vx, vy, vx.len() as int, i + 1);
                                    }
                                }
                                return false;
                            }
                        },
                        None => {
                            proof {
                                if all_in(vx, vy, vx.len() as int) {
                                    lemma_all_in_prefix(vx, vy, vx.len() as int, i + 1);
                                }
                            }
                            return false;
                        },
                    }
                    i = i + 1;
                }
                true
            },
            _ => false,
        },
    }
}

/// Index of the entry holding key `k`.
pub fn find_key(es: &Vec<(String, Json)>, k: &String) -> (r: Option<usize>)
    ensures
        match r {
            Some(i) => i < es@.len() && es@[i as int].0@ == k@ && key_index(jvo(es@), k@) == Some(i as int),
            None => key_index(jvo(es@), k@) is None,
        },
{
    let ghost v = jvo(es@);
    let mut i: usize = 0;
    while i < es.len()
        invariant
            i <= es@.len(),
            v == jvo(es@),
            forall|j: int| 0 <= j < i ==> #[trigger] v[j].0 != k@,
        decreases es@.len() - i,
    {
        if es[i].0.eq(k) {
            proof {
                lemma_key_index_at(v, k@, i as int);
            }
            return Some(i);
        }
        i = i + 1;
    }
    proof {
        lemma_key_index_at(v, k@, i as int);
    }
    None
}

/// A copy of a value.
pub fn copy_json(j: &Json) -> (r: Json)
    ensures
        jv(r) == jv(*j),
    decreases j,
{
    match j {
        Json::Null => Json::Null,
        Json::Bool(b) => Json::Bool(*b),
        Json::Number(n) => Json::Number(n.copy()),
        Json::Str(s) => Json::Str(s.clone()),
        Json::Array(xs) => {
            let mut out: Vec<Json> = Vec::new();
            let mut i: usize = 0;
            while i < xs.len()
                invariant
                    i <= xs@.len(),
                    *j == Json::Array(*xs),
                    jvs(out@) == jvs(xs@).take(i as int),
                decreases xs@.len() - i,
            {
                proof {
                    assert((*j)->Array_0 == *xs);
                    assert(decreases_to!(*j => (*j)->Array_0));
                    assert(decreases_to!(*xs => xs@[i as int]));
                }
                let c = copy_json(&xs[i]);
                proof {
                    assert(jvs(out@.push(c)) =~= jvs(out@).push(jv(c)));
                    assert(jvs(xs@).take(i + 1) =~= jvs(xs@).take(i as int).push(jv(xs@[i as int])));
                }
                out.push(c);
                i = i + 1;
            }
            proof {
                assert(jvs(xs@).take(xs@.len() as int) =~= jvs(xs@));
                lemma_jv_array(*xs);
                lemma_jv_array(out);
                assert(jvs(out@) =~= jvs(xs@));
            }
            Json::Array(out)
        },
        Json::Object(es) => {
            let mut out: Vec<(String, Json)> = Vec::new();
            let mut i: usize = 0;
            while i < es.len()
                invariant
                    i <= es@.len(),
                    *j == Json::Object(*es),
                    jvo(out@) == jvo(es@).take(i as int),
                decreases es@.len() - i,
            {
                proof {
                    assert((*j)->Object_0 == *es);
                    assert(decreases_to!(*j => (*j)->Object_0));
                    assert(decreases_to!(*es => es@[i as int]));
                    assert(decreases_to!(es@[i as int] => es@[i as int].1));
                }
                let k = es[i].0.clone();
                let c = copy_json(&es[i].1);
                proof {
                    assert(jvo(out@.push((k, c))) =~= jvo(out@).push((k@, jv(c))));
                    assert(jvo(es@).take(i + 1) =~= jvo(es@).take(i as int).push(
                        (es@[i as int].0@, jv(es@[i as int].1)),
                    ));
                }
                out.push((k, c));
                i = i + 1;
            }
            proof {
                assert(jvo(es@).take(es@.len() as int) =~= jvo(es@));
                lemma_jv_object(*es);
                lemma_jv_object(out);
            }
            Json::Object(out)
        },
    }
}

/// A copy of object entries.
pub fn copy_entries(es: &Vec<(String, Json)>) -> (r: Vec<(String, Json)>)
    ensures
        jvo(r@) == jvo(es@),
{
    let mut out: Vec<(String, Json)> = Vec::new();
    let mut i: usize = 0;
    while i < es.len()
        invariant
            i <= es@.len(),
            jvo(out@) == jvo(es@).take(i as int),
        decreases es@.len() - i,
    {
        let k = es[i].0.clone();
        let c = copy_json(&es[i].1);
        proof {
            assert(jvo(out@.push((k, c))) =~= jvo(out@).push((k@, jv(c))));
            assert(jvo(es@).take(i + 1) =~= jvo(es@).take(i as int).push((es@[i as int].0@, jv(es@[i as int].1))));
        }
        out.push((k, c));
        i = i + 1;
    }
    assert(jvo(es@).take(es@.len() as int) =~= jvo(es@));
    out
}

/// Copies of values.
pub fn copy_values(xs: &Vec<Json>) -> (r: Vec<Json>)
    ensures
        jvs(r@) == jvs(xs@),
{
    let mut out: Vec<Json> = Vec::new();
    let mut i: usize = 0;
    while i < xs.len()
        invariant
            i <= xs@.len(),
            jvs(out@) == jvs(xs@).take(i as int),
        decreases xs@.len() - i,
    {
        let c = copy_json(&xs[i]);
        proof {
            assert(jvs(out@.push(c)) =~= jvs(out@).push(jv(c)));
            assert(jvs(xs@).take(i + 1) =~= jvs(xs@).take(i as int).push(jv(xs@[i as int])));
        }
        out.push(c);
        i = i + 1;
    }
    assert(jvs(xs@).take(xs@.len() as int) =~= jvs(xs@));
    out
}

/// Inserts `v` under `k`: in place when the key exists, else at the end.
pub fn obj_insert_exec(es: &mut Vec<(String, Json)>, k: String, v: Json)
    ensures
        jvo(final(es)@) == obj_insert(jvo(old(es)@), k@, jv(v)),
{
    match find_key(es, &k) {
        Some(i) => {
            let ghost kv = k@;
            let ghost vv = jv(v);
            es.set(i, (k, v));
            assert(jvo(es@) =~= jvo(old(es)@).update(i as int, (kv, vv)));
        },
        None => {
            let ghost kv = k@;
            let ghost vv = jv(v);
            es.push((k, v));
            assert(jvo(es@) =~= jvo(old(es)@).push((kv, vv)));
        },
    }
}

/// Whether some element of `rs` equals `x` (as `r == x`).
pub fn any_matches(rs: &Vec<Json>, x: &Json) -> (r: bool)
    ensures
        r == matched_by(jvs(rs@), jv(*x)),
{
    let ghost vr = jvs(rs@);
    let mut i: usize = 0;
    while i < rs.len()
        invariant
            i <= rs@.len(),
            vr == jvs(rs@),
            forall|j: int| 0 <= j < i ==> !jeq(#[trigger] vr[j], jv(*x)),
        decreases rs@.len() - i,
    {
        if json_eq(&rs[i], x) {
            assert(jeq(vr[i as int], jv(*x)));
            return true;
        }
        i = i + 1;
    }
    false
}

/// Whether some element of `ls` equals `item` (as `x == item`).
pub fn any_present(ls: &Vec<Json>, item: &Json) -> (r: bool)
    ensures
        r == present(jvs(ls@), jv(*item)),
{
    let ghost vl = jvs(ls@);
    let mut i: usize = 0;
    while i < ls.len()
        invariant
            i <= ls@.len(),
            vl == jvs(ls@),
            forall|j: int| 0 <= j < i ==> !jeq(#[trigger] vl[j], jv(*item)),
        decreases ls@.len() - i,
    {
        if json_eq(&ls[i], item) {
            assert(jeq(vl[i as int], jv(*item)));
            return true;
        }
        i = i + 1;
    }
    false
}

/// The list update: drops every element matched by `remove`, then appends
/// each element of `ensure` that is not already present.
pub fn update_list(cur: &Vec<Json>, remove: &Vec<Json>, ensure: &Vec<Json>) -> (r: Vec<Json>)
    ensures
        jvs(r@) == updated_list(jvs(cur@), jvs(remove@), jvs(ensure@)),
{
    let ghost vc = jvs(cur@);
    let ghost vr = jvs(remove@);
    let ghost ve = jvs(ensure@);
    let mut out: Vec<Json> = Vec::new();
    let mut i: usize = 0;
    while i < cur.len()
        invariant
            i <= cur@.len(),
            vc == jvs(cur@),
            vr == jvs(remove@),
            jvs(out@) == kept(vc.take(i as int), vr),
        decreases cur@.len() - i,
    {
        proof {
            reveal_with_fuel(Seq::filter, 1);
            assert(vc.take(i + 1).drop_last() =~= vc.take(i as int));
        }
        if !any_matches(remove, &cur[i]) {
            let c = copy_json(&cur[i]);
            proof {
                assert(jvs(out@.push(c)) =~= jvs(out@).push(jv(c)));
            }
            out.push(c);
        }
        i = i + 1;
    }
    assert(vc.take(cur@.len() as int) =~= vc);
    let mut k: usize = 0;
    while k < ensure.len()
        invariant
            k <= ensure@.len(),
            vc == jvs(cur@),
            vr == jvs(remove@),
            ve == jvs(ensure@),
            jvs(out@) == ensured(kept(vc, vr), ve.take(k as int)),
        decreases ensure@.len() - k,
    {
        assert(ve.take(k + 1).drop_last() =~= ve.take(k as int));
        if !any_present(&out, &ensure[k]) {
            let c = copy_json(&ensure[k]);
            proof {
                assert(jvs(out@.push(c)) =~= jvs(out@).push(jv(c)));
            }
            out.push(c);
        }
        k = k + 1;
    }
    assert(ve.take(ensure@.len() as int) =~= ve);
    out
}

/// The updated entries of an object (see `set_list`), walking the
/// intermediate keys `path[depth..]`.
pub fn set_list_exec(
    es: &Vec<(String, Json)>,
    path: &Vec<String>,
    depth: usize,
    last_key: &String,
    remove: &Vec<Json>,
    ensure: &Vec<Json>,
) -> (r: Option<Vec<(String, Json)>>)
    requires
        depth <= path@.len(),
    ensures
        match r {
            Some(out) => set_list(
                jvo(es@),
                crate::text::string_views(path@).skip(depth as int),
                last_key@,
                jvs(remove@),
                jvs(ensure@),
            ) == Some(jvo(out@)),
            None => set_list(
                jvo(es@),
                crate::text::string_views(path@).skip(depth as int),
                last_key@,
                jvs(remove@),
                jvs(ensure@),
            ) is None,
        },
    decreases path@.len() - depth,
{
    let ghost ps = crate::text::string_views(path@).skip(depth as int);
    if depth == path.len() {
        let mut out = copy_entries(es);
        match find_key(es, last_key) {
            None => {
                let empty: Vec<Json> = Vec::new();
                let list = update_list(&empty, remove, ensure);
                proof {
                    assert(jvs(empty@) =~= Seq::<JsonV>::empty());
                    lemma_jv_array(list);
                }
                obj_insert_exec(&mut out, last_key.clone(), Json::Array(list));
                Some(out)
            },
            Some(i) => {
                proof {
                    assert(jvo(es@)[i as int].1 == jv(es@[i as int].1));
                }
                match &es[i].1 {
                    Json::Array(a) => {
                        let list = update_list(a, remove, ensure);
                        proof {
                            lemma_jv_array(*a);
                            lemma_jv_array(list);
                        }
                        obj_insert_exec(&mut out, last_key.clone(), Json::Array(list));
                        Some(out)
                    },
                    Json::Null => None,
                    Json::Bool(_) => None,
                    Json::Number(_) => None,
                    Json::Str(_) => None,
                    Json::Object(c) => {
                        proof {
                            lemma_jv_object(*c);
                        }
                        None
                    },
                }
            },
        }
    } else {
        let key = &path[depth];
        proof {
            assert(ps[0] == key@);
            assert(ps.drop_first() =~= crate::text::string_views(path@).skip(depth + 1));
        }
        let child: Vec<(String, Json)> = match find_key(es, key) {
            Some(i) => {
                proof {
                    assert(jvo(es@)[i as int].1 == jv(es@[i as int].1));
                }
                match &es[i].1 {
                    Json::Object(c) => {
                        proof {
                            lemma_jv_object(*c);
                        }
                        copy_entries(c)
                    },
                    Json::Array(a) => {
                        proof {
                            lemma_jv_array(*a);
                        }
                        Vec::new()
                    },
                    _ => Vec::new(),
                }
            },
            None => Vec::new(),
        };
        proof {
            assert(jvo(Seq::<(String, Json)>::empty()) =~= Seq::<(Seq<char>, JsonV)>::empty());
        }
        match set_list_exec(&child, path, depth + 1, last_key, remove, ensure) {
            Some(c2) => {
                let mut out = copy_entries(es);
                proof {
                    lemma_jv_object(c2);
                }
                obj_insert_exec(&mut out, key.clone(), Json::Object(c2));
                Some(out)
            },
            None => None,
        }
    }
}

/// Idempotent remove/ensure on the JSON array at `json_path`, leaving
/// every other key untouched: walks the dotted path (creating, or
/// overwriting with, an empty object any intermediate segment that is
/// missing or not an object), then drops the elements equal to one of
/// `remove` and appends each element of `ensure` not yet present. A
/// document whose top level is not an object, or whose value at the path
/// is not an array, is refused with a message naming `target`.
pub fn update_json(target: &str, data: &Json, json_path: &str, remove: &Vec<Json>, ensure: &Vec<Json>) -> (r:
    Result<Json, String>)
    ensures
        match json_update(jv(*data), json_path@, jvs(remove@), jvs(ensure@)) {
            Ok(d) => r matches Ok(out) && jv(out) == d,
            Err(JsonRefusal::NotObject) => r matches Err(e) && e@ == target@
                + ": top-level JSON is not an object"@,
            Err(JsonRefusal::NotArray) => r matches Err(e) && e@ == target@ + ": "@ + json_path@
                + " is not a JSON array"@,
        },
{
    let path_chars = to_chars(json_path);
    let pieces = split_chars(&path_chars, '.');
    proof {
        crate::markdown::lemma_split_char_len(path_chars@, '.');
    }
    let n = pieces.len();
    let mut inter: Vec<String> = Vec::new();
    let mut i: usize = 0;
    while i + 1 < n
        invariant
            n == pieces@.len(),
            n >= 1,
            i <= n - 1,
            crate::text::string_views(inter@) == views(pieces@).take(i as int),
        decreases n - i,
    {
        let s = string_of(&pieces[i], 0, pieces[i].len());
        proof {
            assert(pieces@[i as int]@.subrange(0, pieces@[i as int]@.len() as int) =~= pieces@[i as int]@);
            assert(crate::text::string_views(inter@.push(s)) =~= crate::text::string_views(inter@).push(s@));
            assert(views(pieces@).take(i + 1) =~= views(pieces@).take(i as int).push(pieces@[i as int]@));
        }
        inter.push(s);
        i = i + 1;
    }
    let last = &pieces[n - 1];
    let last_key = string_of(last, 0, last.len());
    proof {
        assert(last@.subrange(0, last@.len() as int) =~= last@);
        assert(views(pieces@).take(n - 1) =~= views(pieces@).drop_last());
        assert(crate::text::string_views(inter@).skip(0) =~= crate::text::string_views(inter@));
    }
    match data {
        Json::Object(es) => {
            proof {
                lemma_jv_object(*es);
            }
            match set_list_exec(es, &inter, 0, &last_key, remove, ensure) {
                Some(out) => {
                    proof {
                        lemma_jv_object(out);
                    }
                    Ok(Json::Object(out))
                },
                None => {
                    let msg = String::from_str(target).concat(": ").concat(json_path).concat(
                        " is not a JSON array",
                    );
                    Err(msg)
                },
            }
        },
        _ => {
            proof {
                match data {
                    Json::Array(a) => lemma_jv_array(*a),
                    _ => {},
                }
            }
            Err(String::from_str(target).concat(": top-level JSON is not an object"))
        },
    }
}

/// The `remove` and `ensure` arrays of a block's JSON spec (each missing
/// or non-array entry counts as empty); a spec that is not an object is
/// refused with a message naming `target`.
pub fn spec_lists(target: &str, spec: &Json) -> (r: Result<(Vec<Json>, Vec<Json>), String>)
    ensures
        match jv(*spec) {
            JsonV::Object(es) => r matches Ok((rm, en)) && jvs(rm@) == spec_list(es, "remove"@) && jvs(en@)
                == spec_list(es, "ensure"@),
            _ => r matches Err(e) && e@ == target@ + ": JSON spec is not an object"@,
        },
{
    match spec {
        Json::Object(es) => {
            proof {
                lemma_jv_object(*es);
            }
            let rm = named_list(es, "remove");
            let en = named_list(es, "ensure");
            Ok((rm, en))
        },
        _ => {
            proof {
                match spec {
                    Json::Array(a) => lemma_jv_array(*a),
                    _ => {},
                }
            }
            Err(String::from_str(target).concat(": JSON spec is not an object"))
        },
    }
}

/// A copy of the array stored under `key`, or an empty list.
pub fn named_list(es: &Vec<(String, Json)>, key: &str) -> (r: Vec<Json>)
    ensures
        jvs(r@) == spec_list(jvo(es@), key@),
{
    let k = String::from_str(key);
    match find_key(es, &k) {
        Some(i) => {
            proof {
                assert(jvo(es@)[i as int].1 == jv(es@[i as int].1));
            }
            match &es[i].1 {
                Json::Array(a) => {
                    proof {
                        lemma_jv_array(*a);
                    }
                    copy_values(a)
                },
                Json::Object(c) => {
                    proof {
                        lemma_jv_object(*c);
                    }
                    Vec::new()
                },
                _ => Vec::new(),
            }
        },
        None => Vec::new(),
    }
}

/// The outcome of a JSON application: the target is unchanged when it
/// existed and its text equals the new text; a change is reported as
/// "patched".
pub fn finish_json(target: &str, json_path: &str, existed: bool, original: &str, new_text: String, dry_run: bool) -> (a:
    Applied)
    ensures
        finished(a, target@, json_path@, existed && new_text@ == original@, existed, new_text@, "patched"@, dry_run),
{
    let nt = to_chars(new_text.as_str());
    let ot = to_chars(original);
    let same = crate::text::chars_eq(&nt, &ot);
    finish(target, json_path, existed && same, existed, new_text, "patched", dry_run)
}

} // verus!
