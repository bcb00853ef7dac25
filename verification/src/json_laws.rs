//! Properties of the JSON list update that span several runs.
use vstd::prelude::*;
use crate::text::split_char;
use crate::json::{
    all_eq, all_in, ensured, jeq, json_update, keys_unique, kept, key_index, lemma_key_index,
    lemma_key_index_at, matched_by, obj_get, obj_insert, present, set_list, updated_list, Entries,
    JsonV,
};

verus! {

/// Every object, at any depth, holds each key once.
pub open spec fn json_wf(a: JsonV) -> bool
    decreases a, 0int,
{
    match a {
        JsonV::Array(xs) => all_wf(xs, xs.len() as int),
        JsonV::Object(es) => keys_unique(es) && all_wf_entries(es, es.len() as int),
        _ => true,
    }
}

pub open spec fn all_wf(xs: Seq<JsonV>, n: int) -> bool
    decreases xs, n,
{
    if n <= 0 {
        true
    } else if n > xs.len() {
        false
    } else {
        all_wf(xs, n - 1) && json_wf(xs[n - 1])
    }
}

pub open spec fn all_wf_entries(es: Entries, n: int) -> bool
    decreases es, n,
{
    if n <= 0 {
        true
    } else if n > es.len() {
        false
    } else {
        all_wf_entries(es, n - 1) && json_wf(es[n - 1].1)
    }
}

proof fn lemma_all_wf(xs: Seq<JsonV>, n: int, k: int)
    requires
        all_wf(xs, n),
        0 <= k < n,
    ensures
        json_wf(xs[k]),
    decreases n,
{
    if k < n - 1 {
        lemma_all_wf(xs, n - 1, k);
    }
}

proof fn lemma_all_wf_entries(es: Entries, n: int, k: int)
    requires
        all_wf_entries(es, n),
        0 <= k < n,
    ensures
        json_wf(es[k].1),
    decreases n,
{
    if k < n - 1 {
        lemma_all_wf_entries(es, n - 1, k);
    }
}

/// Equality is reflexive on values whose objects hold each key once.
pub proof fn lemma_jeq_refl(a: JsonV)
    requires
        json_wf(a),
    ensures
        jeq(a, a),
    decreases a,
{
    match a {
        JsonV::Array(xs) => {
            lemma_all_eq_refl(a, xs, xs.len() as int);
        },
        JsonV::Object(es) => {
            lemma_all_in_refl(a, es, es.len() as int);
        },
        _ => {},
    }
}

proof fn lemma_all_eq_refl(a: JsonV, xs: Seq<JsonV>, n: int)
    requires
        a == JsonV::Array(xs),
        json_wf(a),
        0 <= n <= xs.len(),
    ensures
        all_eq(xs, xs, n),
    decreases a, n,
{
    if n > 0 {
        lemma_all_eq_refl(a, xs, n - 1);
        lemma_all_wf(xs, xs.len() as int, n - 1);
        assert(decreases_to!(a => xs));
        lemma_jeq_refl(xs[n - 1]);
    }
}

proof fn lemma_all_in_refl(a: JsonV, es: Entries, n: int)
    requires
        a == JsonV::Object(es),
        json_wf(a),
        0 <= n <= es.len(),
    ensures
        all_in(es, es, n),
    decreases a, n,
{
    if n > 0 {
        lemma_all_in_refl(a, es, n - 1);
        lemma_all_wf_entries(es, es.len() as int, n - 1);
        assert(decreases_to!(a => es));
        assert(decreases_to!(es => es[n - 1]));
        lemma_jeq_refl(es[n - 1].1);
        assert forall|j: int| 0 <= j < n - 1 implies #[trigger] es[j].0 != es[n - 1].0 by {}
        lemma_key_index_at(es, es[n - 1].0, n - 1);
    }
}

/// Equality is transitive.
pub proof fn lemma_jeq_trans(a: JsonV, b: JsonV, c: JsonV)
    requires
        jeq(a, b),
        jeq(b, c),
    ensures
        jeq(a, c),
    decreases a,
{
    match (a, b, c) {
        (JsonV::Array(xs), JsonV::Array(ys), JsonV::Array(zs)) => {
            lemma_all_eq_trans(a, xs, ys, zs, xs.len() as int);
        },
        (JsonV::Object(xs), JsonV::Object(ys), JsonV::Object(zs)) => {
            lemma_all_in_trans(a, xs, ys, zs, xs.len() as int);
        },
        _ => {},
    }
}

proof fn lemma_all_eq_trans(a: JsonV, xs: Seq<JsonV>, ys: Seq<JsonV>, zs: Seq<JsonV>, n: int)
    requires
        a == JsonV::Array(xs),
        0 <= n <= xs.len(),
        all_eq(xs, ys, n),
        all_eq(ys, zs, n),
    ensures
        all_eq(xs, zs, n),
    decreases a, n,
{
    if n > 0 {
        lemma_all_eq_trans(a, xs, ys, zs, n - 1);
        assert(a->Array_0 == xs);
        assert(decreases_to!(a => xs));
        lemma_jeq_trans(xs[n - 1], ys[n - 1], zs[n - 1]);
    }
}

proof fn lemma_all_in_at(ys: Entries, zs: Entries, n: int, j: int)
    requires
        all_in(ys, zs, n),
        0 <= j < n,
    ensures
        obj_get(zs, ys[j].0) matches Some(u) && jeq(ys[j].1, u),
    decreases n,
{
    if j < n - 1 {
        lemma_all_in_at(ys, zs, n - 1, j);
    }
}

proof fn lemma_all_in_trans(a: JsonV, xs: Entries, ys: Entries, zs: Entries, n: int)
    requires
        a == JsonV::Object(xs),
        0 <= n <= xs.len(),
        all_in(xs, ys, n),
        all_in(ys, zs, ys.len() as int),
    ensures
        all_in(xs, zs, n),
    decreases a, n,
{
    if n > 0 {
        lemma_all_in_trans(a, xs, ys, zs, n - 1);
        let k = xs[n - 1].0;
        let w = obj_get(ys, k)->0;
        lemma_key_index(ys, k);
        let j = key_index(ys, k)->0;
        lemma_all_in_at(ys, zs, ys.len() as int, j);
        let u = obj_get(zs, k)->0;
        assert(a->Object_0 == xs);
        assert(decreases_to!(a => xs));
        assert(decreases_to!(xs => xs[n - 1]));
        lemma_jeq_trans(xs[n - 1].1, w, u);
    }
}

/// Two key-unique objects of equal size, each key of the first a key of
/// the second, hold the same keys.
proof fn lemma_keys_back(xs: Entries, ys: Entries)
    requires
        keys_unique(xs),
        keys_unique(ys),
        xs.len() == ys.len(),
        forall|i: int| 0 <= i < xs.len() ==> #[trigger] key_index(ys, xs[i].0) is Some,
    ensures
        forall|j: int| 0 <= j < ys.len() ==> #[trigger] key_index(xs, ys[j].0) is Some,
{
    broadcast use vstd::seq_lib::seq_to_set_is_finite;

    let kx = Seq::new(xs.len(), |i: int| xs[i].0);
    let ky = Seq::new(ys.len(), |j: int| ys[j].0);
    assert(kx.no_duplicates()) by {
        assert forall|i: int, j: int| 0 <= i < kx.len() && 0 <= j < kx.len() && i != j implies kx[i]
            != kx[j] by {
            if i < j {
                assert(xs[i].0 != xs[j].0);
            } else {
                assert(xs[j].0 != xs[i].0);
            }
        }
    }
    assert(ky.no_duplicates()) by {
        assert forall|i: int, j: int| 0 <= i < ky.len() && 0 <= j < ky.len() && i != j implies ky[i]
            != ky[j] by {
            if i < j {
                assert(ys[i].0 != ys[j].0);
            } else {
                assert(ys[j].0 != ys[i].0);
            }
        }
    }
    kx.unique_seq_to_set();
    ky.unique_seq_to_set();
    assert(kx.to_set().subset_of(ky.to_set())) by {
        assert forall|k: Seq<char>| kx.to_set().contains(k) implies ky.to_set().contains(k) by {
            let i = choose|i: int| 0 <= i < kx.len() && kx[i] == k;
            assert(key_index(ys, xs[i].0) is Some);
            lemma_key_index(ys, k);
            let j = key_index(ys, k)->0;
            assert(ky[j] == k);
        }
    }
    vstd::set_lib::lemma_subset_equality(kx.to_set(), ky.to_set());
    assert forall|j: int| 0 <= j < ys.len() implies #[trigger] key_index(xs, ys[j].0) is Some by {
        let k = ys[j].0;
        assert(ky[j] == k);
        assert(ky.to_set().contains(k));
        assert(kx.to_set().contains(k));
        let i = choose|i: int| 0 <= i < kx.len() && kx[i] == k;
        lemma_key_index(xs, k);
        assert(xs[i].0 == k);
    }
}

proof fn lemma_all_in_build(ys: Entries, xs: Entries, n: int)
    requires
        0 <= n <= ys.len(),
        forall|j: int| 0 <= j < n ==> (obj_get(xs, #[trigger] ys[j].0) matches Some(u) && jeq(ys[j].1, u)),
    ensures
        all_in(ys, xs, n),
    decreases n,
{
    if n > 0 {
        lemma_all_in_build(ys, xs, n - 1);
        assert(obj_get(xs, ys[n - 1].0) matches Some(u) && jeq(ys[n - 1].1, u));
    }
}

/// Equality is symmetric on values whose objects hold each key once.
pub proof fn law_json_eq_symmetric(a: JsonV, b: JsonV)
    requires
        json_wf(a),
        json_wf(b),
        jeq(a, b),
    ensures
        jeq(b, a),
    decreases a,
{
    match (a, b) {
        (JsonV::Array(xs), JsonV::Array(ys)) => {
            lemma_all_eq_sym(a, b, xs, ys, xs.len() as int);
        },
        (JsonV::Object(xs), JsonV::Object(ys)) => {
            assert(a->Object_0 == xs);
            assert forall|i: int| 0 <= i < xs.len() implies #[trigger] key_index(ys, xs[i].0) is Some by {
                lemma_all_in_at(xs, ys, xs.len() as int, i);
            }
            lemma_keys_back(xs, ys);
            assert forall|j: int| 0 <= j < ys.len() implies (obj_get(xs, #[trigger] ys[j].0) matches Some(u)
                && jeq(ys[j].1, u)) by {
                let k = ys[j].0;
                assert(key_index(xs, k) is Some);
                lemma_key_index(xs, k);
                let i = key_index(xs, k)->0;
                lemma_all_in_at(xs, ys, xs.len() as int, i);
                lemma_key_index(ys, k);
                let j2 = key_index(ys, k)->0;
                if j2 != j {
                    if j2 < j {
                        assert(ys[j2].0 != ys[j].0);
                    } else {
                        assert(ys[j].0 != ys[j2].0);
                    }
                }
                lemma_all_wf_entries(xs, xs.len() as int, i);
                lemma_all_wf_entries(ys, ys.len() as int, j);
                assert(decreases_to!(a => xs));
                assert(decreases_to!(xs => xs[i]));
                law_json_eq_symmetric(xs[i].1, ys[j].1);
            }
            lemma_all_in_build(ys, xs, ys.len() as int);
        },
        _ => {},
    }
}

proof fn lemma_all_eq_sym(a: JsonV, b: JsonV, xs: Seq<JsonV>, ys: Seq<JsonV>, n: int)
    requires
        a == JsonV::Array(xs),
        b == JsonV::Array(ys),
        json_wf(a),
        json_wf(b),
        0 <= n <= xs.len(),
        all_eq(xs, ys, n),
    ensures
        all_eq(ys, xs, n),
    decreases a, n,
{
    if n > 0 {
        lemma_all_eq_sym(a, b, xs, ys, n - 1);
        assert(a->Array_0 == xs);
        assert(decreases_to!(a => xs));
        lemma_all_wf(xs, xs.len() as int, n - 1);
        lemma_all_wf(ys, ys.len() as int, n - 1);
        law_json_eq_symmetric(xs[n - 1], ys[n - 1]);
    }
}

/// Equal objects (each holding its keys once) have the same keys, and so
/// the same number of entries: an object never equals one with more keys.
pub proof fn law_json_eq_objects_same_keys(xs: Entries, ys: Entries, k: Seq<char>)
    requires
        json_wf(JsonV::Object(xs)),
        json_wf(JsonV::Object(ys)),
        jeq(JsonV::Object(xs), JsonV::Object(ys)),
    ensures
        xs.len() == ys.len(),
        key_index(xs, k) is Some <==> key_index(ys, k) is Some,
{
    law_json_eq_symmetric(JsonV::Object(xs), JsonV::Object(ys));
    lemma_key_index(xs, k);
    lemma_key_index(ys, k);
    if key_index(xs, k) is Some {
        lemma_all_in_at(xs, ys, xs.len() as int, key_index(xs, k)->0);
    }
    if key_index(ys, k) is Some {
        lemma_all_in_at(ys, xs, ys.len() as int, key_index(ys, k)->0);
    }
}

// ------------------------------------------------------------------
// The list update
// ------------------------------------------------------------------

proof fn lemma_present_push(ls: Seq<JsonV>, x: JsonV, item: JsonV)
    requires
        present(ls, item),
    ensures
        present(ls.push(x), item),
{
    let i = choose|i: int| 0 <= i < ls.len() && jeq(#[trigger] ls[i], item);
    assert(ls.push(x)[i] == ls[i]);
}

/// After ensuring `es`, each of its elements is present, and the list only
/// grew at its end.
proof fn lemma_ensured_present(ls: Seq<JsonV>, es: Seq<JsonV>)
    requires
        forall|k: int| 0 <= k < es.len() ==> json_wf(#[trigger] es[k]),
    ensures
        forall|k: int| 0 <= k < es.len() ==> present(ensured(ls, es), #[trigger] es[k]),
        ls.is_prefix_of(ensured(ls, es)),
    decreases es.len(),
{
    if es.len() > 0 {
        let init = es.drop_last();
        assert forall|k: int| 0 <= k < init.len() implies json_wf(#[trigger] init[k]) by {
            assert(init[k] == es[k]);
        }
        lemma_ensured_present(ls, init);
        let prev = ensured(ls, init);
        let cur = ensured(ls, es);
        if !present(prev, es.last()) {
            lemma_jeq_refl(es.last());
            assert(cur[prev.len() as int] == es.last());
            assert forall|k: int| 0 <= k < es.len() implies present(cur, #[trigger] es[k]) by {
                if k < es.len() - 1 {
                    assert(es[k] == init[k]);
                    lemma_present_push(prev, es.last(), es[k]);
                }
            }
        } else {
            assert forall|k: int| 0 <= k < es.len() implies present(cur, #[trigger] es[k]) by {
                if k < es.len() - 1 {
                    assert(es[k] == init[k]);
                }
            }
        }
    }
}

/// Ensuring elements that are all present already changes nothing.
proof fn lemma_ensured_stable(ls: Seq<JsonV>, es: Seq<JsonV>)
    requires
        forall|k: int| 0 <= k < es.len() ==> present(ls, #[trigger] es[k]),
    ensures
        ensured(ls, es) == ls,
    decreases es.len(),
{
    if es.len() > 0 {
        let init = es.drop_last();
        assert forall|k: int| 0 <= k < init.len() implies present(ls, #[trigger] init[k]) by {
            assert(init[k] == es[k]);
        }
        lemma_ensured_stable(ls, init);
        assert(present(ls, es[es.len() - 1]));
    }
}

/// What ensuring appends was absent from the starting list, and is one of
/// the ensured elements; the starting list stays a prefix.
proof fn lemma_ensured_appended(ls: Seq<JsonV>, es: Seq<JsonV>)
    ensures
        ls.is_prefix_of(ensured(ls, es)),
        forall|i: int|
            ls.len() <= i < ensured(ls, es).len() ==> !present(ls, #[trigger] ensured(ls, es)[i]) && exists|k: int|
                0 <= k < es.len() && ensured(ls, es)[i] == #[trigger] es[k],
    decreases es.len(),
{
    if es.len() > 0 {
        let init = es.drop_last();
        lemma_ensured_appended(ls, init);
        let prev = ensured(ls, init);
        let cur = ensured(ls, es);
        let fresh = !present(prev, es.last());
        if fresh {
            assert(!present(ls, es.last())) by {
                if present(ls, es.last()) {
                    let i = choose|i: int| 0 <= i < ls.len() && jeq(#[trigger] ls[i], es.last());
                    assert(prev[i] == ls[i]);
                }
            }
        }
        assert forall|i: int| ls.len() <= i < cur.len() implies !present(ls, #[trigger] cur[i]) && exists|k: int|
            0 <= k < es.len() && cur[i] == #[trigger] es[k] by {
            if i < prev.len() {
                assert(cur[i] == prev[i]);
                let k = choose|k: int| 0 <= k < init.len() && prev[i] == #[trigger] init[k];
                assert(es[k] == init[k]);
            } else {
                assert(cur[i] == es[es.len() - 1]);
            }
        }
    }
}

/// Removing by `rs` keeps a list none of whose elements `rs` matches.
proof fn lemma_kept_all(ls: Seq<JsonV>, rs: Seq<JsonV>)
    requires
        forall|k: int| 0 <= k < ls.len() ==> !matched_by(rs, #[trigger] ls[k]),
    ensures
        kept(ls, rs) == ls,
    decreases ls.len(),
{
    reveal_with_fuel(Seq::filter, 1);
    if ls.len() > 0 {
        let init = ls.drop_last();
        assert forall|k: int| 0 <= k < init.len() implies !matched_by(rs, #[trigger] init[k]) by {
            assert(init[k] == ls[k]);
        }
        lemma_kept_all(init, rs);
        assert(ls.drop_last().push(ls.last()) =~= ls);
    }
}

/// A second pass over a list that starts with `p`, where `p` and the
/// first pass's result from `k` are both prefixes of `u`, ends at the
/// longer of the two prefixes.
proof fn lemma_second_run(k: Seq<JsonV>, p: Seq<JsonV>, es: Seq<JsonV>, u: Seq<JsonV>)
    requires
        forall|i: int| 0 <= i < es.len() ==> json_wf(#[trigger] es[i]),
        p.is_prefix_of(u),
        k.is_prefix_of(p),
        ensured(k, es).is_prefix_of(u),
    ensures
        ensured(p, es) == u.take(
            if ensured(k, es).len() <= p.len() {
                p.len() as int
            } else {
                ensured(k, es).len() as int
            },
        ),
    decreases es.len(),
{
    if es.len() == 0 {
        assert(u.take(p.len() as int) =~= p);
    } else {
        let init = es.drop_last();
        let e = es.last();
        let ut = ensured(k, init);
        let et = ensured(p, init);
        assert forall|i: int| 0 <= i < init.len() implies json_wf(#[trigger] init[i]) by {
            assert(init[i] == es[i]);
        }
        assert(ut.is_prefix_of(u)) by {
            assert forall|i: int| 0 <= i < ut.len() implies ut[i] == u[i] by {
                assert(ensured(k, es)[i] == ut[i]);
            }
        }
        lemma_second_run(k, p, init, u);
        let m = if ut.len() <= p.len() {
            p.len() as int
        } else {
            ut.len() as int
        };
        assert(et == u.take(m));
        if present(ut, e) {
            let i = choose|i: int| 0 <= i < ut.len() && jeq(#[trigger] ut[i], e);
            assert(et[i] == ut[i]);
            assert(present(et, e));
        } else {
            assert(ensured(k, es) == ut.push(e));
            assert(u[ut.len() as int] == e) by {
                assert(ensured(k, es)[ut.len() as int] == e);
            }
            if ut.len() < p.len() {
                lemma_jeq_refl(e);
                assert(et[ut.len() as int] == e);
                assert(present(et, e));
            } else {
                assert(et =~= ut);
                assert(u.take(ut.len() + 1int) =~= ut.push(e));
            }
        }
    }
}

/// Exactly when an update is stable: updating the updated list again gives
/// it back if and only if the removal, applied to the updated list, keeps
/// a prefix of it (the elements a removal entry matches all come after the
/// others; a second run would move them to the end). The ensured elements
/// hold each object key once.
pub proof fn law_list_update_idempotent(cur: Seq<JsonV>, rs: Seq<JsonV>, es: Seq<JsonV>)
    requires
        forall|k: int| 0 <= k < es.len() ==> json_wf(#[trigger] es[k]),
    ensures
        updated_list(updated_list(cur, rs, es), rs, es) == updated_list(cur, rs, es) <==> kept(
            updated_list(cur, rs, es),
            rs,
        ).is_prefix_of(updated_list(cur, rs, es)),
{
    let k = kept(cur, rs);
    let u = updated_list(cur, rs, es);
    let p = kept(u, rs);
    lemma_ensured_present(k, es);
    lemma_ensured_present(p, es);
    assert forall|i: int| 0 <= i < k.len() implies !matched_by(rs, #[trigger] k[i]) by {
        cur.lemma_filter_pred(|x: JsonV| !matched_by(rs, x), i);
    }
    lemma_kept_all(k, rs);
    let tail = u.skip(k.len() as int);
    assert(u =~= k + tail);
    Seq::filter_distributes_over_add(k, tail, |x: JsonV| !matched_by(rs, x));
    assert(k.is_prefix_of(p));
    if p.is_prefix_of(u) {
        lemma_second_run(k, p, es, u);
        assert(u.take(u.len() as int) =~= u);
    }
}

/// Re-running converges: the list a second update produces is a fixed
/// point, whatever the first one did (an ensured element that a removal
/// entry also matches ends up behind the others after the second run and
/// stays there). The ensured elements hold each object key once.
pub proof fn law_list_update_converges(cur: Seq<JsonV>, rs: Seq<JsonV>, es: Seq<JsonV>)
    requires
        forall|k: int| 0 <= k < es.len() ==> json_wf(#[trigger] es[k]),
    ensures
        updated_list(updated_list(updated_list(cur, rs, es), rs, es), rs, es) == updated_list(
            updated_list(cur, rs, es),
            rs,
            es,
        ),
{
    let u1 = updated_list(cur, rs, es);
    let p = kept(u1, rs);
    let u2 = updated_list(u1, rs, es);
    let keep = |x: JsonV| !matched_by(rs, x);
    law_list_update_idempotent(u1, rs, es);
    assert forall|i: int| 0 <= i < p.len() implies !matched_by(rs, #[trigger] p[i]) by {
        u1.lemma_filter_pred(keep, i);
    }
    lemma_kept_all(p, rs);
    lemma_ensured_appended(p, es);
    lemma_ensured_present(kept(cur, rs), es);
    let t = u2.skip(p.len() as int);
    assert(u2 =~= p + t);
    assert forall|i: int| 0 <= i < t.len() implies matched_by(rs, #[trigger] t[i]) by {
        let e = u2[p.len() + i];
        assert(t[i] == e);
        let k = choose|k: int| 0 <= k < es.len() && e == #[trigger] es[k];
        assert(present(u1, es[k]));
        let x_at = choose|x_at: int| 0 <= x_at < u1.len() && jeq(#[trigger] u1[x_at], es[k]);
        let x = u1[x_at];
        if !matched_by(rs, x) {
            u1.lemma_filter_contains(keep, x_at);
            let j = choose|j: int| 0 <= j < p.len() && p[j] == x;
            assert(present(p, e));
        }
        let q = choose|q: int| 0 <= q < rs.len() && jeq(#[trigger] rs[q], x);
        lemma_jeq_trans(rs[q], x, e);
    }
    t.lemma_all_neg_filter_empty(keep);
    Seq::filter_distributes_over_add(p, t, keep);
    assert(kept(u2, rs) =~= p);
}

// ------------------------------------------------------------------
// Objects
// ------------------------------------------------------------------

pub proof fn lemma_insert_get(es: Entries, k: Seq<char>, v: JsonV, k2: Seq<char>)
    ensures
        obj_get(obj_insert(es, k, v), k2) == if k2 == k {
            Some(v)
        } else {
            obj_get(es, k2)
        },
{
    lemma_key_index(es, k);
    lemma_key_index(es, k2);
    let es2 = obj_insert(es, k, v);
    match key_index(es, k) {
        Some(i) => {
            if k2 == k {
                assert forall|j: int| 0 <= j < i implies #[trigger] es2[j].0 != k2 by {
                    assert(es2[j] == es[j]);
                }
                lemma_key_index_at(es2, k2, i);
            } else {
                match key_index(es, k2) {
                    Some(x) => {
                        assert forall|j: int| 0 <= j < x implies #[trigger] es2[j].0 != k2 by {
                            if j != i {
                                assert(es2[j] == es[j]);
                            }
                        }
                        assert(es2[x] == es[x]);
                        lemma_key_index_at(es2, k2, x);
                    },
                    None => {
                        assert forall|j: int| 0 <= j < es2.len() implies #[trigger] es2[j].0 != k2 by {
                            if j != i {
                                assert(es2[j] == es[j]);
                            }
                        }
                        lemma_key_index_at(es2, k2, es2.len() as int);
                    },
                }
            }
        },
        None => {
            if k2 == k {
                assert forall|j: int| 0 <= j < es.len() implies #[trigger] es2[j].0 != k2 by {
                    assert(es2[j] == es[j]);
                }
                lemma_key_index_at(es2, k2, es.len() as int);
            } else {
                match key_index(es, k2) {
                    Some(x) => {
                        assert forall|j: int| 0 <= j < x implies #[trigger] es2[j].0 != k2 by {
                            assert(es2[j] == es[j]);
                        }
                        assert(es2[x] == es[x]);
                        lemma_key_index_at(es2, k2, x);
                    },
                    None => {
                        assert forall|j: int| 0 <= j < es2.len() implies #[trigger] es2[j].0 != k2 by {
                            if j < es.len() {
                                assert(es2[j] == es[j]);
                            }
                        }
                        lemma_key_index_at(es2, k2, es2.len() as int);
                    },
                }
            }
        },
    }
}

/// Inserting the value a key already holds changes nothing.
pub proof fn lemma_insert_same(es: Entries, k: Seq<char>, v: JsonV)
    requires
        obj_get(es, k) == Some(v),
    ensures
        obj_insert(es, k, v) == es,
{
    lemma_key_index(es, k);
    let i = key_index(es, k)->0;
    assert(es.update(i, (k, v)) =~= es);
}

/// Walking `path` to `last_key` in a document whose update succeeded: the
/// list the update starts from.
pub open spec fn list_at(es: Entries, path: Seq<Seq<char>>, last_key: Seq<char>) -> Seq<JsonV>
    decreases path.len(),
{
    if path.len() == 0 {
        match obj_get(es, last_key) {
            Some(JsonV::Array(a)) => a,
            _ => seq![],
        }
    } else {
        let child = match obj_get(es, path[0]) {
            Some(JsonV::Object(c)) => c,
            _ => seq![],
        };
        list_at(child, path.drop_first(), last_key)
    }
}

/// Updating again a document the update produced gives it back, when the
/// list update itself is stable.
proof fn lemma_set_list_twice(
    es: Entries,
    path: Seq<Seq<char>>,
    last_key: Seq<char>,
    rs: Seq<JsonV>,
    ens: Seq<JsonV>,
)
    requires
        set_list(es, path, last_key, rs, ens) is Some,
        updated_list(updated_list(list_at(es, path, last_key), rs, ens), rs, ens) == updated_list(
            list_at(es, path, last_key),
            rs,
            ens,
        ),
    ensures
        set_list(set_list(es, path, last_key, rs, ens)->0, path, last_key, rs, ens) == set_list(
            es,
            path,
            last_key,
            rs,
            ens,
        ),
    decreases path.len(),
{
    let es2 = set_list(es, path, last_key, rs, ens)->0;
    if path.len() == 0 {
        let l = updated_list(list_at(es, path, last_key), rs, ens);
        lemma_insert_get(es, last_key, JsonV::Array(l), last_key);
        assert(obj_get(es2, last_key) == Some(JsonV::Array(l)));
        lemma_insert_same(es2, last_key, JsonV::Array(l));
    } else {
        let child = match obj_get(es, path[0]) {
            Some(JsonV::Object(c)) => c,
            _ => seq![],
        };
        let c2 = set_list(child, path.drop_first(), last_key, rs, ens)->0;
        lemma_insert_get(es, path[0], JsonV::Object(c2), path[0]);
        assert(obj_get(es2, path[0]) == Some(JsonV::Object(c2)));
        lemma_set_list_twice(child, path.drop_first(), last_key, rs, ens);
        lemma_insert_same(es2, path[0], JsonV::Object(c2));
    }
}

/// After a successful update the path leads to the updated list.
proof fn lemma_set_list_result(
    es: Entries,
    path: Seq<Seq<char>>,
    last_key: Seq<char>,
    rs: Seq<JsonV>,
    ens: Seq<JsonV>,
)
    requires
        set_list(es, path, last_key, rs, ens) is Some,
    ensures
        list_at(set_list(es, path, last_key, rs, ens)->0, path, last_key) == updated_list(
            list_at(es, path, last_key),
            rs,
            ens,
        ),
    decreases path.len(),
{
    if path.len() == 0 {
        let l = updated_list(list_at(es, path, last_key), rs, ens);
        lemma_insert_get(es, last_key, JsonV::Array(l), last_key);
    } else {
        let child = match obj_get(es, path[0]) {
            Some(JsonV::Object(c)) => c,
            _ => seq![],
        };
        lemma_set_list_result(child, path.drop_first(), last_key, rs, ens);
        let c2 = set_list(child, path.drop_first(), last_key, rs, ens)->0;
        lemma_insert_get(es, path[0], JsonV::Object(c2), path[0]);
    }
}

/// The JSON update is idempotent exactly when its list update is: applied
/// to the document it produced, it gives that document back (so a second
/// run finds nothing to change) if and only if the removal, applied to the
/// updated list, keeps a prefix of it. The ensured elements hold each
/// object key once.
pub proof fn law_json_update_idempotent(data: JsonV, json_path: Seq<char>, rs: Seq<JsonV>, ens: Seq<JsonV>)
    requires
        json_update(data, json_path, rs, ens) is Ok,
        forall|k: int| 0 <= k < ens.len() ==> json_wf(#[trigger] ens[k]),
    ensures
        json_update(json_update(data, json_path, rs, ens)->Ok_0, json_path, rs, ens) == json_update(
            data,
            json_path,
            rs,
            ens,
        ) <==> ({
            let keys = split_char(json_path, '.');
            let l = updated_list(list_at(data->Object_0, keys.drop_last(), keys.last()), rs, ens);
            kept(l, rs).is_prefix_of(l)
        }),
{
    let keys = split_char(json_path, '.');
    let path = keys.drop_last();
    let es = data->Object_0;
    let cur = list_at(es, path, keys.last());
    let l = updated_list(cur, rs, ens);
    law_list_update_idempotent(cur, rs, ens);
    if kept(l, rs).is_prefix_of(l) {
        lemma_set_list_twice(es, path, keys.last(), rs, ens);
    } else {
        let es2 = set_list(es, path, keys.last(), rs, ens)->0;
        lemma_set_list_result(es, path, keys.last(), rs, ens);
        if set_list(es2, path, keys.last(), rs, ens) == Some(es2) {
            lemma_set_list_result(es2, path, keys.last(), rs, ens);
            assert(updated_list(l, rs, ens) == l);
        }
    }
}

/// An update that succeeded succeeds again on its own result.
proof fn lemma_set_list_again(
    es: Entries,
    path: Seq<Seq<char>>,
    last_key: Seq<char>,
    rs: Seq<JsonV>,
    ens: Seq<JsonV>,
)
    requires
        set_list(es, path, last_key, rs, ens) is Some,
    ensures
        set_list(set_list(es, path, last_key, rs, ens)->0, path, last_key, rs, ens) is Some,
    decreases path.len(),
{
    let es2 = set_list(es, path, last_key, rs, ens)->0;
    if path.len() == 0 {
        let l = updated_list(list_at(es, path, last_key), rs, ens);
        lemma_insert_get(es, last_key, JsonV::Array(l), last_key);
    } else {
        let child = match obj_get(es, path[0]) {
            Some(JsonV::Object(c)) => c,
            _ => seq![],
        };
        lemma_set_list_again(child, path.drop_first(), last_key, rs, ens);
        let c2 = set_list(child, path.drop_first(), last_key, rs, ens)->0;
        lemma_insert_get(es, path[0], JsonV::Object(c2), path[0]);
    }
}

/// Re-running converges to a fixed point: the document a second update
/// produces is updated into itself, whatever the first update did. The
/// ensured elements hold each object key once.
pub proof fn law_json_update_converges(data: JsonV, json_path: Seq<char>, rs: Seq<JsonV>, ens: Seq<JsonV>)
    requires
        json_update(data, json_path, rs, ens) is Ok,
        forall|k: int| 0 <= k < ens.len() ==> json_wf(#[trigger] ens[k]),
    ensures
        json_update(json_update(data, json_path, rs, ens)->Ok_0, json_path, rs, ens) is Ok,
        ({
            let second = json_update(json_update(data, json_path, rs, ens)->Ok_0, json_path, rs, ens);
            json_update(second->Ok_0, json_path, rs, ens) == second
        }),
{
    let keys = split_char(json_path, '.');
    let path = keys.drop_last();
    let es0 = data->Object_0;
    let es1 = set_list(es0, path, keys.last(), rs, ens)->0;
    lemma_set_list_again(es0, path, keys.last(), rs, ens);
    lemma_set_list_result(es0, path, keys.last(), rs, ens);
    law_list_update_converges(list_at(es0, path, keys.last()), rs, ens);
    lemma_set_list_twice(es1, path, keys.last(), rs, ens);
}

/// Every top-level key other than the first key of the path keeps its
/// value (and its place: entries change in place or are appended).
pub proof fn law_json_update_keeps_other_keys(
    data: JsonV,
    json_path: Seq<char>,
    rs: Seq<JsonV>,
    ens: Seq<JsonV>,
    k: Seq<char>,
)
    requires
        json_update(data, json_path, rs, ens) is Ok,
        k != split_char(json_path, '.')[0],
    ensures
        obj_get(json_update(data, json_path, rs, ens)->Ok_0->Object_0, k) == obj_get(data->Object_0, k),
{
    let keys = split_char(json_path, '.');
    crate::markdown::lemma_split_char_len(json_path, '.');
    let es = data->Object_0;
    let path = keys.drop_last();
    if path.len() == 0 {
        let l = updated_list(list_at(es, path, keys.last()), rs, ens);
        assert(keys.last() == keys[0]);
        lemma_insert_get(es, keys.last(), JsonV::Array(l), k);
    } else {
        let child = match obj_get(es, path[0]) {
            Some(JsonV::Object(c)) => c,
            _ => seq![],
        };
        let c2 = set_list(child, path.drop_first(), keys.last(), rs, ens)->0;
        assert(path[0] == keys[0]);
        lemma_insert_get(es, path[0], JsonV::Object(c2), k);
    }
}

} // verus!
