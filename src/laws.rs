use vstd::prelude::*;

use crate::align::{delete_tag, equal_tag, insert_tag, opcodes_for, replace_tag};
use crate::model::{
    added_members, change_pair, deleted_members, diff_spec, first_pass, full_score, identical_object_score, key_delta, ops_spec,
    range_spec, second_pass, shared_spec, tag_range,
};
use crate::render::{
    added_suffix, deeper, deleted_suffix, ends_with, is_change_pair, key_prefix, line, looks_like_diff, new_key, old_key,
    render, render_items, render_members, render_tagged, render_top,
};
use crate::value::{Json, depth, has_key, key_index_from, lemma_depth_items, lemma_depth_members};

verus! {

/// With `keys_only`, two leaves never differ, whatever their values.
pub proof fn lemma_keys_only_ignores_leaves(a: Json, b: Json)
    requires
        !a.is_container(),
        !b.is_container(),
    ensures
        diff_spec(a, b, true) == (full_score(), None::<Json>),
{
}

/// Two values that are not both objects nor both arrays differ one way
/// exactly when they differ the other way.
pub proof fn lemma_leaf_detection_symmetric(a: Json, b: Json, keys_only: bool)
    requires
        !(a is Object && b is Object),
        !(a is Array && b is Array),
    ensures
        diff_spec(a, b, keys_only).1 is None <==> diff_spec(b, a, keys_only).1 is None,
{
}


/// A tree in which no array occurs.
pub open spec fn array_free(v: Json) -> bool
    decreases v,
{
    match v {
        Json::Array(_) => false,
        Json::Object(es) => forall|i: int| 0 <= i < es.len() ==> array_free(#[trigger] es[i].1),
        _ => true,
    }
}

proof fn lemma_no_deleted(o: Seq<(Seq<char>, Json)>, n: int)
    requires
        0 <= n <= o.len(),
    ensures
        deleted_members(o, o, n).len() == 0,
    decreases n,
{
    if n > 0 {
        lemma_no_deleted(o, n - 1);
        assert(has_key(o, o[n - 1].0));
    }
}

proof fn lemma_no_added(o: Seq<(Seq<char>, Json)>, n: int)
    requires
        0 <= n <= o.len(),
    ensures
        added_members(o, o, n).len() == 0,
    decreases n,
{
    if n > 0 {
        lemma_no_added(o, n - 1);
        assert(has_key(o, o[n - 1].0));
    }
}

/// With unique keys, the first member under the key of member `i` is `i`.
proof fn lemma_key_index_unique(o: Seq<(Seq<char>, Json)>, i: int, s: int)
    requires
        0 <= s <= i < o.len(),
        forall|x: int, y: int| 0 <= x < y < o.len() ==> (#[trigger] o[x]).0 != (#[trigger] o[y]).0,
    ensures
        key_index_from(o, o[i].0, s) == i,
    decreases i - s,
{
    if s < i {
        assert(o[s].0 != o[i].0);
        lemma_key_index_unique(o, i, s + 1);
    }
}

proof fn lemma_shared_unchanged(v: Json, n: int)
    requires
        v is Object,
        v.wf(),
        array_free(v),
        0 <= n <= v->Object_0.len(),
    ensures
        shared_spec(v, v, false, n).1.len() == 0,
    decreases depth(v), 0nat, n,
{
    if n > 0 {
        let o = v->Object_0;
        lemma_shared_unchanged(v, n - 1);
        lemma_key_index_unique(o, n - 1, 0);
        lemma_depth_members(o, o.len() as int, n - 1);
        assert(o[n - 1].1.wf());
        assert(array_free(o[n - 1].1));
        lemma_reflexive_without_arrays(o[n - 1].1);
    }
}

/// A well-formed tree without arrays compared with itself shows no
/// difference, and scores 100 points (an object: 100 points a member, 50
/// when empty).
pub proof fn lemma_reflexive_without_arrays(v: Json)
    requires
        v.wf(),
        array_free(v),
    ensures
        diff_spec(v, v, false).1 is None,
        diff_spec(v, v, false).0 == if v is Object {
            identical_object_score(v->Object_0.len() as int)
        } else {
            full_score()
        },
    decreases depth(v), 1nat, 0int,
{
    if v is Object {
        let o = v->Object_0;
        lemma_no_deleted(o, o.len() as int);
        lemma_no_added(o, o.len() as int);
        lemma_shared_unchanged(v, o.len() as int);
    }
}

} // verus!

verus! {

proof fn lemma_key_index_from(o: Seq<(Seq<char>, Json)>, k: Seq<char>, s: int)
    requires
        0 <= s,
    ensures
        key_index_from(o, k, s) >= 0 <==> exists|i: int| s <= i < o.len() && (#[trigger] o[i]).0 == k,
        key_index_from(o, k, s) >= 0 ==> s <= key_index_from(o, k, s) < o.len() && o[key_index_from(o, k, s)].0 == k,
    decreases o.len() - s,
{
    if s < o.len() {
        lemma_key_index_from(o, k, s + 1);
        if o[s].0 != k {
            assert forall|i: int| s <= i < o.len() && (#[trigger] o[i]).0 == k implies s + 1 <= i by {}
        }
    }
}

proof fn lemma_key_index(o: Seq<(Seq<char>, Json)>, k: Seq<char>)
    ensures
        key_index_from(o, k, 0) >= 0 <==> has_key(o, k),
        key_index_from(o, k, 0) >= 0 ==> key_index_from(o, k, 0) < o.len() && o[key_index_from(o, k, 0)].0 == k,
{
    lemma_key_index_from(o, k, 0);
}

proof fn lemma_deleted_empty(o1: Seq<(Seq<char>, Json)>, o2: Seq<(Seq<char>, Json)>, n: int)
    requires
        0 <= n <= o1.len(),
    ensures
        deleted_members(o1, o2, n).len() == 0 <==> forall|i: int| 0 <= i < n ==> has_key(o2, (#[trigger] o1[i]).0),
    decreases n,
{
    if n > 0 {
        lemma_deleted_empty(o1, o2, n - 1);
    }
}

proof fn lemma_added_empty(o1: Seq<(Seq<char>, Json)>, o2: Seq<(Seq<char>, Json)>, n: int)
    requires
        0 <= n <= o2.len(),
    ensures
        added_members(o1, o2, n).len() == 0 <==> forall|j: int| 0 <= j < n ==> has_key(o1, (#[trigger] o2[j]).0),
    decreases n,
{
    if n > 0 {
        lemma_added_empty(o1, o2, n - 1);
    }
}

/// Member `i` of `a`, if `b` has its key, compares without difference.
pub open spec fn member_unchanged(a: Json, b: Json, keys_only: bool, i: int) -> bool {
    let o1 = a->Object_0;
    let o2 = b->Object_0;
    let j = key_index_from(o2, o1[i].0, 0);
    0 <= j < o2.len() ==> diff_spec(o1[i].1, o2[j].1, keys_only).1 is None
}

proof fn lemma_shared_empty(a: Json, b: Json, keys_only: bool, n: int)
    requires
        a is Object,
        b is Object,
        0 <= n <= a->Object_0.len(),
    ensures
        shared_spec(a, b, keys_only, n).1.len() == 0
            <==> forall|i: int| 0 <= i < n ==> #[trigger] member_unchanged(a, b, keys_only, i),
    decreases n,
{
    if n > 0 {
        lemma_shared_empty(a, b, keys_only, n - 1);
        let prev = shared_spec(a, b, keys_only, n - 1);
        let cur = shared_spec(a, b, keys_only, n);
        assert(cur.1.len() == prev.1.len() + if member_unchanged(a, b, keys_only, n - 1) { 0int } else { 1int });
        if prev.1.len() == 0 && member_unchanged(a, b, keys_only, n - 1) {
            assert forall|i: int| 0 <= i < n implies #[trigger] member_unchanged(a, b, keys_only, i) by {
                if i < n - 1 {
                    assert(member_unchanged(a, b, keys_only, i));
                }
            }
        }
    }
}

/// Whether two well-formed trees without arrays differ does not depend on
/// the order in which they are compared.
pub proof fn lemma_detection_symmetric_without_arrays(a: Json, b: Json, keys_only: bool)
    requires
        a.wf(),
        b.wf(),
        array_free(a),
        array_free(b),
    ensures
        diff_spec(a, b, keys_only).1 is None <==> diff_spec(b, a, keys_only).1 is None,
    decreases depth(a) + depth(b),
{
    if a is Object && b is Object {
        let o1 = a->Object_0;
        let o2 = b->Object_0;
        lemma_deleted_empty(o1, o2, o1.len() as int);
        lemma_added_empty(o1, o2, o2.len() as int);
        lemma_deleted_empty(o2, o1, o2.len() as int);
        lemma_added_empty(o2, o1, o1.len() as int);
        lemma_shared_empty(a, b, keys_only, o1.len() as int);
        lemma_shared_empty(b, a, keys_only, o2.len() as int);
        let same_keys = (forall|i: int| 0 <= i < o1.len() ==> has_key(o2, (#[trigger] o1[i]).0))
            && (forall|j: int| 0 <= j < o2.len() ==> has_key(o1, (#[trigger] o2[j]).0));
        if same_keys {
            assert forall|j: int| 0 <= j < o2.len() && (forall|i: int| 0 <= i < o1.len() ==> #[trigger] member_unchanged(a, b, keys_only, i))
                implies #[trigger] member_unchanged(b, a, keys_only, j) by {
                lemma_key_index(o1, o2[j].0);
                let i = key_index_from(o1, o2[j].0, 0);
                assert(has_key(o1, o2[j].0));
                lemma_key_index_unique(o2, j, 0);
                assert(member_unchanged(a, b, keys_only, i));
                assert(o2[j].1.wf() && o1[i].1.wf());
                assert(array_free(o2[j].1) && array_free(o1[i].1));
                lemma_depth_members(o1, o1.len() as int, i);
                lemma_depth_members(o2, o2.len() as int, j);
                lemma_detection_symmetric_without_arrays(o1[i].1, o2[j].1, keys_only);
            }
            assert forall|i: int| 0 <= i < o1.len() && (forall|j: int| 0 <= j < o2.len() ==> #[trigger] member_unchanged(b, a, keys_only, j))
                implies #[trigger] member_unchanged(a, b, keys_only, i) by {
                lemma_key_index(o2, o1[i].0);
                let j = key_index_from(o2, o1[i].0, 0);
                assert(has_key(o2, o1[i].0));
                lemma_key_index_unique(o1, i, 0);
                assert(member_unchanged(b, a, keys_only, j));
                assert(o2[j].1.wf() && o1[i].1.wf());
                assert(array_free(o2[j].1) && array_free(o1[i].1));
                lemma_depth_members(o1, o1.len() as int, i);
                lemma_depth_members(o2, o2.len() as int, j);
                lemma_detection_symmetric_without_arrays(o1[i].1, o2[j].1, keys_only);
            }
        }
    }
}


} // verus!

verus! {

/// No object in the tree has a member named `__old` or `__new`.
pub open spec fn no_pair_keys(v: Json) -> bool
    decreases v,
{
    match v {
        Json::Array(s) => forall|i: int| 0 <= i < s.len() ==> no_pair_keys(#[trigger] s[i]),
        Json::Object(es) => forall|i: int| 0 <= i < es.len() ==> {
            &&& (#[trigger] es[i]).0 != old_key()
            &&& es[i].0 != new_key()
            &&& no_pair_keys(es[i].1)
        },
        _ => true,
    }
}

/// No changed leaf is reported in a diff tree: no `{"__old", "__new"}` pair
/// is reached from the root through shared members (keys without a
/// `__deleted` or `__added` suffix) and `["~", x]` entries.
pub open spec fn no_leaf_change(t: Json) -> bool
    decreases t, 0int,
{
    match t {
        Json::Object(es) => !is_change_pair(es) && members_without_change(es, es.len() as int),
        Json::Array(items) => entries_without_change(items, items.len() as int),
        _ => true,
    }
}

pub open spec fn members_without_change(es: Seq<(Seq<char>, Json)>, n: int) -> bool
    decreases es, n,
{
    if n <= 0 || n > es.len() {
        true
    } else {
        members_without_change(es, n - 1) && (ends_with(es[n - 1].0, deleted_suffix())
            || ends_with(es[n - 1].0, added_suffix()) || no_leaf_change(es[n - 1].1))
    }
}

pub open spec fn entries_without_change(items: Seq<Json>, n: int) -> bool
    decreases items, n,
{
    if n <= 0 || n > items.len() {
        true
    } else {
        entries_without_change(items, n - 1) && match items[n - 1] {
            Json::Array(x) => if x.len() == 2 && x[0] == Json::Str(seq!['~']) {
                no_leaf_change(x[1])
            } else {
                true
            },
            _ => true,
        }
    }
}

pub open spec fn member_clean(m: (Seq<char>, Json)) -> bool {
    ends_with(m.0, deleted_suffix()) || ends_with(m.0, added_suffix()) || no_leaf_change(m.1)
}

pub open spec fn entry_clean(e: Json) -> bool {
    match e {
        Json::Array(x) => x.len() == 2 && x[0] == Json::Str(seq!['~']) ==> no_leaf_change(x[1]),
        _ => true,
    }
}

proof fn lemma_members_all(es: Seq<(Seq<char>, Json)>, n: int)
    requires
        0 <= n <= es.len(),
        forall|i: int| 0 <= i < n ==> member_clean(#[trigger] es[i]),
    ensures
        members_without_change(es, n),
    decreases n,
{
    if n > 0 {
        lemma_members_all(es, n - 1);
        assert(member_clean(es[n - 1]));
    }
}

proof fn lemma_entries_all(items: Seq<Json>, n: int)
    requires
        0 <= n <= items.len(),
        forall|i: int| 0 <= i < n ==> entry_clean(#[trigger] items[i]),
    ensures
        entries_without_change(items, n),
    decreases n,
{
    if n > 0 {
        lemma_entries_all(items, n - 1);
        assert(entry_clean(items[n - 1]));
    }
}

proof fn lemma_suffixed(k: Seq<char>, suffix: Seq<char>)
    ensures
        ends_with(k + suffix, suffix),
{
    assert((k + suffix).subrange(k.len() as int, (k + suffix).len() as int) =~= suffix);
}

proof fn lemma_deleted_suffixed(o1: Seq<(Seq<char>, Json)>, o2: Seq<(Seq<char>, Json)>, n: int)
    ensures
        forall|i: int| 0 <= i < deleted_members(o1, o2, n).len() ==> ends_with(
            (#[trigger] deleted_members(o1, o2, n)[i]).0, deleted_suffix()),
    decreases n,
{
    if n > 0 && n <= o1.len() {
        lemma_deleted_suffixed(o1, o2, n - 1);
        lemma_suffixed(o1[n - 1].0, deleted_suffix());
        let prev = deleted_members(o1, o2, n - 1);
        assert forall|i: int| 0 <= i < deleted_members(o1, o2, n).len() implies ends_with(
            (#[trigger] deleted_members(o1, o2, n)[i]).0, deleted_suffix()) by {
            if i < prev.len() {
                assert(deleted_members(o1, o2, n)[i] == prev[i]);
            }
        }
    }
}

proof fn lemma_added_suffixed(o1: Seq<(Seq<char>, Json)>, o2: Seq<(Seq<char>, Json)>, n: int)
    ensures
        forall|i: int| 0 <= i < added_members(o1, o2, n).len() ==> ends_with(
            (#[trigger] added_members(o1, o2, n)[i]).0, added_suffix()),
    decreases n,
{
    if n > 0 && n <= o2.len() {
        lemma_added_suffixed(o1, o2, n - 1);
        lemma_suffixed(o2[n - 1].0, added_suffix());
        let prev = added_members(o1, o2, n - 1);
        assert forall|i: int| 0 <= i < added_members(o1, o2, n).len() implies ends_with(
            (#[trigger] added_members(o1, o2, n)[i]).0, added_suffix()) by {
            if i < prev.len() {
                assert(added_members(o1, o2, n)[i] == prev[i]);
            }
        }
    }
}

proof fn lemma_shared_clean(a: Json, b: Json, n: int)
    requires
        a is Object,
        b is Object,
        no_pair_keys(a),
        no_pair_keys(b),
    ensures
        forall|i: int| 0 <= i < shared_spec(a, b, true, n).1.len() ==> {
            &&& member_clean(#[trigger] shared_spec(a, b, true, n).1[i])
            &&& shared_spec(a, b, true, n).1[i].0 != old_key()
        },
    decreases depth(a) + depth(b), 1nat, n,
{
    if n > 0 && n <= a->Object_0.len() {
        lemma_shared_clean(a, b, n - 1);
        let o1 = a->Object_0;
        let o2 = b->Object_0;
        let prev = shared_spec(a, b, true, n - 1);
        let j = key_index_from(o2, o1[n - 1].0, 0);
        if 0 <= j < o2.len() {
            lemma_depth_members(o1, o1.len() as int, n - 1);
            lemma_depth_members(o2, o2.len() as int, j);
            assert(no_pair_keys(o1[n - 1].1));
            assert(no_pair_keys(o2[j].1));
            assert(o1[n - 1].0 != old_key());
            lemma_keys_only_hides_leaf_changes(o1[n - 1].1, o2[j].1);
            let cur = shared_spec(a, b, true, n).1;
            assert forall|i: int| 0 <= i < cur.len() implies member_clean(#[trigger] cur[i]) && cur[i].0 != old_key() by {
                if i < prev.1.len() {
                    assert(cur[i] == prev.1[i]);
                }
            }
        }
    }
}

proof fn lemma_range_clean(a: Json, b: Json, is_equal: bool, fs: int, ss: int, t: int)
    requires
        a is Array,
        b is Array,
        no_pair_keys(a),
        no_pair_keys(b),
    ensures
        forall|i: int| 0 <= i < range_spec(a, b, true, is_equal, fs, ss, t).1.len()
            ==> entry_clean(#[trigger] range_spec(a, b, true, is_equal, fs, ss, t).1[i]),
    decreases depth(a) + depth(b), 0nat, t,
{
    if t > 0 {
        lemma_range_clean(a, b, is_equal, fs, ss, t - 1);
        let a1 = a->Array_0;
        let a2 = b->Array_0;
        let p = fs + t - 1;
        let q = ss + t - 1;
        let prev = range_spec(a, b, true, is_equal, fs, ss, t - 1);
        if 0 <= p < a1.len() && 0 <= q < a2.len() {
            lemma_depth_items(a1, a1.len() as int, p);
            lemma_depth_items(a2, a2.len() as int, q);
            assert(no_pair_keys(a1[p]));
            assert(no_pair_keys(a2[q]));
            lemma_keys_only_hides_leaf_changes(a1[p], a2[q]);
            let cur = range_spec(a, b, true, is_equal, fs, ss, t).1;
            assert(seq![' '][0] != seq!['~'][0]);
            assert forall|i: int| 0 <= i < cur.len() implies entry_clean(#[trigger] cur[i]) by {
                if i < prev.1.len() {
                    assert(cur[i] == prev.1[i]);
                }
            }
        }
    }
}

proof fn lemma_ops_clean(a: Json, b: Json, ops: Seq<(Seq<char>, int, int, int, int)>, n: int)
    requires
        a is Array,
        b is Array,
        no_pair_keys(a),
        no_pair_keys(b),
    ensures
        forall|i: int| 0 <= i < ops_spec(a, b, true, ops, n).1.len()
            ==> entry_clean(#[trigger] ops_spec(a, b, true, ops, n).1[i]),
    decreases depth(a) + depth(b), 1nat, n,
{
    if n > 0 && n <= ops.len() {
        lemma_ops_clean(a, b, ops, n - 1);
        let o = ops[n - 1];
        let prev = ops_spec(a, b, true, ops, n - 1).1;
        let cur = ops_spec(a, b, true, ops, n).1;
        let len = if o.2 - o.1 < o.4 - o.3 { o.2 - o.1 } else { o.4 - o.3 };
        lemma_range_clean(a, b, o.0 == equal_tag(), o.1, o.3, len);
        assert(seq!['-'][0] != seq!['~'][0]);
        assert(seq!['+'][0] != seq!['~'][0]);
        let is_eq = o.0 == equal_tag();
        let is_rep = o.0 == replace_tag();
        let is_del = o.0 == delete_tag();
        let is_ins = o.0 == insert_tag();
        let dels = if is_del || is_rep { tag_range('-', a->Array_0, o.1, o.2) } else { Seq::empty() };
        let ins = if is_ins || is_rep { tag_range('+', b->Array_0, o.3, o.4) } else { Seq::empty() };
        let r = range_spec(a, b, true, is_eq, o.1, o.3, len);
        assert forall|i: int| 0 <= i < cur.len() implies entry_clean(#[trigger] cur[i]) by {
            if i < prev.len() {
                assert(cur[i] == prev[i]);
            } else if is_eq || is_rep {
                assert(cur[i] == r.1[i - prev.len()]);
            } else if i - prev.len() < dels.len() {
                assert(cur[i] == dels[i - prev.len()]);
                assert(cur[i]->Array_0[0] == Json::Str(seq!['-']));
            } else {
                assert(cur[i] == ins[i - prev.len() - dels.len()]);
                assert(cur[i]->Array_0[0] == Json::Str(seq!['+']));
            }
        }
    }
}

/// With `keys_only`, a changed leaf is never reported, at any depth: no
/// `{"__old", "__new"}` pair is reached through shared members and `~`
/// entries, for values that do not use those two keys themselves.
pub proof fn lemma_keys_only_hides_leaf_changes(a: Json, b: Json)
    requires
        no_pair_keys(a),
        no_pair_keys(b),
    ensures
        diff_spec(a, b, true).1 is Some ==> no_leaf_change(diff_spec(a, b, true).1->Some_0),
    decreases depth(a) + depth(b), 2nat, 0int,
{
    if a is Object && b is Object {
        let o1 = a->Object_0;
        let o2 = b->Object_0;
        let delta = key_delta(o1, o2);
        let dels = deleted_members(o1, o2, o1.len() as int);
        let adds = added_members(o1, o2, o2.len() as int);
        let shared = shared_spec(a, b, true, o1.len() as int).1;
        lemma_deleted_suffixed(o1, o2, o1.len() as int);
        lemma_added_suffixed(o1, o2, o2.len() as int);
        lemma_shared_clean(a, b, o1.len() as int);
        let es = delta + shared;
        assert forall|i: int| 0 <= i < es.len() implies member_clean(#[trigger] es[i]) && es[i].0 != old_key() by {
            if i < dels.len() {
                assert(es[i] == dels[i]);
                assert(es[i].0.len() >= 9);
            } else if i < delta.len() {
                assert(es[i] == adds[i - dels.len()]);
                assert(es[i].0.len() >= 7);
            } else {
                assert(es[i] == shared[i - delta.len()]);
            }
        }
        if es.len() > 0 {
            assert(es[0].0 != old_key());
            assert(es.len() == 2 ==> es[1].0 != old_key());
        }
        lemma_members_all(es, es.len() as int);
    } else if a is Array && b is Array {
        let a1 = a->Array_0;
        let a2 = b->Array_0;
        let firsts = first_pass(a1, a2, a1.len() as int);
        let seconds = second_pass(a, b, a2.len() as int);
        let ops = opcodes_for(firsts.0, seconds.0);
        lemma_ops_clean(a, b, ops, ops.len() as int);
        let entries = ops_spec(a, b, true, ops, ops.len() as int).1;
        lemma_entries_all(entries, entries.len() as int);
    }
}

} // verus!

verus! {

/// A tree that renders without markers of its own: no change pair, no key
/// with a `__deleted` or `__added` suffix, no non-empty array whose elements
/// all look like diff entries.
pub open spec fn plain(x: Json) -> bool
    decreases x,
{
    match x {
        Json::Object(es) => !is_change_pair(es) && forall|i: int| 0 <= i < es.len() ==> {
            &&& !ends_with((#[trigger] es[i]).0, deleted_suffix())
            &&& !ends_with(es[i].0, added_suffix())
            &&& plain(es[i].1)
        },
        Json::Array(items) => (items.len() == 0 || !looks_like_diff(items))
            && forall|i: int| 0 <= i < items.len() ==> plain(#[trigger] items[i]),
        _ => true,
    }
}

/// The lines with their first character, the marker, replaced by `m`.
pub open spec fn remarked(lines: Seq<Seq<char>>, m: char) -> Seq<Seq<char>> {
    Seq::new(lines.len(), |i: int| seq![m] + lines[i].drop_first())
}

proof fn lemma_remarked_concat(x: Seq<Seq<char>>, y: Seq<Seq<char>>, m: char)
    ensures
        remarked(x + y, m) == remarked(x, m) + remarked(y, m),
{
    assert(remarked(x + y, m) =~= remarked(x, m) + remarked(y, m));
}

proof fn lemma_remarked_line(m: char, t: Seq<char>)
    ensures
        remarked(seq![line(' ', t)], m) == seq![line(m, t)],
{
    assert((seq![' '] + t).drop_first() =~= t);
    assert(remarked(seq![line(' ', t)], m) =~= seq![line(m, t)]);
}

proof fn lemma_render_remarked(prefix: Seq<char>, x: Json, m: char, indent: Seq<char>)
    requires
        plain(x),
    ensures
        render(prefix, x, m, indent) == remarked(render(prefix, x, ' ', indent), m),
    decreases x, 0int,
{
    match x {
        Json::Object(es) => {
            let sub = deeper(indent);
            lemma_members_remarked(es, es.len() as int, m, sub);
            let first = indent + prefix + seq!['{'];
            let last = indent + seq!['}'];
            lemma_remarked_line(m, first);
            lemma_remarked_line(m, last);
            lemma_remarked_concat(seq![line(' ', first)], render_members(es, es.len() as int, ' ', sub), m);
            lemma_remarked_concat(seq![line(' ', first)] + render_members(es, es.len() as int, ' ', sub), seq![line(' ', last)], m);
        },
        Json::Array(items) => {
            let sub = deeper(indent);
            let first = indent + prefix + seq!['['];
            let last = indent + seq![']'];
            lemma_remarked_line(m, first);
            lemma_remarked_line(m, last);
            if items.len() == 0 {
                assert(render_tagged(items, 0, sub) == render_items(items, 0, m, sub));
                assert(remarked(Seq::<Seq<char>>::empty(), m) =~= Seq::<Seq<char>>::empty());
            } else {
                lemma_items_remarked(items, items.len() as int, m, sub);
            }
            let mid = if looks_like_diff(items) {
                render_tagged(items, items.len() as int, sub)
            } else {
                render_items(items, items.len() as int, ' ', sub)
            };
            lemma_remarked_concat(seq![line(' ', first)], mid, m);
            lemma_remarked_concat(seq![line(' ', first)] + mid, seq![line(' ', last)], m);
        },
        _ => {
            lemma_remarked_line(m, indent + prefix + x.leaf_text());
        },
    }
}

proof fn lemma_members_remarked(es: Seq<(Seq<char>, Json)>, n: int, m: char, indent: Seq<char>)
    requires
        0 <= n <= es.len(),
        forall|i: int| 0 <= i < es.len() ==> {
            &&& !ends_with((#[trigger] es[i]).0, deleted_suffix())
            &&& !ends_with(es[i].0, added_suffix())
            &&& plain(es[i].1)
        },
    ensures
        render_members(es, n, m, indent) == remarked(render_members(es, n, ' ', indent), m),
    decreases es, n,
{
    if n > 0 {
        lemma_members_remarked(es, n - 1, m, indent);
        let (k, v) = es[n - 1];
        assert(!ends_with(es[n - 1].0, deleted_suffix()) && !ends_with(es[n - 1].0, added_suffix()) && plain(es[n - 1].1));
        lemma_render_remarked(key_prefix(k), v, m, indent);
        lemma_remarked_concat(render_members(es, n - 1, ' ', indent), render(key_prefix(k), v, ' ', indent), m);
    } else {
        assert(remarked(Seq::<Seq<char>>::empty(), m) =~= Seq::<Seq<char>>::empty());
    }
}

proof fn lemma_items_remarked(items: Seq<Json>, n: int, m: char, indent: Seq<char>)
    requires
        0 <= n <= items.len(),
        forall|i: int| 0 <= i < items.len() ==> plain(#[trigger] items[i]),
    ensures
        render_items(items, n, m, indent) == remarked(render_items(items, n, ' ', indent), m),
    decreases items, n,
{
    if n > 0 {
        lemma_items_remarked(items, n - 1, m, indent);
        assert(plain(items[n - 1]));
        lemma_render_remarked(Seq::empty(), items[n - 1], m, indent);
        lemma_remarked_concat(render_items(items, n - 1, ' ', indent), render(Seq::empty(), items[n - 1], ' ', indent), m);
    } else {
        assert(remarked(Seq::<Seq<char>>::empty(), m) =~= Seq::<Seq<char>>::empty());
    }
}

/// A change `{"__old": x, "__new": y}` renders as the lines of `x` under
/// `-`, then the lines of `y` under `+`, with no lines of its own, for
/// values that hold no diff markers themselves.
pub proof fn lemma_change_pair_renders_old_then_new(x: Json, y: Json)
    requires
        plain(x),
        plain(y),
    ensures
        render_top(change_pair(x, y)) == remarked(render_top(x), '-') + remarked(render_top(y), '+'),
{
    let es = seq![(old_key(), x), (new_key(), y)];
    assert(is_change_pair(es));
    assert(es[0].0 == old_key());
    lemma_render_remarked(Seq::empty(), x, '-', Seq::empty());
    lemma_render_remarked(Seq::empty(), y, '+', Seq::empty());
}

} // verus!
