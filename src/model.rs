use vstd::prelude::*;

use crate::align::{delete_tag, equal_tag, insert_tag, opcodes_for, replace_tag, Opcode};
use crate::diff::JsonDiff;
use crate::render::{added_suffix, deleted_suffix, looks_like_diff, new_key, old_key, render_top, text_of};
use crate::value::{Json, Value, depth, has_key, key_index_from, lemma_depth_items, lemma_depth_members};

verus! {

/// 100 points: the score of values without difference.
pub open spec fn full_score() -> int {
    100_000
}

pub open spec fn score_bound() -> int {
    100_000int * 0x1_0000_0000_0000_0000int
}

/// `{"__old": a, "__new": b}`.
pub open spec fn change_pair(a: Json, b: Json) -> Json {
    Json::Object(seq![(old_key(), a), (new_key(), b)])
}

/// `"<key>__deleted"` members for the first `n` members of `o1` that `o2` lacks.
pub open spec fn deleted_members(o1: Seq<(Seq<char>, Json)>, o2: Seq<(Seq<char>, Json)>, n: int) -> Seq<(Seq<char>, Json)>
    decreases n,
{
    if n <= 0 || n > o1.len() {
        Seq::empty()
    } else {
        deleted_members(o1, o2, n - 1) + if !has_key(o2, o1[n - 1].0) {
            seq![(o1[n - 1].0 + deleted_suffix(), o1[n - 1].1)]
        } else {
            Seq::empty()
        }
    }
}

/// `"<key>__added"` members for the first `n` members of `o2` that `o1` lacks.
pub open spec fn added_members(o1: Seq<(Seq<char>, Json)>, o2: Seq<(Seq<char>, Json)>, n: int) -> Seq<(Seq<char>, Json)>
    decreases n,
{
    if n <= 0 || n > o2.len() {
        Seq::empty()
    } else {
        added_members(o1, o2, n - 1) + if !has_key(o1, o2[n - 1].0) {
            seq![(o2[n - 1].0 + added_suffix(), o2[n - 1].1)]
        } else {
            Seq::empty()
        }
    }
}

/// The removed members, then the added ones, in the order of their objects.
pub open spec fn key_delta(o1: Seq<(Seq<char>, Json)>, o2: Seq<(Seq<char>, Json)>) -> Seq<(Seq<char>, Json)> {
    deleted_members(o1, o2, o1.len() as int) + added_members(o1, o2, o2.len() as int)
}

/// The score of an object compared with an equal one: 50 points when it is
/// empty, else 100 points a member.
pub open spec fn identical_object_score(n: int) -> int {
    if n == 0 { 50_000 } else { 100_000 * n }
}

/// Two values of which at least one is a leaf, or of different kinds.
pub open spec fn leaf_outcome(a: Json, b: Json, keys_only: bool, r: JsonDiff) -> bool {
    if !keys_only && a != b {
        r.score == 0 && r.diff is Some && r.diff->Some_0@ == change_pair(a, b)
    } else {
        r.score == full_score() && r.diff is None
    }
}

pub open spec fn object_outcome(o1: Seq<(Seq<char>, Json)>, o2: Seq<(Seq<char>, Json)>, r: JsonDiff) -> bool {
    let delta = key_delta(o1, o2);
    &&& r.diff is None ==> delta.len() == 0 && r.score == identical_object_score(o1.len() as int)
    &&& delta.len() > 0 ==> r.diff is Some
    &&& r.diff is Some ==> r.diff->Some_0@ is Object && {
        let es = r.diff->Some_0@->Object_0;
        &&& delta.len() <= es.len()
        &&& es.subrange(0, delta.len() as int) == delta
        &&& forall|j: int| delta.len() <= j < es.len() ==> has_key(o1, (#[trigger] es[j]).0) && has_key(o2, es[j].0)
    }
}

pub open spec fn array_outcome(r: JsonDiff) -> bool {
    &&& r.diff is None ==> r.score == full_score()
    &&& r.diff is Some ==> r.diff->Some_0@ is Array && looks_like_diff(r.diff->Some_0@->Array_0)
}

/// What comparing `a` with `b` gives: for two objects, the removed and
/// added members first, then changed shared members; for two arrays, an
/// array diff of tagged entries; otherwise `{"__old", "__new"}` when the
/// values differ and only keys are not compared, else no difference.
pub open spec fn diff_outcome(a: Json, b: Json, keys_only: bool, r: JsonDiff) -> bool {
    &&& r.score == diff_spec(a, b, keys_only).0
    &&& tree_view(r.diff) == diff_spec(a, b, keys_only).1
    &&& 0 <= r.score <= score_bound()
    &&& (a is Array && b is Array && !keys_only && r.diff is None) ==> a->Array_0.len() == b->Array_0.len()
    &&& if a is Object && b is Object {
        object_outcome(a->Object_0, b->Object_0, r)
    } else if a is Array && b is Array {
        array_outcome(r)
    } else {
        leaf_outcome(a, b, keys_only, r)
    }
}

pub open spec fn tree_view(d: Option<Value>) -> Option<Json> {
    match d {
        Some(t) => Some(t@),
        None => None,
    }
}

/// The text that renders a diff tree: `None` without difference.
pub open spec fn rendered_text(d: Option<Json>) -> Option<Seq<char>> {
    match d {
        Some(t) => Some(text_of(render_top(t))),
        None => None,
    }
}

pub open spec fn text_view(r: Option<String>) -> Option<Seq<char>> {
    match r {
        Some(s) => Some(s@),
        None => None,
    }
}

pub open spec fn clamp_spec(x: int, lo: int, hi: int) -> int {
    if x < lo { lo } else if x > hi { hi } else { x }
}

pub open spec fn floor_zero(x: int) -> int {
    if x < 0 { 0 } else { x }
}

/// `[tag, v]` in the model.
pub open spec fn tagged_spec(c: char, v: Json) -> Json {
    Json::Array(seq![Json::Str(seq![c]), v])
}

pub open spec fn unchanged_spec() -> Json {
    Json::Array(seq![Json::Str(seq![' '])])
}

pub open spec fn values_view(v: Seq<Value>) -> Seq<Json> {
    v.map_values(|x: Value| x@)
}

/// The score and the tree that comparing `a` with `b` gives.
pub open spec fn diff_spec(a: Json, b: Json, keys_only: bool) -> (int, Option<Json>)
    decreases depth(a) + depth(b), 3nat, 0int,
{
    if a is Object && b is Object {
        object_spec(a, b, keys_only)
    } else if a is Array && b is Array {
        array_spec(a, b, keys_only)
    } else if !keys_only && a != b {
        (0, Some(change_pair(a, b)))
    } else {
        (full_score(), None)
    }
}

/// Two objects: removed and added members cost 30 points each, each shared
/// member brings 20 points and a fifth of its own score, clamped to
/// [-10, 20] points.
pub open spec fn object_spec(a: Json, b: Json, keys_only: bool) -> (int, Option<Json>)
    decreases depth(a) + depth(b), 2nat, 0int,
{
    let o1 = a->Object_0;
    let o2 = b->Object_0;
    let delta = key_delta(o1, o2);
    let shared = shared_spec(a, b, keys_only, o1.len() as int);
    if delta.len() + shared.1.len() == 0 {
        (identical_object_score(o1.len() as int), None)
    } else {
        (floor_zero(-30_000 * delta.len() + shared.0), Some(Json::Object(delta + shared.1)))
    }
}

/// Score and changed members for the first `n` members of `a` that `b`
/// has too.
pub open spec fn shared_spec(a: Json, b: Json, keys_only: bool, n: int) -> (int, Seq<(Seq<char>, Json)>)
    decreases depth(a) + depth(b), 1nat, n,
{
    if n <= 0 || !(a is Object) || !(b is Object) || n > a->Object_0.len() {
        (0, Seq::empty())
    } else {
        let prev = shared_spec(a, b, keys_only, n - 1);
        let o1 = a->Object_0;
        let o2 = b->Object_0;
        let j = key_index_from(o2, o1[n - 1].0, 0);
        if 0 <= j < o2.len() {
            proof {
                lemma_depth_members(o1, o1.len() as int, n - 1);
                lemma_depth_members(o2, o2.len() as int, j);
            }
            let sub = diff_spec(o1[n - 1].1, o2[j].1, keys_only);
            let score = prev.0 + 20_000 + clamp_spec(sub.0 / 5, -10_000, 20_000);
            match sub.1 {
                Some(c) => (score, prev.1.push((o1[n - 1].0, c))),
                None => (score, prev.1),
            }
        } else {
            prev
        }
    }
}

/// The first entry of `known`, from `m` on, whose element equals `item`; -1
/// if none.
pub open spec fn first_equal(known: Seq<(u128, bool, usize)>, item: Json, a1: Seq<Json>, a2: Seq<Json>, m: int) -> int
    decreases known.len() - m,
{
    if m < 0 || m >= known.len() {
        -1
    } else if (if known[m].1 { a2[known[m].2 as int] } else { a1[known[m].2 as int] }) == item {
        m
    } else {
        first_equal(known, item, a1, a2, m + 1)
    }
}

/// Token, table and counter after tokenising the leaf at `pos`.
pub open spec fn intern_spec(
    known: Seq<(u128, bool, usize)>,
    next: int,
    a1: Seq<Json>,
    a2: Seq<Json>,
    second: bool,
    pos: usize,
) -> (u128, Seq<(u128, bool, usize)>, int) {
    let item = if second { a2[pos as int] } else { a1[pos as int] };
    let m = first_equal(known, item, a1, a2, 0);
    if 0 <= m < known.len() {
        (known[m].0, known, next)
    } else {
        (next as u128, known.push((next as u128, second, pos)), next + 1)
    }
}

/// Tokens, table and counter after the first `i` elements of the first array.
pub open spec fn first_pass(a1: Seq<Json>, a2: Seq<Json>, i: int) -> (Seq<u128>, Seq<(u128, bool, usize)>, int)
    decreases i,
{
    if i <= 0 || i > a1.len() {
        (Seq::empty(), Seq::empty(), 1)
    } else {
        let prev = first_pass(a1, a2, i - 1);
        if a1[i - 1] is Object {
            (prev.0.push(prev.2 as u128), prev.1, prev.2 + 1)
        } else {
            let r = intern_spec(prev.1, prev.2, a1, a2, false, (i - 1) as usize);
            (prev.0.push(r.0), r.1, r.2)
        }
    }
}

/// The best match for the object `item` among the objects in the first `n`
/// elements of `arr`: (score, token, distance of positions).
pub open spec fn find_spec(item: Json, index: int, arr: Json, tokens: Seq<u128>, n: int) -> Option<(int, u128, int)>
    decreases depth(item) + depth(arr), 0nat, n,
{
    if n <= 0 || !(item is Object) || !(arr is Array) || n > arr->Array_0.len() {
        None
    } else {
        let prev = find_spec(item, index, arr, tokens, n - 1);
        let p = n - 1;
        let cand = arr->Array_0[p];
        if cand is Object {
            proof {
                lemma_depth_items(arr->Array_0, arr->Array_0.len() as int, p);
            }
            let s = diff_spec(item, cand, false).0;
            let dist = if p >= index { p - index } else { index - p };
            let better = match prev {
                None => true,
                Some(b) => s > b.0 || (s == b.0 && dist < b.2),
            };
            if better {
                Some((s, tokens[p], dist))
            } else {
                prev
            }
        } else {
            prev
        }
    }
}

/// Tokens, claimed tokens, table and counter after the first `j` elements
/// of the second array.
pub open spec fn second_pass(a: Json, b: Json, j: int) -> (Seq<u128>, Seq<u128>, Seq<(u128, bool, usize)>, int)
    decreases depth(a) + depth(b), 1nat, j,
{
    let a1 = a->Array_0;
    let a2 = b->Array_0;
    let firsts = first_pass(a1, a2, a1.len() as int);
    if j <= 0 || !(a is Array) || !(b is Array) || j > a2.len() {
        (Seq::empty(), Seq::empty(), firsts.1, firsts.2)
    } else {
        let prev = second_pass(a, b, j - 1);
        let item = a2[j - 1];
        if item is Object {
            proof {
                lemma_depth_items(a2, a2.len() as int, j - 1);
            }
            let best = find_spec(item, j - 1, a, firsts.0, a1.len() as int);
            if best is Some && best->Some_0.0 > 40_000 && !prev.1.contains(best->Some_0.1) {
                (prev.0.push(best->Some_0.1), prev.1.push(best->Some_0.1), prev.2, prev.3)
            } else {
                (prev.0.push(prev.3 as u128), prev.1, prev.2, prev.3 + 1)
            }
        } else {
            let r = intern_spec(prev.2, prev.3, a1, a2, true, (j - 1) as usize);
            (prev.0.push(r.0), prev.1, r.1, r.2)
        }
    }
}

/// `[tag, s[i]]` for each `i` in `from..to`.
pub open spec fn tag_range(c: char, s: Seq<Json>, from: int, to: int) -> Seq<Json> {
    Seq::new((to - from) as nat, |x: int| tagged_spec(c, s[from + x]))
}

/// Score, entries and whether nothing changed, for the first `t` pairs of
/// ranges starting at `fs` and `ss` that are aligned as equal (`is_equal`)
/// or compared pairwise.
pub open spec fn range_spec(a: Json, b: Json, keys_only: bool, is_equal: bool, fs: int, ss: int, t: int) -> (int, Seq<Json>, bool)
    decreases depth(a) + depth(b), 0nat, t,
{
    if t <= 0 || !(a is Array) || !(b is Array) {
        (0, Seq::empty(), true)
    } else {
        let prev = range_spec(a, b, keys_only, is_equal, fs, ss, t - 1);
        let a1 = a->Array_0;
        let a2 = b->Array_0;
        let p = fs + t - 1;
        let q = ss + t - 1;
        if !(0 <= p < a1.len() && 0 <= q < a2.len()) {
            prev
        } else {
            let sc = if is_equal { 10_000int } else { 0int };
            if a1[p] is Object || !is_equal {
                proof {
                    lemma_depth_items(a1, a1.len() as int, p);
                    lemma_depth_items(a2, a2.len() as int, q);
                }
                let sub = diff_spec(a1[p], a2[q], keys_only);
                match sub.1 {
                    Some(c) => (prev.0 + sc, prev.1.push(tagged_spec('~', c)), false),
                    None => (prev.0 + sc, prev.1.push(unchanged_spec()), prev.2),
                }
            } else {
                (prev.0 + sc, prev.1.push(tagged_spec(' ', a1[p])), prev.2)
            }
        }
    }
}

pub open spec fn ops_view(v: Seq<Opcode>) -> Seq<(Seq<char>, int, int, int, int)> {
    v.map_values(|o: Opcode| o@)
}

/// Score, entries and whether all was equal after the first `n` operations
/// of the edit script `ops`.
pub open spec fn ops_spec(a: Json, b: Json, keys_only: bool, ops: Seq<(Seq<char>, int, int, int, int)>, n: int) -> (int, Seq<Json>, bool)
    decreases depth(a) + depth(b), 1nat, n,
{
    if n <= 0 || n > ops.len() {
        (0, Seq::empty(), true)
    } else {
        let prev = ops_spec(a, b, keys_only, ops, n - 1);
        let o = ops[n - 1];
        let is_eq = o.0 == equal_tag();
        let is_del = o.0 == delete_tag();
        let is_ins = o.0 == insert_tag();
        let is_rep = o.0 == replace_tag();
        let flag = prev.2 && (is_eq || (keys_only && is_rep));
        if is_eq || (is_rep && keys_only) {
            let len = if o.2 - o.1 < o.4 - o.3 { o.2 - o.1 } else { o.4 - o.3 };
            let r = range_spec(a, b, keys_only, is_eq, o.1, o.3, len);
            (prev.0 + r.0, prev.1 + r.1, flag && r.2)
        } else {
            let dels = if is_del || is_rep { tag_range('-', a->Array_0, o.1, o.2) } else { Seq::empty() };
            let ins = if is_ins || is_rep { tag_range('+', b->Array_0, o.3, o.4) } else { Seq::empty() };
            (prev.0 - 5_000 * (dels.len() + ins.len()), prev.1 + dels + ins, flag)
        }
    }
}

/// Two arrays: their elements become tokens, the token sequences are
/// aligned, and the edit script becomes tagged entries.
pub open spec fn array_spec(a: Json, b: Json, keys_only: bool) -> (int, Option<Json>)
    decreases depth(a) + depth(b), 2nat, 0int,
{
    let a1 = a->Array_0;
    let a2 = b->Array_0;
    let firsts = first_pass(a1, a2, a1.len() as int);
    let seconds = second_pass(a, b, a2.len() as int);
    let ops = opcodes_for(firsts.0, seconds.0);
    let r = ops_spec(a, b, keys_only, ops, ops.len() as int);
    if r.2 || ops.len() == 0 {
        (full_score(), None)
    } else {
        (floor_zero(r.0), Some(Json::Array(r.1)))
    }
}


} // verus!
