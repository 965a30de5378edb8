use vstd::prelude::*;
use vstd::string::*;

use crate::align::{align, covers, delete_tag, equal_tag, insert_tag, opcodes_for, replace_tag, well_tagged, Opcode};
use crate::model::{
    added_members, change_pair, ops_view, deleted_members, diff_outcome, diff_spec, find_spec, first_equal,
    first_pass, intern_spec, key_delta, ops_spec, range_spec, rendered_text, score_bound,
    second_pass, shared_spec, tag_range, tagged_spec, text_view, tree_view, unchanged_spec, values_view,
};
use crate::render::{added_suffix, colorize_to_array, deleted_suffix, is_tagged, join_lines, new_key, old_key};
use crate::value::{Json, Value, depth, find_key, has_key, json_eq, lemma_item_depth, lemma_member_depth, members_view};

verus! {

/// The structural difference of two values.
///
/// `score` is a similarity measure in whole thousandths of a point, used to
/// rank candidate matches; `diff` is `None` when there is no difference.
/// Where a member's score is divided by five the quotient is rounded down to
/// a whole thousandth, so a score can fall short of the exact fraction by
/// less than a thousandth of a point for each level of nesting.
#[derive(Debug)]
pub struct JsonDiff {
    pub score: i128,
    pub diff: Option<Value>,
}

fn text_value(s: &str) -> (r: Value)
    ensures
        r@ == Json::Str(s@),
{
    Value::String(String::from_str(s))
}

fn tag_text(c: char) -> (r: &'static str)
    requires
        c == ' ' || c == '-' || c == '+' || c == '~',
    ensures
        r@ == seq![c],
{
    if c == '-' {
        proof { reveal_strlit("-"); }
        "-"
    } else if c == '+' {
        proof { reveal_strlit("+"); }
        "+"
    } else if c == '~' {
        proof { reveal_strlit("~"); }
        "~"
    } else {
        proof { reveal_strlit(" "); }
        " "
    }
}

/// `[tag, v]`.
fn tagged(c: char, v: Value) -> (r: Value)
    requires
        c == ' ' || c == '-' || c == '+' || c == '~',
    ensures
        r@ == Json::Array(seq![Json::Str(seq![c]), v@]),
        is_tagged(r@),
{
    let r = Value::Array(vec![text_value(tag_text(c)), v]);
    proof {
        assert(r@->Array_0 =~= seq![Json::Str(seq![c]), v@]);
    }
    r
}

/// `[" "]`: an unchanged element left out.
fn unchanged_marker() -> (r: Value)
    ensures
        r@ == Json::Array(seq![Json::Str(seq![' '])]),
        is_tagged(r@),
{
    let r = Value::Array(vec![text_value(tag_text(' '))]);
    proof {
        assert(r@->Array_0 =~= seq![Json::Str(seq![' '])]);
    }
    r
}

fn with_suffix(s: &String, tail: &str) -> (r: String)
    ensures
        r@ == s@ + tail@,
{
    let mut r = s.clone();
    r.append(tail);
    r
}

fn change_of(a: &Value, b: &Value) -> (r: Value)
    ensures
        r@ == change_pair(a@, b@),
{
    proof {
        reveal_strlit("__old");
        reveal_strlit("__new");
        assert(old_key() =~= "__old"@);
        assert(new_key() =~= "__new"@);
    }
    let r = Value::Object(vec![(String::from_str("__old"), a.deep_copy()), (String::from_str("__new"), b.deep_copy())]);
    proof {
        assert(r@->Object_0 =~= seq![(old_key(), a@), (new_key(), b@)]);
    }
    r
}

/// Compares two values of any kinds.
fn diff_with_score(a: &Value, b: &Value, keys_only: bool) -> (r: JsonDiff)
    ensures
        diff_outcome(a@, b@, keys_only, r),
    decreases depth(a@) + depth(b@), 2nat,
{
    match (a, b) {
        (Value::Object(_), Value::Object(_)) => object_diff(a, b, keys_only),
        (Value::Array(_), Value::Array(_)) => array_diff(a, b, keys_only),
        _ => {
            if !keys_only && !json_eq(a, b) {
                JsonDiff { score: 0, diff: Some(change_of(a, b)) }
            } else {
                JsonDiff { score: 100_000, diff: None }
            }
        },
    }
}

} // verus!

verus! {

proof fn lemma_members_view_push(v: Seq<(String, Value)>, e: (String, Value))
    ensures
        members_view(v.push(e)) == members_view(v).push((e.0@, e.1@)),
{
    assert(members_view(v.push(e)) =~= members_view(v).push((e.0@, e.1@)));
}

/// `min(max(x, lo), hi)`.
fn clamp(x: i128, lo: i128, hi: i128) -> (r: i128)
    requires
        lo <= hi,
    ensures
        r == if x < lo { lo } else if x > hi { hi } else { x },
{
    if x < lo {
        lo
    } else if x > hi {
        hi
    } else {
        x
    }
}

/// Compares two objects member by member.
fn object_diff(a: &Value, b: &Value, keys_only: bool) -> (r: JsonDiff)
    requires
        *a is Object,
        *b is Object,
    ensures
        diff_outcome(a@, b@, keys_only, r),
    decreases depth(a@) + depth(b@), 1nat,
{
    let (o1, o2) = match (a, b) {
        (Value::Object(o1), Value::Object(o2)) => (o1, o2),
        _ => {
            proof { assert(false); }
            return JsonDiff { score: 0, diff: None };
        },
    };
    let ghost v1 = a@->Object_0;
    let ghost v2 = b@->Object_0;
    proof {
        assert(v1 =~= members_view(o1@));
        assert(v2 =~= members_view(o2@));
        reveal_strlit("__deleted");
        reveal_strlit("__added");
        assert(deleted_suffix() =~= "__deleted"@);
        assert(added_suffix() =~= "__added"@);
    }
    let mut result: Vec<(String, Value)> = Vec::new();
    let mut score: i128 = 0;
    let mut i: usize = 0;
    while i < o1.len()
        invariant
            v1 == members_view(o1@),
            v2 == members_view(o2@),
            deleted_suffix() == "__deleted"@,
            i <= o1.len(),
            result.len() <= i,
            members_view(result@) == deleted_members(v1, v2, i as int),
            score == -30_000 * result.len(),
        decreases o1.len() - i,
    {
        if find_key(o2, &o1[i].0).is_none() {
            let k = with_suffix(&o1[i].0, "__deleted");
            let v = o1[i].1.deep_copy();
            proof { lemma_members_view_push(result@, (k, v)); }
            result.push((k, v));
            score = score - 30_000;
            proof {
                assert(members_view(result@) =~= deleted_members(v1, v2, i + 1));
            }
        } else {
            proof {
                assert(deleted_members(v1, v2, i + 1) =~= deleted_members(v1, v2, i as int));
            }
        }
        i = i + 1;
    }
    let mut j: usize = 0;
    while j < o2.len()
        invariant
            v1 == members_view(o1@),
            v2 == members_view(o2@),
            added_suffix() == "__added"@,
            j <= o2.len(),
            result.len() <= o1.len() + j,
            members_view(result@) == deleted_members(v1, v2, o1.len() as int) + added_members(v1, v2, j as int),
            score == -30_000 * result.len(),
        decreases o2.len() - j,
    {
        if find_key(o1, &o2[j].0).is_none() {
            let k = with_suffix(&o2[j].0, "__added");
            let v = o2[j].1.deep_copy();
            proof { lemma_members_view_push(result@, (k, v)); }
            result.push((k, v));
            score = score - 30_000;
            proof {
                assert(members_view(result@) =~= deleted_members(v1, v2, o1.len() as int) + added_members(v1, v2, j + 1));
            }
        } else {
            proof {
                assert(added_members(v1, v2, j + 1) =~= added_members(v1, v2, j as int));
            }
        }
        j = j + 1;
    }
    let dl = result.len();
    proof {
        assert(members_view(result@) =~= key_delta(v1, v2));
    }
    let mut i: usize = 0;
    while i < o1.len()
        invariant
            *a is Object,
            *b is Object,
            a->Object_0 == *o1,
            b->Object_0 == *o2,
            v1 == a@->Object_0,
            v2 == b@->Object_0,
            v1 == members_view(o1@),
            v2 == members_view(o2@),
            i <= o1.len(),
            dl <= o1.len() + o2.len(),
            dl <= result.len(),
            members_view(result@).subrange(0, dl as int) == key_delta(v1, v2),
            forall|m: int| dl <= m < result.len() ==> has_key(v1, (#[trigger] members_view(result@)[m]).0)
                && has_key(v2, members_view(result@)[m].0),
            -30_000 * dl <= score <= -30_000 * dl + 40_000 * i,
            score == -30_000 * dl + shared_spec(a@, b@, keys_only, i as int).0,
            members_view(result@) == key_delta(v1, v2) + shared_spec(a@, b@, keys_only, i as int).1,
        decreases o1.len() - i,
    {
        let ghost prev = shared_spec(a@, b@, keys_only, i as int);
        proof {
            assert(v1[i as int].0 == o1[i as int].0@);
            assert(v1[i as int].1 == o1[i as int].1@);
        }
        match find_key(o2, &o1[i].0) {
            Some(j) => {
                proof {
                    lemma_member_depth(a, i as int);
                    lemma_member_depth(b, j as int);
                }
                score = score + 20_000;
                let sub = diff_with_score(&o1[i].1, &o2[j].1, keys_only);
                let ghost before = result@;
                match sub.diff {
                    Some(c) => {
                        let k = o1[i].0.clone();
                        proof { lemma_members_view_push(result@, (k, c)); }
                        result.push((k, c));
                        proof {
                            assert(members_view(result@) =~= key_delta(v1, v2) + prev.1.push((v1[i as int].0, c@)));
                            assert(members_view(result@).subrange(0, dl as int) =~= members_view(before).subrange(0, dl as int));
                            assert(v1[i as int].0 == o1[i as int].0@);
                            assert(v2[j as int].0 == o2[j as int].0@);
                            assert(has_key(v1, o1[i as int].0@));
                            assert(has_key(v2, o1[i as int].0@));
                        }
                    },
                    None => {},
                }
                proof {
                    assert(v2[j as int].1 == o2[j as int].1@);
                    assert(sub.score >= 0);
                    assert((sub.score / 5) as int == (sub.score as int) / 5);
                }
                score = score + clamp(sub.score / 5, -10_000, 20_000);
            },
            None => {},
        }
        i = i + 1;
    }
    if result.len() == 0 {
        let n = o1.len() as i128;
        proof {
            assert(0 <= n <= 0xffff_ffff_ffff_ffff);
            assert(100_000 * n <= score_bound()) by (nonlinear_arith)
                requires 0 <= n <= 0xffff_ffff_ffff_ffff;
        }
        proof {
            assert(members_view(result@).len() == 0);
        }
        JsonDiff { score: if n == 0 { 50_000 } else { 100_000 * n }, diff: None }
    } else {
        let r = Value::Object(result);
        proof {
            assert(r@->Object_0 =~= members_view(result@));
            assert(r@ == Json::Object(key_delta(v1, v2) + shared_spec(a@, b@, keys_only, o1.len() as int).1));
            assert(dl <= 0xffff_ffff_ffff_ffff);
            assert(0 <= 40_000 * i <= 40_000 * 0xffff_ffff_ffff_ffff) by (nonlinear_arith)
                requires 0 <= i <= 0xffff_ffff_ffff_ffff;
        }
        JsonDiff { score: if score < 0 { 0 } else { score }, diff: Some(r) }
    }
}

} // verus!

verus! {

/// Whether the position `pos` of the first (`false`) or second (`true`)
/// array exists.
pub open spec fn valid_entry(e: (u128, bool, usize), n1: int, n2: int) -> bool {
    if e.1 { e.2 < n2 } else { e.2 < n1 }
}

/// The token of a non-object element: that of an equal element seen before,
/// or a fresh one.
fn intern(
    known: &mut Vec<(u128, bool, usize)>,
    next: &mut u128,
    a1: &Vec<Value>,
    a2: &Vec<Value>,
    second: bool,
    pos: usize,
) -> (t: u128)
    requires
        *old(next) < 0x1_0000_0000_0000_0000_0000,
        if second { pos < a2.len() } else { pos < a1.len() },
        forall|m: int| 0 <= m < old(known)@.len() ==> valid_entry(#[trigger] old(known)@[m], a1.len() as int, a2.len() as int),
    ensures
        *old(next) <= *final(next) <= *old(next) + 1,
        forall|m: int| 0 <= m < final(known)@.len() ==> valid_entry(#[trigger] final(known)@[m], a1.len() as int, a2.len() as int),
        (t, final(known)@, *final(next) as int)
            == intern_spec(old(known)@, *old(next) as int, values_view(a1@), values_view(a2@), second, pos),
{
    let ghost v1 = values_view(a1@);
    let ghost v2 = values_view(a2@);
    let item = if second { &a2[pos] } else { &a1[pos] };
    proof {
        assert(item@ == if second { v2[pos as int] } else { v1[pos as int] });
    }
    let mut m: usize = 0;
    while m < known.len()
        invariant
            m <= known.len(),
            known@ == old(known)@,
            item@ == if second { v2[pos as int] } else { v1[pos as int] },
            v1 == values_view(a1@),
            v2 == values_view(a2@),
            forall|x: int| 0 <= x < known@.len() ==> valid_entry(#[trigger] known@[x], a1.len() as int, a2.len() as int),
            first_equal(known@, item@, v1, v2, 0) == first_equal(known@, item@, v1, v2, m as int),
        decreases known.len() - m,
    {
        let (t, s, p) = known[m];
        proof { assert(valid_entry(known@[m as int], a1.len() as int, a2.len() as int)); }
        let other = if s { &a2[p] } else { &a1[p] };
        proof {
            assert(other@ == if s { v2[p as int] } else { v1[p as int] });
        }
        if json_eq(item, other) {
            return t;
        }
        m = m + 1;
    }
    let t = *next;
    *next = *next + 1;
    known.push((t, second, pos));
    t
}

pub open spec fn best_view(r: Option<(i128, u128)>, d: int) -> Option<(int, u128, int)> {
    match r {
        Some(x) => Some((x.0 as int, x.1, d)),
        None => None,
    }
}

/// The best match for the object `item`, at position `index` of its array,
/// among the objects of the array `arr` (the candidates of its own kind),
/// whose tokens are `tokens`: the highest score, and on a tie the position
/// nearest to `index`.
fn find_matching_object(item: &Value, index: usize, arr: &Value, tokens: &Vec<u128>) -> (r: Option<(i128, u128)>)
    requires
        item@ is Object,
        *arr is Array,
        tokens.len() == arr->Array_0.len(),
    ensures
        r is Some ==> 0 <= r->Some_0.0 <= score_bound(),
        r is None <==> find_spec(item@, index as int, arr@, tokens@, tokens.len() as int) is None,
        r is Some ==> r->Some_0.0 == find_spec(item@, index as int, arr@, tokens@, tokens.len() as int)->Some_0.0
            && r->Some_0.1 == find_spec(item@, index as int, arr@, tokens@, tokens.len() as int)->Some_0.1,
    decreases depth(item@) + depth(arr@), 0nat,
{
    let items = match arr {
        Value::Array(items) => items,
        _ => {
            return None;
        },
    };
    let mut best: Option<(i128, u128)> = None;
    let mut best_distance: usize = 0;
    let mut p: usize = 0;
    while p < items.len()
        invariant
            *arr is Array,
            arr->Array_0 == *items,
            tokens.len() == items.len(),
            p <= items.len(),
            item@ is Object,
            best is Some ==> 0 <= best->Some_0.0 <= score_bound(),
            best_view(best, best_distance as int) == find_spec(item@, index as int, arr@, tokens@, p as int),
        decreases items.len() - p,
    {
        proof { assert(arr@->Array_0[p as int] == items[p as int]@); }
        match &items[p] {
            Value::Object(_) => {
                proof { lemma_item_depth(arr, p as int); }
                let sub = diff_with_score(item, &items[p], false);
                let distance = if p >= index { p - index } else { index - p };
                let better = match best {
                    None => true,
                    Some((s, _)) => sub.score > s || (sub.score == s && distance < best_distance),
                };
                if better {
                    best = Some((sub.score, tokens[p]));
                    best_distance = distance;
                }
            },
            _ => {},
        }
        p = p + 1;
    }
    best
}

fn contains_token(v: &Vec<u128>, t: u128) -> (r: bool)
    ensures
        r == v@.contains(t),
{
    let mut i: usize = 0;
    while i < v.len()
        invariant
            i <= v.len(),
            forall|j: int| 0 <= j < i ==> v@[j] != t,
        decreases v.len() - i,
    {
        if v[i] == t {
            proof { assert(v@[i as int] == t); }
            return true;
        }
        i = i + 1;
    }
    false
}

/// Whether an operation's tag is `name`.
fn names_tag(tag: &String, name: &str) -> (r: bool)
    ensures
        r == (tag@ == name@),
{
    tag.eq(&String::from_str(name))
}

proof fn lemma_values_view_push(v: Seq<Value>, x: Value)
    ensures
        values_view(v.push(x)) == values_view(v).push(x@),
{
    assert(values_view(v.push(x)) =~= values_view(v).push(x@));
}

/// The edit script as array diff entries: returns the score (in thousandths
/// of a point), the entries, and whether every operation was `equal` (with
/// `keys_only`, also `replace`) and found no nested change.
pub fn apply_opcodes(a: &Value, b: &Value, keys_only: bool, opcodes: &Vec<Opcode>) -> (r: (i128, Vec<Value>, bool))
    requires
        *a is Array,
        *b is Array,
        forall|x: int| 0 <= x < opcodes@.len() ==> {
            let o = #[trigger] opcodes@[x];
            &&& o.first_start <= o.first_end <= a->Array_0.len()
            &&& o.second_start <= o.second_end <= b->Array_0.len()
            &&& o.tag@ == equal_tag() ==> o.first_end - o.first_start == o.second_end - o.second_start
        },
    ensures
        (r.0 as int, values_view(r.1@), r.2) == ops_spec(a@, b@, keys_only, ops_view(opcodes@), opcodes@.len() as int),
        forall|x: int| 0 <= x < r.1@.len() ==> is_tagged(#[trigger] r.1@[x]@),
        -5_000 * r.1.len() <= r.0 <= 10_000 * r.1.len(),
    decreases depth(a@) + depth(b@), 0nat,
{
    let (a1, a2) = match (a, b) {
        (Value::Array(a1), Value::Array(a2)) => (a1, a2),
        _ => {
            proof { assert(false); }
            return (0, Vec::new(), true);
        },
    };
    let ghost v1 = a@->Array_0;
    let ghost v2 = b@->Array_0;
    let ghost ops = ops_view(opcodes@);
    proof {
        assert(v1 =~= values_view(a1@));
        assert(v2 =~= values_view(a2@));
    }
    proof {
        reveal_strlit("equal");
        reveal_strlit("delete");
        reveal_strlit("insert");
        reveal_strlit("replace");
        assert(equal_tag() =~= "equal"@);
        assert(delete_tag() =~= "delete"@);
        assert(insert_tag() =~= "insert"@);
        assert(replace_tag() =~= "replace"@);
    }
    let mut result: Vec<Value> = Vec::new();
    let mut score: i128 = 0;
    let mut all_equal = true;
    let mut oi: usize = 0;
    while oi < opcodes.len()
        invariant
            *a is Array,
            *b is Array,
            a->Array_0 == *a1,
            b->Array_0 == *a2,
            v1 == a@->Array_0,
            v2 == b@->Array_0,
            v1 == values_view(a1@),
            v2 == values_view(a2@),
            ops == ops_view(opcodes@),
            equal_tag() == "equal"@,
            delete_tag() == "delete"@,
            insert_tag() == "insert"@,
            replace_tag() == "replace"@,
            oi <= opcodes.len(),
            forall|x: int| 0 <= x < opcodes@.len() ==> {
                let o = #[trigger] opcodes@[x];
                &&& o.first_start <= o.first_end <= a1.len()
                &&& o.second_start <= o.second_end <= a2.len()
                &&& o.tag@ == equal_tag() ==> o.first_end - o.first_start == o.second_end - o.second_start
            },
            forall|x: int| 0 <= x < result@.len() ==> is_tagged(#[trigger] result@[x]@),
            -5_000 * result.len() <= score <= 10_000 * result.len(),
            (score as int, values_view(result@), all_equal) == ops_spec(a@, b@, keys_only, ops, oi as int),
        decreases opcodes.len() - oi,
    {
        let o = &opcodes[oi];
        proof { assert(ops[oi as int] == opcodes@[oi as int]@); }
        let is_equal = names_tag(&o.tag, "equal");
        let is_delete = names_tag(&o.tag, "delete");
        let is_insert = names_tag(&o.tag, "insert");
        let is_replace = names_tag(&o.tag, "replace");
        if !(is_equal || (keys_only && is_replace)) {
            all_equal = false;
        }
        let fs = o.first_start;
        let fe = o.first_end;
        let ss = o.second_start;
        let se = o.second_end;
        proof { assert(fs <= fe <= a1.len() && ss <= se <= a2.len()); }
        let ghost s0 = score as int;
        let ghost r0 = values_view(result@);
        let ghost f0 = all_equal;
        if is_equal || (is_replace && keys_only) {
            let n = if fe - fs < se - ss { fe - fs } else { se - ss };
            let mut t: usize = 0;
            while t < n
                invariant
                    *a is Array,
                    *b is Array,
                    a->Array_0 == *a1,
                    b->Array_0 == *a2,
                    v1 == a@->Array_0,
                    v2 == b@->Array_0,
                    v1 == values_view(a1@),
                    v2 == values_view(a2@),
                    fs <= fe <= a1.len(),
                    ss <= se <= a2.len(),
                    n <= fe - fs,
                    n <= se - ss,
                    t <= n,
                    forall|x: int| 0 <= x < result@.len() ==> is_tagged(#[trigger] result@[x]@),
                    -5_000 * result.len() <= score <= 10_000 * result.len(),
                    score as int == s0 + range_spec(a@, b@, keys_only, is_equal, fs as int, ss as int, t as int).0,
                    values_view(result@) == r0 + range_spec(a@, b@, keys_only, is_equal, fs as int, ss as int, t as int).1,
                    all_equal == (f0 && range_spec(a@, b@, keys_only, is_equal, fs as int, ss as int, t as int).2),
                decreases n - t,
            {
                let p = fs + t;
                let q = ss + t;
                proof {
                    assert(v1[p as int] == a1[p as int]@);
                    assert(v2[q as int] == a2[q as int]@);
                }
                let ghost before = values_view(result@);
                let structural = match &a1[p] {
                    Value::Object(_) => true,
                    _ => false,
                };
                if structural || !is_equal {
                    proof {
                        lemma_item_depth(a, p as int);
                        lemma_item_depth(b, q as int);
                    }
                    let sub = diff_with_score(&a1[p], &a2[q], keys_only);
                    match sub.diff {
                        Some(c) => {
                            let e = tagged('~', c);
                            proof { lemma_values_view_push(result@, e); }
                            result.push(e);
                            all_equal = false;
                        },
                        None => {
                            let e = unchanged_marker();
                            proof { lemma_values_view_push(result@, e); }
                            result.push(e);
                        },
                    }
                } else {
                    let e = tagged(' ', a1[p].deep_copy());
                    proof { lemma_values_view_push(result@, e); }
                    result.push(e);
                }
                if is_equal {
                    score = score + 10_000;
                }
                proof {
                    assert(values_view(result@) =~= r0 + range_spec(a@, b@, keys_only, is_equal, fs as int, ss as int, t + 1).1);
                }
                t = t + 1;
            }
            proof {
                let len = if fe - fs < se - ss { fe - fs } else { se - ss };
                assert(len == n);
                assert(values_view(result@) =~= ops_spec(a@, b@, keys_only, ops, oi + 1).1);
            }
        } else {
            if is_delete || is_replace {
                let mut p: usize = fs;
                while p < fe
                    invariant
                        v1 == values_view(a1@),
                        fs <= p <= fe <= a1.len(),
                        forall|x: int| 0 <= x < result@.len() ==> is_tagged(#[trigger] result@[x]@),
                        -5_000 * result.len() <= score <= 10_000 * result.len(),
                        score as int == s0 - 5_000 * (p - fs),
                        values_view(result@) == r0 + tag_range('-', v1, fs as int, p as int),
                    decreases fe - p,
                {
                    let e = tagged('-', a1[p].deep_copy());
                    proof {
                        lemma_values_view_push(result@, e);
                        assert(v1[p as int] == a1[p as int]@);
                    }
                    result.push(e);
                    score = score - 5_000;
                    proof {
                        assert(values_view(result@) =~= r0 + tag_range('-', v1, fs as int, p + 1));
                    }
                    p = p + 1;
                }
            }
            let ghost dels = if is_delete || is_replace { tag_range('-', v1, fs as int, fe as int) } else { Seq::empty() };
            proof {
                assert(values_view(result@) =~= r0 + dels);
            }
            if is_insert || is_replace {
                let mut q: usize = ss;
                while q < se
                    invariant
                        v2 == values_view(a2@),
                        ss <= q <= se <= a2.len(),
                        forall|x: int| 0 <= x < result@.len() ==> is_tagged(#[trigger] result@[x]@),
                        -5_000 * result.len() <= score <= 10_000 * result.len(),
                        score as int == s0 - 5_000 * (dels.len() + (q - ss)),
                        values_view(result@) == r0 + dels + tag_range('+', v2, ss as int, q as int),
                    decreases se - q,
                {
                    let e = tagged('+', a2[q].deep_copy());
                    proof {
                        lemma_values_view_push(result@, e);
                        assert(v2[q as int] == a2[q as int]@);
                    }
                    result.push(e);
                    score = score - 5_000;
                    proof {
                        assert(values_view(result@) =~= r0 + dels + tag_range('+', v2, ss as int, q + 1));
                    }
                    q = q + 1;
                }
            }
            proof {
                let ins = if is_insert || is_replace { tag_range('+', v2, ss as int, se as int) } else { Seq::empty() };
                assert(values_view(result@) =~= r0 + dels + ins);
            }
        }
        oi = oi + 1;
    }
    (score, result, all_equal)
}

proof fn lemma_all_equal_ops(a: Json, b: Json, ops: Seq<(Seq<char>, int, int, int, int)>, n: int)
    requires
        0 <= n <= ops.len(),
        ops_spec(a, b, false, ops, n).2,
    ensures
        forall|i: int| 0 <= i < n ==> (#[trigger] ops[i]).0 == equal_tag(),
    decreases n,
{
    if n > 0 {
        lemma_all_equal_ops(a, b, ops, n - 1);
    }
}

proof fn lemma_equal_script_ends(ops: Seq<Opcode>, s1: Seq<u128>, s2: Seq<u128>, n: int)
    requires
        covers(ops, s1, s2),
        0 < n <= ops.len(),
        forall|i: int| 0 <= i < ops.len() ==> (#[trigger] ops[i]).tag@ == equal_tag(),
    ensures
        ops[n - 1].first_end == ops[n - 1].second_end,
    decreases n,
{
    assert(well_tagged(ops[n - 1], s1, s2));
    if n > 1 {
        lemma_equal_script_ends(ops, s1, s2, n - 1);
        assert(ops[n - 2].first_end == ops[n - 1].first_start);
    }
}

/// Compares two arrays: elements are turned into tokens (equal leaves share
/// one; an object of the second array takes the token of its best match in
/// the first), the token sequences are aligned, and the edit script becomes
/// an array diff.
fn array_diff(a: &Value, b: &Value, keys_only: bool) -> (r: JsonDiff)
    requires
        *a is Array,
        *b is Array,
    ensures
        diff_outcome(a@, b@, keys_only, r),
    decreases depth(a@) + depth(b@), 1nat,
{
    let (a1, a2) = match (a, b) {
        (Value::Array(a1), Value::Array(a2)) => (a1, a2),
        _ => {
            proof { assert(false); }
            return JsonDiff { score: 0, diff: None };
        },
    };
    let ghost v1 = a@->Array_0;
    let ghost v2 = b@->Array_0;
    proof {
        assert(v1 =~= values_view(a1@));
        assert(v2 =~= values_view(a2@));
    }
    let mut next: u128 = 1;
    let mut known: Vec<(u128, bool, usize)> = Vec::new();
    let mut seq1: Vec<u128> = Vec::new();
    let mut i: usize = 0;
    while i < a1.len()
        invariant
            v1 == values_view(a1@),
            v2 == values_view(a2@),
            i <= a1.len(),
            seq1.len() == i,
            1 <= next <= 1 + i,
            forall|m: int| 0 <= m < known@.len() ==> valid_entry(#[trigger] known@[m], a1.len() as int, a2.len() as int),
            (seq1@, known@, next as int) == first_pass(v1, v2, i as int),
        decreases a1.len() - i,
    {
        proof { assert(v1[i as int] == a1[i as int]@); }
        match &a1[i] {
            Value::Object(_) => {
                seq1.push(next);
                next = next + 1;
            },
            _ => {
                let t = intern(&mut known, &mut next, a1, a2, false, i);
                seq1.push(t);
            },
        }
        i = i + 1;
    }
    let mut seq2: Vec<u128> = Vec::new();
    let mut claimed: Vec<u128> = Vec::new();
    let mut j: usize = 0;
    while j < a2.len()
        invariant
            *a is Array,
            *b is Array,
            a->Array_0 == *a1,
            b->Array_0 == *a2,
            v1 == a@->Array_0,
            v2 == b@->Array_0,
            v1 == values_view(a1@),
            v2 == values_view(a2@),
            seq1.len() == a1.len(),
            seq1@ == first_pass(v1, v2, a1.len() as int).0,
            j <= a2.len(),
            seq2.len() == j,
            1 <= next <= 1 + a1.len() + j,
            forall|m: int| 0 <= m < known@.len() ==> valid_entry(#[trigger] known@[m], a1.len() as int, a2.len() as int),
            (seq2@, claimed@, known@, next as int) == second_pass(a@, b@, j as int),
        decreases a2.len() - j,
    {
        proof { assert(v2[j as int] == a2[j as int]@); }
        match &a2[j] {
            Value::Object(_) => {
                proof { lemma_item_depth(b, j as int); }
                let best = find_matching_object(&a2[j], j, a, &seq1);
                let mut matched = false;
                match best {
                    Some((s, t)) => {
                        if s > 40_000 && !contains_token(&claimed, t) {
                            seq2.push(t);
                            claimed.push(t);
                            matched = true;
                        }
                    },
                    None => {},
                }
                if !matched {
                    seq2.push(next);
                    next = next + 1;
                }
            },
            _ => {
                let t = intern(&mut known, &mut next, a1, a2, true, j);
                seq2.push(t);
            },
        }
        j = j + 1;
    }
    let opcodes = align(&seq1, &seq2);
    let (score, result, all_equal) = apply_opcodes(a, b, keys_only, &opcodes);
    proof {
        assert(ops_view(opcodes@) =~= opcodes_for(seq1@, seq2@));
        if !keys_only && all_equal && opcodes.len() > 0 {
            let ops = ops_view(opcodes@);
            lemma_all_equal_ops(a@, b@, ops, ops.len() as int);
            assert forall|i: int| 0 <= i < opcodes@.len() implies (#[trigger] opcodes@[i]).tag@ == equal_tag() by {
                assert(ops[i] == opcodes@[i]@);
            }
            lemma_equal_script_ends(opcodes@, seq1@, seq2@, opcodes@.len() as int);
        }
    }
    if all_equal || opcodes.len() == 0 {
        JsonDiff { score: 100_000, diff: None }
    } else {
        let r = Value::Array(result);
        proof {
            assert(r@->Array_0 =~= values_view(result@));
            assert forall|x: int| 0 <= x < r@->Array_0.len() implies is_tagged(#[trigger] r@->Array_0[x]) by {
                assert(r@->Array_0[x] == result@[x]@);
            }
            let n = result.len() as int;
            assert(10_000 * n <= score_bound()) by (nonlinear_arith)
                requires 0 <= n <= 0xffff_ffff_ffff_ffff;
        }
        JsonDiff { score: if score < 0 { 0 } else { score }, diff: Some(r) }
    }
}

} // verus!

verus! {

impl JsonDiff {
    /// Finds the structural difference of two values.
    pub fn diff(json1: &Value, json2: &Value, keys_only: bool) -> (r: Self)
        ensures
            diff_outcome(json1@, json2@, keys_only, r),
    {
        diff_with_score(json1, json2, keys_only)
    }

    /// The difference rendered as text, a newline after each line; `None`
    /// without difference.
    pub fn rendered(&self) -> (r: Option<String>)
        ensures
            text_view(r) == rendered_text(tree_view(self.diff)),
    {
        match &self.diff {
            Some(t) => {
                let lines = colorize_to_array(t);
                Some(join_lines(&lines))
            },
            None => None,
        }
    }

    /// Finds the structural difference of two values and renders it as text.
    pub fn diff_string(json1: &Value, json2: &Value, keys_only: bool) -> (r: Option<String>)
        ensures
            r is None <==> diff_spec(json1@, json2@, keys_only).1 is None,
            text_view(r) == rendered_text(diff_spec(json1@, json2@, keys_only).1),
    {
        let d = Self::diff(json1, json2, keys_only);
        d.rendered()
    }
}


} // verus!
