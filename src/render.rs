use vstd::prelude::*;
use vstd::string::*;

use crate::value::{Json, Value, lines_of};

verus! {

pub open spec fn old_key() -> Seq<char> {
    seq!['_', '_', 'o', 'l', 'd']
}

pub open spec fn new_key() -> Seq<char> {
    seq!['_', '_', 'n', 'e', 'w']
}

pub open spec fn deleted_suffix() -> Seq<char> {
    seq!['_', '_', 'd', 'e', 'l', 'e', 't', 'e', 'd']
}

pub open spec fn added_suffix() -> Seq<char> {
    seq!['_', '_', 'a', 'd', 'd', 'e', 'd']
}

pub open spec fn ends_with(s: Seq<char>, suffix: Seq<char>) -> bool {
    s.len() >= suffix.len() && s.subrange(s.len() - suffix.len(), s.len() as int) == suffix
}

pub open spec fn strip(s: Seq<char>, suffix: Seq<char>) -> Seq<char> {
    s.subrange(0, s.len() - suffix.len())
}

/// `"key: "`, the prefix of a line that renders an object member.
pub open spec fn key_prefix(key: Seq<char>) -> Seq<char> {
    key + seq![':', ' ']
}

pub open spec fn deeper(indent: Seq<char>) -> Seq<char> {
    indent + seq![' ', ' ']
}

pub open spec fn line(marker: char, text: Seq<char>) -> Seq<char> {
    seq![marker] + text
}

pub open spec fn is_marker(m: char) -> bool {
    m == ' ' || m == '-' || m == '+'
}

/// The two-entry `{__old, __new}` shape of a changed leaf.
pub open spec fn is_change_pair(entries: Seq<(Seq<char>, Json)>) -> bool {
    entries.len() == 2 && (
        (entries[0].0 == old_key() && entries[1].0 == new_key())
        || (entries[0].0 == new_key() && entries[1].0 == old_key()))
}

pub open spec fn is_tag(t: Seq<char>) -> bool {
    t.len() == 1 && (t[0] == ' ' || t[0] == '-' || t[0] == '+' || t[0] == '~')
}

/// An entry of an array diff: `[" "]` or `[tag, value]`.
pub open spec fn is_tagged(item: Json) -> bool {
    match item {
        Json::Array(a) => (a.len() == 1 && a[0] == Json::Str(seq![' ']))
            || (a.len() == 2 && a[0] is Str && is_tag(a[0]->Str_0)),
        _ => false,
    }
}

/// An array is read as an array diff when each of its elements is a tagged entry.
pub open spec fn looks_like_diff(items: Seq<Json>) -> bool {
    forall|i: int| 0 <= i < items.len() ==> is_tagged(#[trigger] items[i])
}

/// The lines that render `d` under `marker`, indented by `indent`, its first
/// line carrying `prefix`.
pub open spec fn render(prefix: Seq<char>, d: Json, marker: char, indent: Seq<char>) -> Seq<Seq<char>>
    decreases d, 0int,
{
    match d {
        Json::Object(es) => {
            if is_change_pair(es) {
                let (o, n) = if es[0].0 == old_key() { (es[0].1, es[1].1) } else { (es[1].1, es[0].1) };
                render(prefix, o, '-', indent) + render(prefix, n, '+', indent)
            } else {
                seq![line(marker, indent + prefix + seq!['{'])]
                    + render_members(es, es.len() as int, marker, deeper(indent))
                    + seq![line(marker, indent + seq!['}'])]
            }
        },
        Json::Array(items) => {
            seq![line(marker, indent + prefix + seq!['['])]
                + (if looks_like_diff(items) {
                    render_tagged(items, items.len() as int, deeper(indent))
                } else {
                    render_items(items, items.len() as int, marker, deeper(indent))
                })
                + seq![line(marker, indent + seq![']'])]
        },
        _ => seq![line(marker, indent + prefix + d.leaf_text())],
    }
}

/// The lines of the first `n` members of an object.
pub open spec fn render_members(es: Seq<(Seq<char>, Json)>, n: int, marker: char, indent: Seq<char>) -> Seq<Seq<char>>
    decreases es, n,
{
    if n <= 0 || n > es.len() {
        Seq::empty()
    } else {
        let (k, v) = es[n - 1];
        render_members(es, n - 1, marker, indent) + if ends_with(k, deleted_suffix()) {
            render(key_prefix(strip(k, deleted_suffix())), v, '-', indent)
        } else if ends_with(k, added_suffix()) {
            render(key_prefix(strip(k, added_suffix())), v, '+', indent)
        } else {
            render(key_prefix(k), v, marker, indent)
        }
    }
}

/// The lines of the first `n` elements of a plain array.
pub open spec fn render_items(items: Seq<Json>, n: int, marker: char, indent: Seq<char>) -> Seq<Seq<char>>
    decreases items, n,
{
    if n <= 0 || n > items.len() {
        Seq::empty()
    } else {
        render_items(items, n - 1, marker, indent) + render(Seq::empty(), items[n - 1], marker, indent)
    }
}

/// The marker under which the value of a tagged entry is rendered.
pub open spec fn tag_marker(t: char) -> char {
    if t == '~' { ' ' } else { t }
}

/// The lines of the first `n` entries of an array diff.
pub open spec fn render_tagged(items: Seq<Json>, n: int, indent: Seq<char>) -> Seq<Seq<char>>
    decreases items, n,
{
    if n <= 0 || n > items.len() {
        Seq::empty()
    } else {
        render_tagged(items, n - 1, indent) + match items[n - 1] {
            Json::Array(a) => if a.len() == 2 && a[0] is Str && a[0]->Str_0.len() > 0 {
                render(Seq::empty(), a[1], tag_marker(a[0]->Str_0[0]), indent)
            } else {
                seq![line(' ', indent + seq!['.', '.', '.'])]
            },
            _ => Seq::empty(),
        }
    }
}

} // verus!

verus! {

fn names_key(k: &String, which_old: bool) -> (r: bool)
    ensures
        r == (k@ == if which_old { old_key() } else { new_key() }),
{
    if which_old {
        proof {
            reveal_strlit("__old");
            assert(old_key() =~= "__old"@);
        }
        k.eq(&String::from_str("__old"))
    } else {
        proof {
            reveal_strlit("__new");
            assert(new_key() =~= "__new"@);
        }
        k.eq(&String::from_str("__new"))
    }
}

/// `k` without `suffix`, when `k` ends with it.
fn strip_suffix(k: &String, suffix: &str) -> (r: Option<String>)
    ensures
        r is Some <==> ends_with(k@, suffix@),
        r is Some ==> r->Some_0@ == strip(k@, suffix@),
{
    let n = k.as_str().unicode_len();
    let m = suffix.unicode_len();
    if n < m {
        return None;
    }
    let start = n - m;
    let mut i: usize = 0;
    while i < m
        invariant
            n == k@.len(),
            m == suffix@.len(),
            start == n - m,
            i <= m,
            forall|j: int| 0 <= j < i ==> k@[start + j] == suffix@[j],
        decreases m - i,
    {
        if k.as_str().get_char(start + i) != suffix.get_char(i) {
            assert(k@.subrange(start as int, n as int)[i as int] != suffix@[i as int]);
            return None;
        }
        i = i + 1;
    }
    assert(k@.subrange(start as int, n as int) =~= suffix@);
    let s = k.as_str().substring_char(0, start);
    Some(String::from_str(s))
}

fn marker_text(m: char) -> (r: &'static str)
    requires
        is_marker(m),
    ensures
        r@ == seq![m],
{
    if m == '-' {
        proof { reveal_strlit("-"); }
        "-"
    } else if m == '+' {
        proof { reveal_strlit("+"); }
        "+"
    } else {
        proof { reveal_strlit(" "); }
        " "
    }
}

fn make_line(m: char, indent: &String, prefix: &String, tail: &str) -> (r: String)
    requires
        is_marker(m),
    ensures
        r@ == line(m, indent@ + prefix@ + tail@),
{
    let mut r = String::from_str(marker_text(m));
    r.append(indent.as_str());
    r.append(prefix.as_str());
    r.append(tail);
    proof {
        assert(r@ =~= line(m, indent@ + prefix@ + tail@));
    }
    r
}

fn with_suffix(s: &String, tail: &str) -> (r: String)
    ensures
        r@ == s@ + tail@,
{
    let mut r = s.clone();
    r.append(tail);
    r
}

proof fn lemma_append3(a: Seq<Seq<char>>, b: Seq<Seq<char>>, c: Seq<Seq<char>>)
    ensures
        (a + b) + c == a + (b + c),
{
    assert((a + b) + c =~= a + (b + c));
}

proof fn lemma_lines_push(v: Seq<String>, s: String)
    ensures
        lines_of(v.push(s)) == lines_of(v).push(s@),
{
    assert(lines_of(v.push(s)) =~= lines_of(v).push(s@));
}

/// Appends to `out` the lines that render `d`.
fn render_into(prefix: &String, d: &Value, marker: char, indent: &String, out: &mut Vec<String>)
    requires
        is_marker(marker),
    ensures
        lines_of(final(out)@) == lines_of(old(out)@) + render(prefix@, d@, marker, indent@),
    decreases d,
{
    let ghost start = lines_of(out@);
    match d {
        Value::Object(entries) => {
            let ghost es = d@->Object_0;
            let pair = entries.len() == 2 && (
                (names_key(&entries[0].0, true) && names_key(&entries[1].0, false))
                || (names_key(&entries[0].0, false) && names_key(&entries[1].0, true)));
            if pair {
                proof {
                    assert(is_change_pair(es));
                    vstd::std_specs::vec::axiom_vec_index_decreases(*entries, 0);
                    vstd::std_specs::vec::axiom_vec_index_decreases(*entries, 1);
                    assert(decreases_to!(*d => d->Object_0));
                }
                let first_old = names_key(&entries[0].0, true);
                let ghost mid;
                if first_old {
                    render_into(prefix, &entries[0].1, '-', indent, out);
                    proof { mid = lines_of(out@); }
                    render_into(prefix, &entries[1].1, '+', indent, out);
                } else {
                    render_into(prefix, &entries[1].1, '-', indent, out);
                    proof { mid = lines_of(out@); }
                    render_into(prefix, &entries[0].1, '+', indent, out);
                }
                proof {
                    lemma_append3(start, render(prefix@, if first_old { es[0].1 } else { es[1].1 }, '-', indent@),
                        render(prefix@, if first_old { es[1].1 } else { es[0].1 }, '+', indent@));
                }
            } else {
                proof { assert(!is_change_pair(es)); }
                let first = make_line(marker, indent, prefix, "{");
                proof {
                    reveal_strlit("{");
                    assert(indent@ + prefix@ + "{"@ =~= indent@ + prefix@ + seq!['{']);
                }
                proof { lemma_lines_push(out@, first); }
                out.push(first);
                let sub = with_suffix(indent, "  ");
                proof { reveal_strlit("  "); assert(sub@ =~= deeper(indent@)); }
                let mut i: usize = 0;
                while i < entries.len()
                    invariant
                        is_marker(marker),
                        *d is Object,
                        d->Object_0 == *entries,
                        es == d@->Object_0,
                        sub@ == deeper(indent@),
                        i <= entries.len(),
                        lines_of(out@) == start + seq![first@] + render_members(es, i as int, marker, sub@),
                    decreases entries.len() - i,
                {
                    proof {
                        vstd::std_specs::vec::axiom_vec_index_decreases(*entries, i as int);
                        assert(decreases_to!(*d => d->Object_0));
                    }
                    let ghost before = lines_of(out@);
                    let k = &entries[i].0;
                    let v = &entries[i].1;
                    proof {
                        reveal_strlit("__deleted");
                        reveal_strlit("__added");
                        reveal_strlit(": ");
                        assert(deleted_suffix() =~= "__deleted"@);
                        assert(added_suffix() =~= "__added"@);
                        assert(seq![':', ' '] =~= ": "@);
                        assert(es[i as int] == (k@, v@));
                    }
                    let del = strip_suffix(k, "__deleted");
                    match del {
                        Some(s) => {
                            let p = with_suffix(&s, ": ");
                            proof { assert(p@ == key_prefix(strip(k@, deleted_suffix()))); }
                            render_into(&p, v, '-', &sub, out);
                        },
                        None => {
                            let add = strip_suffix(k, "__added");
                            match add {
                                Some(s) => {
                                    let p = with_suffix(&s, ": ");
                                    proof { assert(p@ == key_prefix(strip(k@, added_suffix()))); }
                                    render_into(&p, v, '+', &sub, out);
                                },
                                None => {
                                    let p = with_suffix(k, ": ");
                                    render_into(&p, v, marker, &sub, out);
                                },
                            }
                        },
                    }
                    proof {
                        assert(deleted_suffix() == "__deleted"@);
                        assert(added_suffix() == "__added"@);
                        let piece = lines_of(out@).subrange(before.len() as int, lines_of(out@).len() as int);
                        assert(render_members(es, i + 1, marker, sub@)
                            == render_members(es, i as int, marker, sub@) + piece);
                        lemma_append3(start + seq![first@], render_members(es, i as int, marker, sub@), piece);
                        assert(lines_of(out@) =~= before + piece);
                    }
                    i = i + 1;
                }
                let empty = String::new();
                let last = make_line(marker, indent, &empty, "}");
                proof {
                    lemma_lines_push(out@, last);
                    reveal_strlit("}");
                    assert(indent@ + empty@ + "}"@ =~= indent@ + seq!['}']);
                }
                out.push(last);
                proof {
                    assert(lines_of(out@) =~= start + render(prefix@, d@, marker, indent@));
                }
            }
        },
        Value::Array(items) => {
            let ghost its = d@->Array_0;
            let first = make_line(marker, indent, prefix, "[");
            proof {
                reveal_strlit("[");
                assert(indent@ + prefix@ + "["@ =~= indent@ + prefix@ + seq!['[']);
            }
            proof { lemma_lines_push(out@, first); }
            out.push(first);
            let sub = with_suffix(indent, "  ");
            proof { reveal_strlit("  "); assert(sub@ =~= deeper(indent@)); }
            let mut tagged = true;
            let mut i: usize = 0;
            while i < items.len()
                invariant
                    *d is Array,
                    d->Array_0 == *items,
                    its == d@->Array_0,
                    i <= items.len(),
                    tagged == (forall|j: int| 0 <= j < i ==> is_tagged(#[trigger] its[j])),
                decreases items.len() - i,
            {
                proof { assert(its[i as int] == items[i as int]@); }
                if !entry_is_tagged(&items[i]) {
                    tagged = false;
                }
                i = i + 1;
            }
            let mut i: usize = 0;
            while i < items.len()
                invariant
                    is_marker(marker),
                    *d is Array,
                    d->Array_0 == *items,
                    its == d@->Array_0,
                    sub@ == deeper(indent@),
                    tagged == looks_like_diff(its),
                    i <= items.len(),
                    lines_of(out@) == start + seq![first@] + (if tagged {
                        render_tagged(its, i as int, sub@)
                    } else {
                        render_items(its, i as int, marker, sub@)
                    }),
                decreases items.len() - i,
            {
                proof {
                    vstd::std_specs::vec::axiom_vec_index_decreases(*items, i as int);
                    assert(decreases_to!(*d => d->Array_0));
                }
                let ghost before = lines_of(out@);
                let empty = String::new();
                if tagged {
                    proof { assert(is_tagged(its[i as int])); }
                    match &items[i] {
                        Value::Array(a) => {
                            let mut rendered = false;
                            if a.len() == 2 {
                                match &a[0] {
                                    Value::String(t) => {
                                        proof {
                                            assert(its[i as int] == items[i as int]@);
                                            assert(its[i as int]->Array_0[0] == a[0]@);
                                        }
                                        let c = t.as_str().get_char(0);
                                        let m = if c == '~' { ' ' } else { c };
                                        proof {
                                            vstd::std_specs::vec::axiom_vec_index_decreases(*a, 1);
                                            assert(decreases_to!(items[i as int] => items[i as int]->Array_0));
                                        }
                                        render_into(&empty, &a[1], m, &sub, out);
                                        rendered = true;
                                    },
                                    _ => {},
                                }
                            }
                            if !rendered {
                                proof { reveal_strlit("..."); }
                                let l = make_line(' ', &sub, &empty, "...");
                                proof { assert(sub@ + empty@ + "..."@ =~= sub@ + seq!['.', '.', '.']); }
                                proof { lemma_lines_push(out@, l); }
                                out.push(l);
                            }
                        },
                        _ => {},
                    }
                } else {
                    render_into(&empty, &items[i], marker, &sub, out);
                }
                proof {
                    let piece = lines_of(out@).subrange(before.len() as int, lines_of(out@).len() as int);
                    if tagged {
                        assert(render_tagged(its, i + 1, sub@) =~= render_tagged(its, i as int, sub@) + piece);
                        lemma_append3(start + seq![first@], render_tagged(its, i as int, sub@), piece);
                    } else {
                        assert(render_items(its, i + 1, marker, sub@) =~= render_items(its, i as int, marker, sub@) + piece);
                        lemma_append3(start + seq![first@], render_items(its, i as int, marker, sub@), piece);
                    }
                    assert(lines_of(out@) =~= before + piece);
                }
                i = i + 1;
            }
            let empty = String::new();
            let last = make_line(marker, indent, &empty, "]");
            proof {
                lemma_lines_push(out@, last);
                reveal_strlit("]");
                assert(indent@ + empty@ + "]"@ =~= indent@ + seq![']']);
            }
            out.push(last);
            proof {
                assert(lines_of(out@) =~= start + render(prefix@, d@, marker, indent@));
            }
        },
        _ => {
            let t = d.leaf_text();
            let l = make_line(marker, indent, prefix, t.as_str());
            proof { lemma_lines_push(out@, l); }
            out.push(l);
            proof {
                assert(lines_of(out@) =~= start + render(prefix@, d@, marker, indent@));
            }
        },
    }
}

fn is_tag_text(t: &String) -> (r: bool)
    ensures
        r == is_tag(t@),
{
    if t.as_str().unicode_len() != 1 {
        return false;
    }
    let c = t.as_str().get_char(0);
    c == ' ' || c == '-' || c == '+' || c == '~'
}

fn entry_is_tagged(item: &Value) -> (r: bool)
    ensures
        r == is_tagged(item@),
{
    match item {
        Value::Array(a) => {
            proof {
                if a.len() > 0 {
                    assert(item@->Array_0[0] == a[0]@);
                }
            }
            if a.len() == 1 {
                match &a[0] {
                    Value::String(t) => {
                        let r = t.as_str().unicode_len() == 1 && t.as_str().get_char(0) == ' ';
                        proof {
                            if r {
                                assert(t@ =~= seq![' ']);
                            }
                        }
                        r
                    },
                    _ => false,
                }
            } else if a.len() == 2 {
                match &a[0] {
                    Value::String(t) => is_tag_text(t),
                    _ => false,
                }
            } else {
                false
            }
        },
        _ => false,
    }
}

} // verus!

verus! {

/// The lines of a whole diff tree, each starting with its marker.
pub open spec fn render_top(d: Json) -> Seq<Seq<char>> {
    render(Seq::empty(), d, ' ', Seq::empty())
}

/// The lines, each followed by a newline.
pub open spec fn text_of(lines: Seq<Seq<char>>) -> Seq<char>
    decreases lines.len(),
{
    if lines.len() == 0 {
        Seq::empty()
    } else {
        text_of(lines.drop_last()) + lines.last() + seq!['\n']
    }
}

/// Returns the lines that render the diff tree `diff`.
pub fn colorize_to_array(diff: &Value) -> (r: Vec<String>)
    ensures
        lines_of(r@) == render_top(diff@),
{
    let mut out: Vec<String> = Vec::new();
    let empty = String::new();
    render_into(&empty, diff, ' ', &empty, &mut out);
    proof {
        assert(lines_of(Seq::<String>::empty()) =~= Seq::<Seq<char>>::empty());
        assert(Seq::<Seq<char>>::empty() + render_top(diff@) =~= render_top(diff@));
    }
    out
}

/// The lines joined into one text, each followed by a newline.
pub fn join_lines(lines: &Vec<String>) -> (r: String)
    ensures
        r@ == text_of(lines_of(lines@)),
{
    let mut r = String::new();
    let mut i: usize = 0;
    proof { reveal_strlit("\n"); }
    while i < lines.len()
        invariant
            i <= lines.len(),
            r@ == text_of(lines_of(lines@.subrange(0, i as int))),
            "\n"@ == seq!['\n'],
        decreases lines.len() - i,
    {
        r.append(lines[i].as_str());
        r.append("\n");
        proof {
            let l = lines_of(lines@.subrange(0, i + 1));
            assert(l.drop_last() =~= lines_of(lines@.subrange(0, i as int)));
            assert(l.last() == lines[i as int]@);
        }
        i = i + 1;
    }
    proof { assert(lines@.subrange(0, lines.len() as int) =~= lines@); }
    r
}

/// Relies on console's `Style::green` and `StyledObject`'s `Display`: the
/// line written unchanged, with colour codes before and after it where the
/// terminal takes colours.
#[verifier::external_body]
fn paint_green(line: &String) -> (r: String)
    ensures
        exists|p: Seq<char>, q: Seq<char>| r@ == p + line@ + q,
{
    console::Style::new().green().apply_to(line).to_string()
}

/// Relies on console's `Style::red` and `StyledObject`'s `Display`: the line
/// written unchanged, with colour codes before and after it where the
/// terminal takes colours.
#[verifier::external_body]
fn paint_red(line: &String) -> (r: String)
    ensures
        exists|p: Seq<char>, q: Seq<char>| r@ == p + line@ + q,
{
    console::Style::new().red().apply_to(line).to_string()
}

/// How a rendered line `l` may come out as `p`: unchanged without colours
/// or under the marker ` `; else the line itself with colour codes around it.
pub open spec fn painted_as(l: Seq<char>, p: Seq<char>, is_color: bool) -> bool {
    if !is_color || l.len() == 0 || (l[0] != '+' && l[0] != '-') {
        p == l
    } else {
        exists|x: Seq<char>, y: Seq<char>| p == x + l + y
    }
}

/// Returns the diff tree `diff` rendered as one text, a line for each line
/// of `colorize_to_array`; with `is_color`, added lines are painted in the
/// affirmative colour and removed lines in the warning colour.
pub fn colorize(diff: &Value, is_color: bool) -> (r: String)
    ensures
        !is_color ==> r@ == text_of(render_top(diff@)),
        exists|ps: Seq<Seq<char>>| {
            &&& ps.len() == render_top(diff@).len()
            &&& r@ == text_of(ps)
            &&& forall|i: int| 0 <= i < ps.len() ==> painted_as(render_top(diff@)[i], #[trigger] ps[i], is_color)
        },
{
    let lines = colorize_to_array(diff);
    let ghost rl = render_top(diff@);
    let mut painted: Vec<String> = Vec::new();
    let mut i: usize = 0;
    while i < lines.len()
        invariant
            lines_of(lines@) == rl,
            i <= lines.len(),
            painted.len() == i,
            forall|j: int| 0 <= j < i ==> painted_as(rl[j], #[trigger] lines_of(painted@)[j], is_color),
        decreases lines.len() - i,
    {
        let l = &lines[i];
        proof { assert(rl[i as int] == l@); }
        let mut first = ' ';
        if l.as_str().unicode_len() > 0 {
            first = l.as_str().get_char(0);
        }
        let p = if is_color && first == '+' {
            paint_green(l)
        } else if is_color && first == '-' {
            paint_red(l)
        } else {
            l.clone()
        };
        proof {
            assert(painted_as(l@, p@, is_color));
            lemma_lines_push(painted@, p);
        }
        painted.push(p);
        proof {
            assert forall|j: int| 0 <= j < i + 1 implies painted_as(rl[j], #[trigger] lines_of(painted@)[j], is_color) by {
                if j < i {
                    assert(lines_of(painted@)[j] == lines_of(painted@).drop_last()[j]);
                }
            }
        }
        i = i + 1;
    }
    let r = join_lines(&painted);
    proof {
        let ps = lines_of(painted@);
        assert(ps.len() == rl.len());
        if !is_color {
            assert(ps =~= rl);
        }
    }
    r
}

/// Rendering never comes out empty: every diff tree gives at least one line.
pub proof fn lemma_render_nonempty(prefix: Seq<char>, d: Json, marker: char, indent: Seq<char>)
    ensures
        render(prefix, d, marker, indent).len() >= 1,
    decreases d,
{
    match d {
        Json::Object(es) => {
            if is_change_pair(es) {
                let o = if es[0].0 == old_key() { es[0].1 } else { es[1].1 };
                assert(decreases_to!(es => es[0]));
                assert(decreases_to!(es => es[1]));
                lemma_render_nonempty(prefix, o, '-', indent);
            }
        },
        _ => {},
    }
}

/// A change of a leaf, `{"__old": a, "__new": b}`, renders as exactly two
/// lines: `a` under `-`, then `b` under `+`.
pub proof fn lemma_change_pair_lines(prefix: Seq<char>, a: Json, b: Json, marker: char, indent: Seq<char>)
    requires
        !a.is_container(),
        !b.is_container(),
    ensures
        render(prefix, Json::Object(seq![(old_key(), a), (new_key(), b)]), marker, indent)
            == seq![line('-', indent + prefix + a.leaf_text()), line('+', indent + prefix + b.leaf_text())],
{
    let es = seq![(old_key(), a), (new_key(), b)];
    assert(is_change_pair(es));
    assert(es[0].0 == old_key());
    assert(render(prefix, a, '-', indent) == seq![line('-', indent + prefix + a.leaf_text())]);
    assert(render(prefix, b, '+', indent) == seq![line('+', indent + prefix + b.leaf_text())]);
    assert(render(prefix, Json::Object(es), marker, indent)
        =~= seq![line('-', indent + prefix + a.leaf_text()), line('+', indent + prefix + b.leaf_text())]);
}

} // verus!
