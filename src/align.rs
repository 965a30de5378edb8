use vstd::prelude::*;

verus! {

/// One edit operation over two token sequences: `tag` is `equal`, `delete`,
/// `insert` or `replace`, with a range of each sequence.
pub struct Opcode {
    pub tag: String,
    pub first_start: usize,
    pub first_end: usize,
    pub second_start: usize,
    pub second_end: usize,
}

impl Opcode {
    pub open spec fn view(&self) -> (Seq<char>, int, int, int, int) {
        (self.tag@, self.first_start as int, self.first_end as int, self.second_start as int, self.second_end as int)
    }
}

pub open spec fn equal_tag() -> Seq<char> {
    seq!['e', 'q', 'u', 'a', 'l']
}

pub open spec fn delete_tag() -> Seq<char> {
    seq!['d', 'e', 'l', 'e', 't', 'e']
}

pub open spec fn insert_tag() -> Seq<char> {
    seq!['i', 'n', 's', 'e', 'r', 't']
}

pub open spec fn replace_tag() -> Seq<char> {
    seq!['r', 'e', 'p', 'l', 'a', 'c', 'e']
}

/// One operation is of a known kind, and its ranges fit it: `equal` spans
/// two non-empty ranges of equal tokens, `delete` only a range of the first
/// sequence, `insert` only one of the second, `replace` one of each.
pub open spec fn well_tagged(o: Opcode, s1: Seq<u128>, s2: Seq<u128>) -> bool {
    &&& o.first_start <= o.first_end <= s1.len()
    &&& o.second_start <= o.second_end <= s2.len()
    &&& (o.tag@ == equal_tag() || o.tag@ == delete_tag() || o.tag@ == insert_tag() || o.tag@ == replace_tag())
    &&& o.tag@ == equal_tag() ==> {
        &&& o.first_start < o.first_end
        &&& o.first_end - o.first_start == o.second_end - o.second_start
        &&& forall|t: int| 0 <= t < o.first_end - o.first_start
            ==> s1[o.first_start + t] == #[trigger] s2[o.second_start + t]
    }
    &&& o.tag@ == delete_tag() ==> o.first_start < o.first_end && o.second_start == o.second_end
    &&& o.tag@ == insert_tag() ==> o.first_start == o.first_end && o.second_start < o.second_end
    &&& o.tag@ == replace_tag() ==> o.first_start < o.first_end && o.second_start < o.second_end
}

/// The operations cover both sequences once, in order, from their starts to
/// their ends; two equal non-empty sequences give a single `equal`.
pub open spec fn covers(ops: Seq<Opcode>, s1: Seq<u128>, s2: Seq<u128>) -> bool {
    &&& ops.len() == 0 <==> (s1.len() == 0 && s2.len() == 0)
    &&& ops.len() > 0 ==> ops[0].first_start == 0 && ops[0].second_start == 0
    &&& ops.len() > 0 ==> ops.last().first_end == s1.len() && ops.last().second_end == s2.len()
    &&& forall|i: int| 0 <= i < ops.len() - 1 ==> (#[trigger] ops[i]).first_end == ops[i + 1].first_start
        && ops[i].second_end == ops[i + 1].second_start
    &&& forall|i: int| 0 <= i < ops.len() ==> well_tagged(#[trigger] ops[i], s1, s2)
    &&& (s1 == s2 && s1.len() > 0) ==> ops.len() == 1 && ops[0].tag@ == equal_tag()
}

/// The edit script that the sequence aligner gives for two token sequences.
pub uninterp spec fn opcodes_for(s1: Seq<u128>, s2: Seq<u128>) -> Seq<(Seq<char>, int, int, int, int)>;

/// Relies on difflib's `SequenceMatcher::new` and `get_opcodes`: the edit
/// script depends on the two sequences alone; it is built from the matching
/// blocks, which are ordered and end with an empty block at both ends, so
/// its operations cover both sequences in order, and an `equal` operation
/// spans one non-empty block of equal tokens. For two equal sequences the
/// longest match found is the whole of both.
#[verifier::external_body]
pub(crate) fn align(s1: &Vec<u128>, s2: &Vec<u128>) -> (r: Vec<Opcode>)
    ensures
        r@.len() == opcodes_for(s1@, s2@).len(),
        forall|i: int| 0 <= i < r@.len() ==> (#[trigger] r@[i])@ == opcodes_for(s1@, s2@)[i],
        covers(r@, s1@, s2@),
{
    let mut matcher = difflib::sequencematcher::SequenceMatcher::new(s1, s2);
    matcher.get_opcodes().into_iter().map(|o| Opcode {
        tag: o.tag,
        first_start: o.first_start,
        first_end: o.first_end,
        second_start: o.second_start,
        second_end: o.second_end,
    }).collect()
}

} // verus!
