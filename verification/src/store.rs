//! The vector store: an ordered sequence of note records.
//!
//! A record couples a note's text with its normalized embedding. The position
//! of a record in the store is also its identifier in the nearest-neighbour
//! index, so every mutation that shifts positions must be followed by an
//! index rebuild; the search service enforces that coupling.

use vstd::prelude::*;
use crate::vecmath::bounded;
use crate::vecmath::SCALE;

verus! {

/// Largest note text length (in characters) the store accepts; it keeps the
/// persisted decimal length field within nine digits.
pub const MAX_TEXT: usize = 999_999_999;

/// Largest embedding dimensionality the persisted form can carry; it keeps
/// the persisted decimal dimension field within nine digits.
pub const MAX_PERSIST_DIM: usize = 999_999_999;

/// One note with its embedding.
pub struct NoteRecord {
    pub text: String,
    pub embedding: Vec<i32>,
}

/// The mathematical content of a record: its text and its embedding.
pub open spec fn rec_view(r: NoteRecord) -> (Seq<char>, Seq<i32>) {
    (r.text@, r.embedding@)
}

/// The mathematical content of a whole store.
pub open spec fn store_views(s: Seq<NoteRecord>) -> Seq<(Seq<char>, Seq<i32>)> {
    s.map_values(|r: NoteRecord| rec_view(r))
}

/// A record view the persisted form can represent: text and dimension within
/// the decimal field caps, components within the normalized range.
pub open spec fn view_wf(v: (Seq<char>, Seq<i32>)) -> bool {
    &&& v.0.len() <= MAX_TEXT as int
    &&& v.1.len() <= MAX_PERSIST_DIM as int
    &&& bounded(v.1, SCALE as int)
}

/// All records of a store are representable.
pub open spec fn views_wf(vs: Seq<(Seq<char>, Seq<i32>)>) -> bool {
    forall|i: int| 0 <= i < vs.len() ==> view_wf(#[trigger] vs[i])
}

/// Some record of `s` has exactly the text `t`.
pub open spec fn has_text(s: Seq<NoteRecord>, t: Seq<char>) -> bool {
    exists|i: int| 0 <= i < s.len() && #[trigger] s[i].text@ == t
}

/// Predicate satisfied by the records that survive removal of text `t`.
pub open spec fn keeps(t: Seq<char>) -> spec_fn(NoteRecord) -> bool {
    |r: NoteRecord| r.text@ != t
}

/// Predicate satisfied by the records removal of text `t` deletes.
pub open spec fn drops(t: Seq<char>) -> spec_fn(NoteRecord) -> bool {
    |r: NoteRecord| r.text@ == t
}

/// Removal partitions a store: the records kept and the records dropped
/// account for every record, so the store shrinks by exactly the number of
/// exact matches.
pub proof fn lemma_remove_partition(s: Seq<NoteRecord>, t: Seq<char>)
    ensures
        s.filter(keeps(t)).len() + s.filter(drops(t)).len() == s.len(),
    decreases s.len(),
{
    reveal(Seq::filter);
    if s.len() > 0 {
        lemma_remove_partition(s.drop_last(), t);
    }
}

/// After removal of `t`, no surviving record has text `t`.
pub proof fn lemma_removed_gone(s: Seq<NoteRecord>, t: Seq<char>)
    ensures
        !has_text(s.filter(keeps(t)), t),
{
    let kept = s.filter(keeps(t));
    assert forall|i: int| 0 <= i < kept.len() implies kept[i].text@ != t by {
        Seq::lemma_filter_pred(s, keeps(t), i);
    }
}

/// Removing a text no record has leaves the store unchanged.
pub proof fn lemma_remove_absent(s: Seq<NoteRecord>, t: Seq<char>)
    requires
        !has_text(s, t),
    ensures
        s.filter(keeps(t)) == s,
    decreases s.len(),
{
    reveal(Seq::filter);
    if s.len() > 0 {
        assert(forall|i: int|
            0 <= i < s.drop_last().len() ==> #[trigger] s.drop_last()[i].text@ == s[i].text@);
        lemma_remove_absent(s.drop_last(), t);
        assert(s.last().text@ != t);
        assert(s.filter(keeps(t)) =~= s);
    }
}

/// Every record that survives a filter is one of the original records.
pub proof fn lemma_filter_sub(s: Seq<NoteRecord>, pred: spec_fn(NoteRecord) -> bool, j: int)
    requires
        0 <= j < s.filter(pred).len(),
    ensures
        exists|i: int| 0 <= i < s.len() && #[trigger] s[i] == s.filter(pred)[j],
    decreases s.len(),
{
    reveal(Seq::filter);
    if s.len() > 0 {
        let fd = s.drop_last().filter(pred);
        if pred(s.last()) && j == fd.len() {
            assert(s[s.len() - 1] == s.filter(pred)[j]);
        } else {
            lemma_filter_sub(s.drop_last(), pred, j);
            let i = choose|i: int|
                0 <= i < s.drop_last().len() && #[trigger] s.drop_last()[i] == fd[j];
            assert(s[i] == s.filter(pred)[j]);
        }
    }
}

/// Appends a record; the caller persists afterwards.
pub fn append(records: &mut Vec<NoteRecord>, r: NoteRecord)
    ensures
        final(records)@ == old(records)@.push(r),
{
    records.push(r);
}

/// Removes every record whose text equals `text` exactly; returns whether
/// anything was removed. Removal shifts positions, so the caller must
/// rebuild the nearest-neighbour index afterwards.
pub fn remove_by_text(records: &mut Vec<NoteRecord>, text: &str) -> (removed: bool)
    ensures
        final(records)@ == old(records)@.filter(keeps(text@)),
        removed == has_text(old(records)@, text@),
{
    let ghost orig = records@;
    let ghost pred = keeps(text@);
    let needle: String = text.to_owned();
    let mut removed = false;
    // `j` records processed so far; the first `i` entries are the survivors.
    let mut i: usize = 0;
    let mut j: usize = 0;
    let n0 = records.len();
    proof {
        assert(orig.len() == n0 as int);
        reveal(Seq::filter);
        assert(orig.subrange(0, 0) =~= Seq::<NoteRecord>::empty());
        assert(Seq::<NoteRecord>::empty().filter(pred) =~= Seq::<NoteRecord>::empty());
        assert(records@ =~= orig.subrange(0, 0).filter(pred) + orig.skip(0));
    }
    while i < records.len()
        invariant
            0 <= j <= orig.len() <= usize::MAX as int,
            i as int == orig.subrange(0, j as int).filter(pred).len(),
            needle@ == text@,
            pred == keeps(text@),
            records@ == orig.subrange(0, j as int).filter(pred) + orig.skip(j as int),
            removed == exists|p: int| 0 <= p < j as int && #[trigger] orig[p].text@ == text@,
        decreases orig.len() - j,
    {
        proof {
            assert(records@.len() == orig.subrange(0, j as int).filter(pred).len() + (orig.len()
                - j as int));
            assert(j < orig.len());
            Seq::lemma_filter_len(orig.subrange(0, j as int), pred);
            assert(records@[i as int] == orig[j as int]);
            reveal(Seq::filter);
            let prefix = orig.subrange(0, j as int + 1);
            assert(prefix.drop_last() =~= orig.subrange(0, j as int));
            assert(prefix.last() == orig[j as int]);
        }
        let keep = !(records[i].text == needle);
        if keep {
            proof {
                assert(records@ =~= orig.subrange(0, j as int + 1).filter(pred) + orig.skip(
                    j as int + 1,
                ));
            }
            i = i + 1;
        } else {
            removed = true;
            records.remove(i);
            proof {
                assert(records@ =~= orig.subrange(0, j as int + 1).filter(pred) + orig.skip(
                    j as int + 1,
                ));
            }
        }
        j = j + 1;
    }
    proof {
        assert(orig.subrange(0, orig.len() as int) =~= orig);
        assert(records@ =~= orig.filter(pred));
        assert(removed == has_text(orig, text@));
    }
    removed
}

} // verus!
