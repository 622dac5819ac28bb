use vstd::prelude::*;

use smallvec::SmallVec;

verus! {

/// A box-level candidate: octant index, then the entry distance's
/// numerator and denominator.
pub type Candidate = (u8, i64, i64);

/// A short list of candidates, kept inline while it holds at most four.
#[verifier::external_body]
pub struct CandidateList {
    items: SmallVec<[Candidate; 4]>,
}

/// What a candidate list holds, front to back.
pub uninterp spec fn candidate_items(v: CandidateList) -> Seq<Candidate>;

/// Relies on `SmallVec::new`: a new vector is empty.
#[verifier::external_body]
pub(crate) fn candidates_new() -> (r: CandidateList)
    ensures
        candidate_items(r) == Seq::<Candidate>::empty(),
{
    CandidateList { items: SmallVec::new() }
}

/// Relies on `SmallVec::len`: the number of items held.
#[verifier::external_body]
pub(crate) fn candidates_len(v: &CandidateList) -> (r: usize)
    ensures
        r == candidate_items(*v).len(),
{
    v.items.len()
}

/// Relies on `SmallVec`'s indexing: the item at position `i`.
#[verifier::external_body]
pub(crate) fn candidates_get(v: &CandidateList, i: usize) -> (r: Candidate)
    requires
        i < candidate_items(*v).len(),
    ensures
        r == candidate_items(*v)[i as int],
{
    v.items[i]
}

/// Relies on `SmallVec::insert`: places `c` at position `i`, shifting the
/// later items right; it panics when `i` exceeds the length.
#[verifier::external_body]
pub(crate) fn candidates_insert(v: &mut CandidateList, i: usize, c: Candidate)
    requires
        i <= candidate_items(*old(v)).len(),
    ensures
        candidate_items(*final(v)) == candidate_items(*old(v)).insert(i as int, c),
{
    v.items.insert(i, c)
}

} // verus!
