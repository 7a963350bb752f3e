//! Alignments: the positions in a candidate at which the characters of a
//! query were found, one position for each character, in order.

use vstd::prelude::*;
use crate::text::caseless_eq;

verus! {

/// The positions grow strictly from one to the next.
pub open spec fn strictly_increasing(m: Seq<usize>) -> bool {
    forall|i: int, j: int| 0 <= i < j < m.len() ==> m[i] < m[j]
}

/// Every position lies inside a candidate of `tlen` characters.
pub open spec fn in_bounds(m: Seq<usize>, tlen: nat) -> bool {
    forall|i: int| 0 <= i < m.len() ==> m[i] < tlen
}

/// `m` is an alignment of a query of `qlen` characters in a candidate of
/// `tlen` characters: one position for each character of the query, strictly
/// increasing, all inside the candidate.
pub open spec fn is_alignment(m: Seq<usize>, qlen: nat, tlen: nat) -> bool {
    &&& m.len() == qlen
    &&& strictly_increasing(m)
    &&& in_bounds(m, tlen)
}

/// At each position of `m` the candidate holds the query's character, up to
/// case.
pub open spec fn witnesses(m: Seq<usize>, q: Seq<char>, t: Seq<char>) -> bool {
    forall|k: int|
        0 <= k < m.len() && k < q.len() && m[k] < t.len() ==> caseless_eq(q[k], #[trigger] t[m[k] as int])
}

/// A strictly increasing sequence of positions lies at or above its indices.
pub proof fn lemma_increasing_above_index(m: Seq<usize>, k: int)
    requires
        strictly_increasing(m),
        0 <= k < m.len(),
    ensures
        m[k] >= k,
    decreases k,
{
    if k > 0 {
        lemma_increasing_above_index(m, k - 1);
    }
}

/// An alignment is no longer than the candidate it points into.
pub proof fn lemma_alignment_fits(m: Seq<usize>, qlen: nat, tlen: nat)
    requires
        is_alignment(m, qlen, tlen),
    ensures
        qlen <= tlen,
{
    if qlen > 0 {
        lemma_increasing_above_index(m, qlen - 1);
    }
}

} // verus!
