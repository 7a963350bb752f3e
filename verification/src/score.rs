//! The score of an alignment: lower is better.

use vstd::prelude::*;

verus! {

/// What the position at index `k` of `m` costs: nothing where it directly
/// follows the position before it, else the position itself. The first
/// position follows no other, so it always costs itself.
pub open spec fn step_cost(m: Seq<usize>, k: int) -> int {
    if k > 0 && m[k - 1] + 1 == m[k] {
        0
    } else {
        m[k] as int
    }
}

/// The cost of the first `n` positions of `m`.
pub open spec fn gap_cost(m: Seq<usize>, n: int) -> int
    decreases n,
{
    if n <= 0 {
        0
    } else {
        gap_cost(m, n - 1) + step_cost(m, n - 1)
    }
}

/// The cost of an alignment as it counts in the score: as it is where the
/// strict scan found the alignment, a thousandfold where it is only the loose
/// one.
pub open spec fn penalized(cost: int, strict: bool) -> int {
    if strict {
        cost
    } else {
        1000 * cost
    }
}

/// The score of alignment `m` of a query of `qlen` characters in a candidate
/// of `tlen` characters: the cost of its positions, under the penalty where
/// the alignment is only the loose one, plus the number of characters by
/// which the candidate is longer than the query.
pub open spec fn score_of(m: Seq<usize>, strict: bool, qlen: nat, tlen: nat) -> int {
    penalized(gap_cost(m, m.len() as int), strict) + (tlen - qlen)
}

/// `x`, or the largest `usize` where `x` is beyond it.
pub open spec fn capped(x: int) -> usize {
    if x >= usize::MAX {
        usize::MAX
    } else if x < 0 {
        0
    } else {
        x as usize
    }
}

/// No position costs less than nothing.
pub proof fn lemma_gap_cost_nonnegative(m: Seq<usize>, n: int)
    ensures
        gap_cost(m, n) >= 0,
    decreases n,
{
    if n > 0 {
        lemma_gap_cost_nonnegative(m, n - 1);
    }
}

/// `a + b`, or the largest `usize` where the sum is beyond it.
fn add_capped(a: usize, b: usize) -> (r: usize)
    ensures
        r == capped(a + b),
{
    if a > usize::MAX - b {
        usize::MAX
    } else {
        a + b
    }
}

/// The score of an alignment, capped at the largest `usize`.
pub fn score(m: &Vec<usize>, strict: bool, qlen: usize, tlen: usize) -> (r: usize)
    requires
        qlen <= tlen,
    ensures
        r == capped(score_of(m@, strict, qlen as nat, tlen as nat)),
{
    let mut cost: usize = 0;
    let mut last: usize = 0;
    let mut k: usize = 0;
    while k < m.len()
        invariant
            k <= m.len(),
            last as int == (if k == 0 {
                0
            } else {
                m@[k - 1] as int
            }),
            gap_cost(m@, k as int) >= 0,
            cost == capped(gap_cost(m@, k as int)),
        decreases m.len() - k,
    {
        let x: usize = m[k];
        if k == 0 || x == 0 || x - 1 != last {
            cost = add_capped(cost, x);
        }
        last = x;
        k += 1;
    }
    if !strict {
        let ghost exact = gap_cost(m@, m@.len() as int);
        if cost > usize::MAX / 1000 {
            assert(exact * 1000 >= usize::MAX);
            cost = usize::MAX;
        } else {
            assert(exact * 1000 <= usize::MAX);
            cost = cost * 1000;
        }
    }
    add_capped(cost, tlen - qlen)
}

} // verus!
