//! The first pass: the leftmost in-order occurrence of the query in a
//! candidate, given up once too many characters in a row fail to match.

use vstd::prelude::*;
use crate::align::{in_bounds, is_alignment, strictly_increasing, witnesses};
use crate::text::{caseless_eq, chars_caseless_eq};

verus! {

/// The scan from query position `qi` and candidate position `ti`, after
/// `misses` characters in a row that did not match, with the positions in
/// `found` recorded so far. A match records the position and clears the
/// count; a miss that brings the count to `limit` ends the scan without a
/// result, as does the end of the candidate.
pub open spec fn loose_scan(
    q: Seq<char>,
    t: Seq<char>,
    limit: nat,
    qi: int,
    ti: int,
    misses: nat,
    found: Seq<usize>,
) -> Option<Seq<usize>>
    decreases t.len() - ti,
{
    if qi < 0 || qi >= q.len() {
        Some(found)
    } else if ti < 0 || ti >= t.len() {
        None
    } else if caseless_eq(q[qi], t[ti]) {
        loose_scan(q, t, limit, qi + 1, ti + 1, 0, found.push(ti as usize))
    } else if misses + 1 >= limit {
        None
    } else {
        loose_scan(q, t, limit, qi, ti + 1, misses + 1, found)
    }
}

/// The loose alignment of `q` in `t`, if the scan finds one.
pub open spec fn loose_alignment(q: Seq<char>, t: Seq<char>, limit: nat) -> Option<Seq<usize>> {
    loose_scan(q, t, limit, 0, 0, 0, Seq::empty())
}

/// What the scan returns extends what it had found by one position for each
/// query character left, each after the last, inside the candidate, and on a
/// character that matches.
pub proof fn lemma_loose_scan_aligned(
    q: Seq<char>,
    t: Seq<char>,
    limit: nat,
    qi: int,
    ti: int,
    misses: nat,
    found: Seq<usize>,
)
    requires
        t.len() <= usize::MAX,
        0 <= qi <= q.len(),
        0 <= ti <= t.len(),
        found.len() == qi,
        strictly_increasing(found),
        in_bounds(found, ti as nat),
        witnesses(found, q, t),
    ensures
        match loose_scan(q, t, limit, qi, ti, misses, found) {
            Some(m) => is_alignment(m, q.len(), t.len()) && witnesses(m, q, t),
            None => true,
        },
    decreases t.len() - ti,
{
    if qi >= q.len() {
    } else if ti >= t.len() {
    } else if caseless_eq(q[qi], t[ti]) {
        let next = found.push(ti as usize);
        assert(strictly_increasing(next));
        assert(in_bounds(next, (ti + 1) as nat));
        assert(witnesses(next, q, t));
        lemma_loose_scan_aligned(q, t, limit, qi + 1, ti + 1, 0, next);
    } else if misses + 1 >= limit {
    } else {
        assert(in_bounds(found, (ti + 1) as nat));
        lemma_loose_scan_aligned(q, t, limit, qi, ti + 1, misses + 1, found);
    }
}

/// A loose alignment is an alignment of the query in the candidate, and the
/// candidate holds the query's characters at its positions.
pub proof fn lemma_loose_alignment_valid(q: Seq<char>, t: Seq<char>, limit: nat)
    requires
        t.len() <= usize::MAX,
    ensures
        match loose_alignment(q, t, limit) {
            Some(m) => is_alignment(m, q.len(), t.len()) && witnesses(m, q, t),
            None => true,
        },
{
    lemma_loose_scan_aligned(q, t, limit, 0, 0, 0, Seq::empty());
}

/// Where the scan for the query character at index `k` begins: at the
/// candidate's first character, or directly behind the position before.
pub open spec fn scan_start(m: Seq<usize>, k: int) -> int {
    if k <= 0 {
        0
    } else {
        m[k - 1] + 1
    }
}

/// The position at index `k` of `m` is the first from its scan's start on
/// at which the candidate holds the query's character, and fewer than
/// `limit` characters were passed over to reach it (none, where `limit` is
/// 0).
pub open spec fn placed_first(m: Seq<usize>, q: Seq<char>, t: Seq<char>, limit: nat, k: int) -> bool {
    &&& scan_start(m, k) <= m[k] < t.len()
    &&& caseless_eq(q[k], t[m[k] as int])
    &&& forall|j: int| scan_start(m, k) <= j < m[k] ==> !caseless_eq(q[k], #[trigger] t[j])
    &&& (m[k] == scan_start(m, k) || m[k] - scan_start(m, k) < limit)
}

/// The first `n` positions of `m` are each the first possible.
pub open spec fn leftmost_upto(m: Seq<usize>, q: Seq<char>, t: Seq<char>, limit: nat, n: int) -> bool {
    forall|k: int| 0 <= k < n ==> placed_first(m, q, t, limit, k)
}

/// `m` is the leftmost alignment of `q` in `t` under the gap limit: one
/// position for each character of the query, each the first possible.
pub open spec fn is_leftmost(m: Seq<usize>, q: Seq<char>, t: Seq<char>, limit: nat) -> bool {
    m.len() == q.len() && leftmost_upto(m, q, t, limit, m.len() as int)
}

/// A scan that stands inside a leftmost placement returns a leftmost
/// alignment, if it returns one.
pub proof fn lemma_loose_scan_leftmost(
    q: Seq<char>,
    t: Seq<char>,
    limit: nat,
    qi: int,
    ti: int,
    misses: nat,
    found: Seq<usize>,
)
    requires
        t.len() <= usize::MAX,
        0 <= qi <= q.len(),
        0 <= ti <= t.len(),
        found.len() == qi,
        leftmost_upto(found, q, t, limit, qi),
        scan_start(found, qi) == ti - misses,
        misses == 0 || misses < limit,
        qi < q.len() ==> forall|j: int| ti - misses <= j < ti ==> !caseless_eq(q[qi], #[trigger] t[j]),
    ensures
        match loose_scan(q, t, limit, qi, ti, misses, found) {
            Some(m) => is_leftmost(m, q, t, limit),
            None => true,
        },
    decreases t.len() - ti,
{
    if qi >= q.len() {
    } else if ti >= t.len() {
    } else if caseless_eq(q[qi], t[ti]) {
        let next = found.push(ti as usize);
        assert forall|k: int| 0 <= k < qi + 1 implies placed_first(next, q, t, limit, k) by {
            if k < qi {
                assert(placed_first(found, q, t, limit, k));
                assert(next[k] == found[k]);
                assert(scan_start(next, k) == scan_start(found, k));
            } else {
                assert(scan_start(next, k) == scan_start(found, k));
            }
        }
        lemma_loose_scan_leftmost(q, t, limit, qi + 1, ti + 1, 0, next);
    } else if misses + 1 >= limit {
    } else {
        lemma_loose_scan_leftmost(q, t, limit, qi, ti + 1, misses + 1, found);
    }
}

/// A scan that stands on the way to a leftmost alignment returns it.
pub proof fn lemma_loose_scan_finds(
    q: Seq<char>,
    t: Seq<char>,
    limit: nat,
    m: Seq<usize>,
    qi: int,
    ti: int,
)
    requires
        is_leftmost(m, q, t, limit),
        0 <= qi <= q.len(),
        0 <= ti <= t.len(),
        scan_start(m, qi) <= ti,
        qi < q.len() ==> ti <= m[qi],
        qi == q.len() ==> ti == scan_start(m, qi),
    ensures
        loose_scan(q, t, limit, qi, ti, (ti - scan_start(m, qi)) as nat, m.subrange(0, qi)) == Some(m),
    decreases t.len() - ti,
{
    let found = m.subrange(0, qi);
    if qi >= q.len() {
        assert(found =~= m);
    } else {
        assert(placed_first(m, q, t, limit, qi));
        if ti == m[qi] {
            assert(found.push(ti as usize) =~= m.subrange(0, qi + 1));
            if qi + 1 < q.len() {
                assert(placed_first(m, q, t, limit, qi + 1));
            }
            lemma_loose_scan_finds(q, t, limit, m, qi + 1, ti + 1);
        } else {
            lemma_loose_scan_finds(q, t, limit, m, qi, ti + 1);
        }
    }
}

/// The loose alignment is the leftmost alignment under the gap limit, and
/// there is one exactly where a leftmost alignment exists.
pub proof fn lemma_loose_alignment_is_leftmost(q: Seq<char>, t: Seq<char>, limit: nat, m: Seq<usize>)
    requires
        t.len() <= usize::MAX,
    ensures
        loose_alignment(q, t, limit) == Some(m) <==> is_leftmost(m, q, t, limit),
{
    lemma_loose_scan_leftmost(q, t, limit, 0, 0, 0, Seq::empty());
    if is_leftmost(m, q, t, limit) {
        if q.len() > 0 {
            assert(placed_first(m, q, t, limit, 0));
        }
        lemma_loose_scan_finds(q, t, limit, m, 0, 0);
        assert(m.subrange(0, 0) =~= Seq::<usize>::empty());
    }
}

/// No occurrence of the query in the candidate lies before the leftmost
/// alignment: position for position, every alignment at whose positions the
/// candidate holds the query's characters is at or behind it.
pub proof fn lemma_leftmost_is_lowest(
    m: Seq<usize>,
    other: Seq<usize>,
    q: Seq<char>,
    t: Seq<char>,
    limit: nat,
    k: int,
)
    requires
        is_leftmost(m, q, t, limit),
        is_alignment(other, q.len(), t.len()),
        witnesses(other, q, t),
        0 <= k < q.len(),
    ensures
        m[k] <= other[k],
    decreases k,
{
    assert(placed_first(m, q, t, limit, k));
    assert(caseless_eq(q[k], t[other[k] as int]));
    if k > 0 {
        lemma_leftmost_is_lowest(m, other, q, t, limit, k - 1);
        assert(other[k - 1] < other[k]);
    }
}

/// Finds the loose alignment of `q` in `t`: the leftmost alignment under the
/// gap limit, or nothing where there is none.
pub fn loose_match(q: &Vec<char>, t: &Vec<char>, limit: usize) -> (r: Option<Vec<usize>>)
    ensures
        match r {
            Some(m) => loose_alignment(q@, t@, limit as nat) == Some(m@),
            None => loose_alignment(q@, t@, limit as nat) is None,
        },
        match r {
            Some(m) => is_leftmost(m@, q@, t@, limit as nat),
            None => forall|m: Seq<usize>| !is_leftmost(m, q@, t@, limit as nat),
        },
{
    proof {
        assert(t@.len() == t.len());
        assert forall|m: Seq<usize>|
            loose_alignment(q@, t@, limit as nat) == Some(m) <==> is_leftmost(
                m,
                q@,
                t@,
                limit as nat,
            ) by {
            lemma_loose_alignment_is_leftmost(q@, t@, limit as nat, m);
        }
    }
    let mut found: Vec<usize> = Vec::new();
    let mut qi: usize = 0;
    let mut ti: usize = 0;
    let mut misses: usize = 0;
    while qi < q.len() && ti < t.len()
        invariant
            qi <= q.len(),
            ti <= t.len(),
            misses <= ti,
            loose_scan(q@, t@, limit as nat, qi as int, ti as int, misses as nat, found@)
                == loose_alignment(q@, t@, limit as nat),
            forall|m: Seq<usize>|
                loose_alignment(q@, t@, limit as nat) == Some(m) <==> is_leftmost(m, q@, t@, limit as nat),
        decreases t.len() - ti,
    {
        if chars_caseless_eq(q[qi], t[ti]) {
            found.push(ti);
            qi += 1;
            misses = 0;
        } else {
            misses += 1;
            if misses >= limit {
                return None;
            }
        }
        ti += 1;
    }
    if qi == q.len() {
        Some(found)
    } else {
        None
    }
}

} // verus!
