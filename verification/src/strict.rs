//! The second pass: a scan that matches query characters only where a word
//! starts in the candidate, or directly after the match before, and that uses
//! the loose alignment to skip ahead.

use vstd::prelude::*;
use crate::align::{in_bounds, is_alignment, strictly_increasing, witnesses};
use crate::loose::{
    lemma_leftmost_is_lowest, lemma_loose_alignment_is_leftmost, lemma_loose_alignment_valid, loose_alignment,
};
use crate::text::{caseless_eq, chars_caseless_eq, class_of, no_class, starts_word, CharClass};

verus! {

/// From `ti` on, the first position at which a word starts, and the class of
/// the character there; `before` is the class of the character before `ti`.
/// Where no word starts any more, the position is the candidate's length.
pub open spec fn seek_word_start(t: Seq<char>, ti: int, before: CharClass) -> (int, CharClass)
    decreases t.len() - ti,
{
    if ti < 0 || ti >= t.len() {
        (ti, before)
    } else if starts_word(before, class_of(t[ti])) {
        (ti, class_of(t[ti]))
    } else {
        seek_word_start(t, ti + 1, class_of(t[ti]))
    }
}

/// The search never goes back, nor beyond the candidate's end.
pub proof fn lemma_seek_word_start_range(t: Seq<char>, ti: int, before: CharClass)
    requires
        0 <= ti <= t.len(),
    ensures
        ti <= seek_word_start(t, ti, before).0 <= t.len(),
    decreases t.len() - ti,
{
    if ti < t.len() && !starts_word(before, class_of(t[ti])) {
        lemma_seek_word_start_range(t, ti + 1, class_of(t[ti]));
    }
}

/// The strict scan from query position `qi` and candidate position `ti`.
///
/// `before` is the class of the character that was classified last, `run`
/// says that the match before was at `ti - 1`, `misses` counts the characters
/// in a row that were tried and did not match, and `found` holds the
/// positions recorded so far.
///
/// Inside a run no character is classified. So after a run, and after the
/// miss that ends one, `before` is still the class of the character at which
/// the run began (or of the one before the place jumped to), not of the
/// character at `ti - 1`: the character behind such a miss is judged against
/// that older class.
///
/// Outside a run the scan first moves to the next start of a word. It gives
/// up at the end of the candidate. Where the character there matches, its
/// position is recorded; if the loose alignment places the next query
/// character further on than the next position, the scan jumps there, and
/// remembers the class of the character just before; else it begins a run at
/// the next position. Where the character does not match, the run ends, and
/// the scan gives up once `misses` reaches `limit`.
pub open spec fn strict_scan(
    q: Seq<char>,
    t: Seq<char>,
    loose: Seq<usize>,
    limit: nat,
    qi: int,
    ti: int,
    before: CharClass,
    run: bool,
    misses: nat,
    found: Seq<usize>,
) -> Option<Seq<usize>>
    decreases t.len() - ti,
{
    let at = if run {
        (ti, before)
    } else {
        seek_word_start(t, ti, before)
    };
    if qi < 0 || qi >= q.len() {
        Some(found)
    } else if ti < 0 || at.0 < ti || at.0 >= t.len() {
        None
    } else if caseless_eq(q[qi], t[at.0]) {
        if qi + 1 >= q.len() {
            Some(found.push(at.0 as usize))
        } else if at.0 + 1 < loose[qi + 1] <= t.len() {
            strict_scan(
                q,
                t,
                loose,
                limit,
                qi + 1,
                loose[qi + 1] as int,
                class_of(t[loose[qi + 1] - 1]),
                false,
                0,
                found.push(at.0 as usize),
            )
        } else {
            strict_scan(q, t, loose, limit, qi + 1, at.0 + 1, at.1, true, 0, found.push(at.0 as usize))
        }
    } else if misses + 1 >= limit {
        None
    } else {
        strict_scan(q, t, loose, limit, qi, at.0 + 1, at.1, false, misses + 1, found)
    }
}

/// The class from which the strict scan starts: that of the character just
/// before the loose alignment's first position, if there is one.
pub open spec fn class_before(t: Seq<char>, at: int) -> CharClass {
    if 0 < at <= t.len() {
        class_of(t[at - 1])
    } else {
        no_class()
    }
}

/// The strict alignment of `q` in `t`, if the strict scan finds one. The scan
/// starts at the loose alignment's first position.
pub open spec fn strict_alignment(q: Seq<char>, t: Seq<char>, loose: Seq<usize>, limit: nat) -> Option<
    Seq<usize>,
> {
    strict_scan(
        q,
        t,
        loose,
        limit,
        0,
        loose[0] as int,
        class_before(t, loose[0] as int),
        false,
        0,
        Seq::empty(),
    )
}

/// What the strict scan returns extends what it had found by one position for
/// each query character left, each after the last, inside the candidate, and
/// on a character that matches.
pub proof fn lemma_strict_scan_aligned(
    q: Seq<char>,
    t: Seq<char>,
    loose: Seq<usize>,
    limit: nat,
    qi: int,
    ti: int,
    before: CharClass,
    run: bool,
    misses: nat,
    found: Seq<usize>,
)
    requires
        t.len() <= usize::MAX,
        0 <= qi <= q.len(),
        0 <= ti <= t.len(),
        found.len() == qi,
        strictly_increasing(found),
        in_bounds(found, ti as nat),
        witnesses(found, q, t),
        loose.len() == q.len(),
        in_bounds(loose, t.len()),
    ensures
        match strict_scan(q, t, loose, limit, qi, ti, before, run, misses, found) {
            Some(m) => is_alignment(m, q.len(), t.len()) && witnesses(m, q, t),
            None => true,
        },
    decreases t.len() - ti,
{
    let at = if run {
        (ti, before)
    } else {
        seek_word_start(t, ti, before)
    };
    if !run {
        lemma_seek_word_start_range(t, ti, before);
    }
    if qi >= q.len() {
    } else if at.0 >= t.len() {
    } else if caseless_eq(q[qi], t[at.0]) {
        let next = found.push(at.0 as usize);
        assert(strictly_increasing(next));
        assert(in_bounds(next, (at.0 + 1) as nat));
        assert(witnesses(next, q, t));
        if qi + 1 >= q.len() {
        } else if at.0 + 1 < loose[qi + 1] <= t.len() {
            assert(in_bounds(next, loose[qi + 1] as nat));
            lemma_strict_scan_aligned(
                q,
                t,
                loose,
                limit,
                qi + 1,
                loose[qi + 1] as int,
                class_of(t[loose[qi + 1] - 1]),
                false,
                0,
                next,
            );
        } else {
            lemma_strict_scan_aligned(q, t, loose, limit, qi + 1, at.0 + 1, at.1, true, 0, next);
        }
    } else if misses + 1 >= limit {
    } else {
        assert(in_bounds(found, (at.0 + 1) as nat));
        lemma_strict_scan_aligned(q, t, loose, limit, qi, at.0 + 1, at.1, false, misses + 1, found);
    }
}

/// A strict alignment is an alignment of the query in the candidate, and the
/// candidate holds the query's characters at its positions.
pub proof fn lemma_strict_alignment_valid(q: Seq<char>, t: Seq<char>, loose: Seq<usize>, limit: nat)
    requires
        t.len() <= usize::MAX,
        0 < q.len(),
        loose.len() == q.len(),
        in_bounds(loose, t.len()),
    ensures
        match strict_alignment(q, t, loose, limit) {
            Some(m) => is_alignment(m, q.len(), t.len()) && witnesses(m, q, t),
            None => true,
        },
{
    lemma_strict_scan_aligned(
        q,
        t,
        loose,
        limit,
        0,
        loose[0] as int,
        class_before(t, loose[0] as int),
        false,
        0,
        Seq::empty(),
    );
}

/// The strict alignment never lies before the loose alignment it was led
/// by: position for position it is at or behind it.
pub proof fn lemma_strict_not_before_loose(q: Seq<char>, t: Seq<char>, limit: nat, k: int)
    requires
        t.len() <= usize::MAX,
        0 <= k < q.len(),
        loose_alignment(q, t, limit) is Some,
        strict_alignment(q, t, loose_alignment(q, t, limit)->0, limit) is Some,
    ensures
        loose_alignment(q, t, limit)->0[k] <= strict_alignment(
            q,
            t,
            loose_alignment(q, t, limit)->0,
            limit,
        )->0[k],
{
    let loose = loose_alignment(q, t, limit)->0;
    let strict = strict_alignment(q, t, loose, limit)->0;
    lemma_loose_alignment_valid(q, t, limit);
    lemma_loose_alignment_is_leftmost(q, t, limit, loose);
    lemma_strict_alignment_valid(q, t, loose, limit);
    lemma_leftmost_is_lowest(loose, strict, q, t, limit, k);
}

/// Moves from `ti` to the next start of a word.
pub fn seek_boundary(t: &Vec<char>, ti: usize, before: CharClass) -> (r: (usize, CharClass))
    requires
        ti <= t.len(),
    ensures
        (r.0 as int, r.1) == seek_word_start(t@, ti as int, before),
        ti <= r.0 <= t.len(),
{
    let mut at: usize = ti;
    let mut seen = before;
    while at < t.len()
        invariant
            ti <= at <= t.len(),
            seek_word_start(t@, at as int, seen) == seek_word_start(t@, ti as int, before),
        decreases t.len() - at,
    {
        let here = CharClass::of(t[at]);
        if seen.then_starts_word(&here) {
            return (at, here);
        }
        seen = here;
        at += 1;
    }
    (at, seen)
}

/// Finds the strict alignment of `q` in `t`, led by the loose alignment.
pub fn strict_match(q: &Vec<char>, t: &Vec<char>, loose: &Vec<usize>, limit: usize) -> (r: Option<
    Vec<usize>,
>)
    requires
        0 < q.len(),
        loose.len() == q.len(),
        in_bounds(loose@, t@.len()),
    ensures
        match r {
            Some(m) => strict_alignment(q@, t@, loose@, limit as nat) == Some(m@),
            None => strict_alignment(q@, t@, loose@, limit as nat) is None,
        },
{
    let mut found: Vec<usize> = Vec::new();
    let mut qi: usize = 0;
    let mut ti: usize = loose[0];
    let mut before = if ti > 0 {
        CharClass::of(t[ti - 1])
    } else {
        CharClass::none()
    };
    let mut run = false;
    let mut misses: usize = 0;
    while qi < q.len()
        invariant
            qi <= q.len(),
            ti <= t.len(),
            misses <= ti,
            loose.len() == q.len(),
            in_bounds(loose@, t@.len()),
            strict_scan(q@, t@, loose@, limit as nat, qi as int, ti as int, before, run, misses as nat, found@)
                == strict_alignment(q@, t@, loose@, limit as nat),
        decreases t.len() - ti,
    {
        if !run {
            let at = seek_boundary(t, ti, before);
            ti = at.0;
            before = at.1;
        }
        if ti >= t.len() {
            return None;
        }
        if chars_caseless_eq(q[qi], t[ti]) {
            found.push(ti);
            qi += 1;
            if qi == q.len() {
                return Some(found);
            }
            misses = 0;
            let next: usize = loose[qi];
            if next > ti + 1 {
                run = false;
                before = CharClass::of(t[next - 1]);
                ti = next;
            } else {
                run = true;
                ti += 1;
            }
        } else {
            misses += 1;
            if misses >= limit {
                return None;
            }
            run = false;
            ti += 1;
        }
    }
    Some(found)
}

} // verus!
