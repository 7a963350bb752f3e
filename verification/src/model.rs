//! What a search returns, as plain mathematical values: the record of one
//! match, the ranking of all matches, and the result set.

use vstd::prelude::*;
use crate::align::{is_alignment, witnesses};
use crate::highlight::highlighted;
use crate::loose::{lemma_loose_alignment_valid, loose_alignment};
use crate::score::{capped, gap_cost, score_of};
use crate::strict::{lemma_strict_alignment_valid, strict_alignment};

verus! {

/// One match: its score, the chosen alignment, the rendered candidate (empty
/// until it is rendered) and the candidate itself.
pub struct InfoView {
    pub score: usize,
    pub matches: Seq<usize>,
    pub highlighted: Seq<char>,
    pub target: Seq<char>,
}

/// A result set: the matches that were kept, best first, and the number of
/// candidates that matched.
pub struct FuzzyResultView {
    pub results: Seq<InfoView>,
    pub total: nat,
}

/// The match of `q` in `t` given its loose alignment: the strict alignment
/// where there is one, else the loose one under the penalty.
pub open spec fn strict_info(q: Seq<char>, t: Seq<char>, loose: Seq<usize>, limit: nat) -> InfoView {
    match strict_alignment(q, t, loose, limit) {
        Some(m) => InfoView {
            score: capped(score_of(m, true, q.len(), t.len())),
            matches: m,
            highlighted: Seq::empty(),
            target: t,
        },
        None => InfoView {
            score: capped(score_of(loose, false, q.len(), t.len())),
            matches: loose,
            highlighted: Seq::empty(),
            target: t,
        },
    }
}

/// The match of `q` in `t`, if `q` has a loose alignment in `t`.
pub open spec fn info_of(q: Seq<char>, t: Seq<char>, limit: nat) -> Option<InfoView> {
    match loose_alignment(q, t, limit) {
        Some(loose) => Some(strict_info(q, t, loose, limit)),
        None => None,
    }
}

/// From index `i` on, the first index of `s` whose score is above `score`,
/// or the length of `s`.
pub open spec fn rank_from(s: Seq<InfoView>, score: usize, i: int) -> int
    decreases s.len() - i,
{
    if i < 0 || i >= s.len() || s[i].score > score {
        i
    } else {
        rank_from(s, score, i + 1)
    }
}

/// The matches among the first `n` candidates, by ascending score; of two
/// with the same score the one of the earlier candidate comes first.
pub open spec fn ranked(q: Seq<char>, ts: Seq<Seq<char>>, limit: nat, n: int) -> Seq<InfoView>
    decreases n,
{
    if n <= 0 {
        Seq::empty()
    } else {
        let before = ranked(q, ts, limit, n - 1);
        match info_of(q, ts[n - 1], limit) {
            Some(info) => before.insert(rank_from(before, info.score, 0), info),
            None => before,
        }
    }
}

/// How many of `total` matches are kept under `limit`.
pub open spec fn kept(total: nat, limit: Option<usize>) -> nat {
    match limit {
        Some(most) => if total > most {
            most as nat
        } else {
            total
        },
        None => total,
    }
}

/// The match with its candidate rendered.
pub open spec fn with_highlight(info: InfoView, open: Seq<char>, close: Seq<char>) -> InfoView {
    InfoView { highlighted: highlighted(info.target, info.matches, open, close), ..info }
}

/// The result of a search for `q` among the candidates `ts`: nothing for an
/// empty query; else all matches counted, ranked, cut to `limit`, and those
/// that are kept rendered.
pub open spec fn search_result(
    q: Seq<char>,
    ts: Seq<Seq<char>>,
    no_match_limit: nat,
    limit: Option<usize>,
    open: Seq<char>,
    close: Seq<char>,
) -> FuzzyResultView {
    if q.len() == 0 {
        FuzzyResultView { results: Seq::empty(), total: 0 }
    } else {
        let all = ranked(q, ts, no_match_limit, ts.len() as int);
        FuzzyResultView {
            results: Seq::new(
                kept(all.len(), limit),
                |i: int| with_highlight(all[i], open, close),
            ),
            total: all.len(),
        }
    }
}

/// The scores never fall from one match to the next.
pub open spec fn ascending(s: Seq<InfoView>) -> bool {
    forall|i: int, j: int| 0 <= i < j < s.len() ==> s[i].score <= s[j].score
}

/// The alignment of `info` is one of a query of `qlen` characters in its own
/// candidate.
pub open spec fn aligned(info: InfoView, qlen: nat) -> bool {
    is_alignment(info.matches, qlen, info.target.len())
}

/// Where `rank_from` stops: everything it passed scores at most `score`, and
/// what it stopped at scores more.
pub proof fn lemma_rank_from(s: Seq<InfoView>, score: usize, i: int)
    requires
        0 <= i <= s.len(),
    ensures
        i <= rank_from(s, score, i) <= s.len(),
        forall|k: int| i <= k < rank_from(s, score, i) ==> s[k].score <= score,
        rank_from(s, score, i) < s.len() ==> s[rank_from(s, score, i)].score > score,
    decreases s.len() - i,
{
    if i < s.len() && s[i].score <= score {
        lemma_rank_from(s, score, i + 1);
    }
}

/// A match of a non-empty query holds an alignment of the query in its
/// candidate, and the candidate holds the query's characters there.
pub proof fn lemma_info_aligned(q: Seq<char>, t: Seq<char>, limit: nat)
    requires
        0 < q.len(),
        t.len() <= usize::MAX,
    ensures
        match info_of(q, t, limit) {
            Some(info) => aligned(info, q.len()) && witnesses(info.matches, q, t) && info.target == t,
            None => true,
        },
{
    lemma_loose_alignment_valid(q, t, limit);
    match loose_alignment(q, t, limit) {
        Some(loose) => {
            lemma_strict_alignment_valid(q, t, loose, limit);
        },
        None => {},
    }
}

/// The ranking is in ascending order of score, holds at most one match for
/// each candidate, and each of its matches holds an alignment of the query.
pub proof fn lemma_ranked(q: Seq<char>, ts: Seq<Seq<char>>, limit: nat, n: int)
    requires
        0 < q.len(),
        0 <= n <= ts.len(),
        forall|i: int| 0 <= i < n ==> (#[trigger] ts[i]).len() <= usize::MAX,
    ensures
        ascending(ranked(q, ts, limit, n)),
        ranked(q, ts, limit, n).len() <= n,
        forall|k: int|
            0 <= k < ranked(q, ts, limit, n).len() ==> aligned(#[trigger] ranked(q, ts, limit, n)[k], q.len()),
    decreases n,
{
    if n > 0 {
        lemma_ranked(q, ts, limit, n - 1);
        let before = ranked(q, ts, limit, n - 1);
        lemma_info_aligned(q, ts[n - 1], limit);
        match info_of(q, ts[n - 1], limit) {
            Some(info) => {
                lemma_rank_from(before, info.score, 0);
                let at = rank_from(before, info.score, 0);
                let after = before.insert(at, info);
                assert forall|i: int, j: int| 0 <= i < j < after.len() implies after[i].score
                    <= after[j].score by {
                    if j < at {
                        assert(after[i] == before[i] && after[j] == before[j]);
                    } else if j == at {
                        assert(after[i] == before[i]);
                    } else if i < at {
                        assert(after[i] == before[i] && after[j] == before[j - 1]);
                        if at < before.len() && at < j - 1 {
                            assert(before[at].score <= before[j - 1].score);
                        }
                    } else if i == at {
                        assert(after[j] == before[j - 1]);
                        if at < j - 1 {
                            assert(before[at].score <= before[j - 1].score);
                        }
                    } else {
                        assert(after[i] == before[i - 1] && after[j] == before[j - 1]);
                    }
                }
                assert forall|k: int| 0 <= k < after.len() implies aligned(#[trigger] after[k], q.len()) by {
                    if k < at {
                        assert(after[k] == before[k]);
                    } else if k > at {
                        assert(after[k] == before[k - 1]);
                    }
                }
            },
            None => {},
        }
    }
}

/// Where the match of a candidate enters the ranking of the candidates
/// before it: behind every match that scores no more than it, and before
/// every match that scores more. So of two candidates with the same score
/// the one given first stays first.
pub proof fn lemma_ranked_keeps_order_of_equals(q: Seq<char>, ts: Seq<Seq<char>>, limit: nat, n: int)
    requires
        0 < q.len(),
        0 < n <= ts.len(),
        forall|i: int| 0 <= i < n ==> (#[trigger] ts[i]).len() <= usize::MAX,
        info_of(q, ts[n - 1], limit) is Some,
    ensures
        ({
            let before = ranked(q, ts, limit, n - 1);
            let info = info_of(q, ts[n - 1], limit)->0;
            let at = rank_from(before, info.score, 0);
            &&& 0 <= at <= before.len()
            &&& ranked(q, ts, limit, n) == before.insert(at, info)
            &&& forall|k: int| 0 <= k < at ==> (#[trigger] before[k]).score <= info.score
            &&& forall|k: int| at <= k < before.len() ==> (#[trigger] before[k]).score > info.score
        }),
{
    let before = ranked(q, ts, limit, n - 1);
    let info = info_of(q, ts[n - 1], limit)->0;
    let at = rank_from(before, info.score, 0);
    lemma_ranked(q, ts, limit, n - 1);
    lemma_rank_from(before, info.score, 0);
    assert forall|k: int| at <= k < before.len() implies (#[trigger] before[k]).score > info.score by {
        if at < k {
            assert(before[at].score <= before[k].score);
        }
    }
}

/// How many of the first `n` candidates the query has a loose alignment in.
pub open spec fn matching(q: Seq<char>, ts: Seq<Seq<char>>, limit: nat, n: int) -> nat
    decreases n,
{
    if n <= 0 {
        0
    } else {
        matching(q, ts, limit, n - 1) + (if loose_alignment(q, ts[n - 1], limit) is Some {
            1nat
        } else {
            0nat
        })
    }
}

/// `info` is the match of the query in one of the first `n` candidates.
pub open spec fn comes_from(info: InfoView, q: Seq<char>, ts: Seq<Seq<char>>, limit: nat, n: int) -> bool {
    exists|i: int| 0 <= i < n && info_of(q, #[trigger] ts[i], limit) == Some(info)
}

/// The ranking holds one match for each candidate that the query has a loose
/// alignment in, and nothing else: it is as long as those candidates are
/// many, each of its entries is the match of a candidate, and the match of
/// each such candidate is among its entries.
pub proof fn lemma_ranked_complete(q: Seq<char>, ts: Seq<Seq<char>>, limit: nat, n: int)
    requires
        0 <= n <= ts.len(),
    ensures
        ranked(q, ts, limit, n).len() == matching(q, ts, limit, n),
        forall|k: int|
            0 <= k < ranked(q, ts, limit, n).len() ==> comes_from(
                #[trigger] ranked(q, ts, limit, n)[k],
                q,
                ts,
                limit,
                n,
            ),
        forall|i: int|
            0 <= i < n && loose_alignment(q, #[trigger] ts[i], limit) is Some ==> ranked(
                q,
                ts,
                limit,
                n,
            ).contains(info_of(q, ts[i], limit)->0),
    decreases n,
{
    if n > 0 {
        lemma_ranked_complete(q, ts, limit, n - 1);
        let before = ranked(q, ts, limit, n - 1);
        let after = ranked(q, ts, limit, n);
        match info_of(q, ts[n - 1], limit) {
            Some(info) => {
                lemma_rank_from(before, info.score, 0);
                let at = rank_from(before, info.score, 0);
                assert(after == before.insert(at, info));
                assert forall|k: int| 0 <= k < after.len() implies comes_from(
                    #[trigger] after[k],
                    q,
                    ts,
                    limit,
                    n,
                ) by {
                    if k < at {
                        assert(after[k] == before[k]);
                        assert(comes_from(before[k], q, ts, limit, n - 1));
                    } else if k > at {
                        assert(after[k] == before[k - 1]);
                        assert(comes_from(before[k - 1], q, ts, limit, n - 1));
                    } else {
                        assert(info_of(q, ts[n - 1], limit) == Some(after[k]));
                    }
                }
                assert forall|i: int|
                    0 <= i < n && loose_alignment(q, #[trigger] ts[i], limit) is Some implies after.contains(
                    info_of(q, ts[i], limit)->0,
                ) by {
                    if i < n - 1 {
                        let k = choose|k: int|
                            0 <= k < before.len() && before[k] == info_of(q, ts[i], limit)->0;
                        if k < at {
                            assert(after[k] == before[k]);
                        } else {
                            assert(after[k + 1] == before[k]);
                        }
                    } else {
                        assert(after[at] == info);
                    }
                }
            },
            None => {
                assert forall|k: int| 0 <= k < after.len() implies comes_from(
                    #[trigger] after[k],
                    q,
                    ts,
                    limit,
                    n,
                ) by {
                    assert(comes_from(before[k], q, ts, limit, n - 1));
                }
            },
        }
    }
}

/// A search counts exactly the candidates that the query has a loose
/// alignment in.
pub proof fn lemma_total_counts_matches(
    q: Seq<char>,
    ts: Seq<Seq<char>>,
    no_match_limit: nat,
    limit: Option<usize>,
    open: Seq<char>,
    close: Seq<char>,
)
    requires
        0 < q.len(),
    ensures
        search_result(q, ts, no_match_limit, limit, open, close).total == matching(
            q,
            ts,
            no_match_limit,
            ts.len() as int,
        ),
{
    lemma_ranked_complete(q, ts, no_match_limit, ts.len() as int);
}

/// A candidate that the query has a loose alignment in is ranked whether or
/// not the strict scan succeeds on it; where it does not, the candidate
/// stands with its loose alignment, and its score bears the penalty.
pub proof fn lemma_loose_match_is_ranked(q: Seq<char>, ts: Seq<Seq<char>>, limit: nat, i: int)
    requires
        0 <= i < ts.len(),
        loose_alignment(q, ts[i], limit) is Some,
    ensures
        ranked(q, ts, limit, ts.len() as int).contains(info_of(q, ts[i], limit)->0),
        info_of(q, ts[i], limit)->0.target == ts[i],
        strict_alignment(q, ts[i], loose_alignment(q, ts[i], limit)->0, limit) is None ==> {
            let loose = loose_alignment(q, ts[i], limit)->0;
            &&& info_of(q, ts[i], limit)->0.matches == loose
            &&& info_of(q, ts[i], limit)->0.score == capped(
                1000 * gap_cost(loose, loose.len() as int) + (ts[i].len() - q.len()),
            )
        },
{
    lemma_ranked_complete(q, ts, limit, ts.len() as int);
}

/// An empty query finds nothing, whatever the candidates.
pub proof fn lemma_empty_query_finds_nothing(
    ts: Seq<Seq<char>>,
    no_match_limit: nat,
    limit: Option<usize>,
    open: Seq<char>,
    close: Seq<char>,
)
    ensures
        search_result(Seq::empty(), ts, no_match_limit, limit, open, close).total == 0,
        search_result(Seq::empty(), ts, no_match_limit, limit, open, close).results.len() == 0,
{
}

/// The results of a search come in ascending order of score. They are never
/// more than the matches counted, and all of them where no limit is set or
/// the limit is not exceeded.
pub proof fn lemma_results_ascending_and_counted(
    q: Seq<char>,
    ts: Seq<Seq<char>>,
    no_match_limit: nat,
    limit: Option<usize>,
    open: Seq<char>,
    close: Seq<char>,
)
    requires
        0 < q.len() ==> forall|i: int| 0 <= i < ts.len() ==> (#[trigger] ts[i]).len() <= usize::MAX,
    ensures
        ascending(search_result(q, ts, no_match_limit, limit, open, close).results),
        search_result(q, ts, no_match_limit, limit, open, close).results.len() <= search_result(
            q,
            ts,
            no_match_limit,
            limit,
            open,
            close,
        ).total <= ts.len(),
        (limit is None || search_result(q, ts, no_match_limit, limit, open, close).total <= limit->0)
            ==> search_result(q, ts, no_match_limit, limit, open, close).results.len() == search_result(
            q,
            ts,
            no_match_limit,
            limit,
            open,
            close,
        ).total,
{
    if q.len() > 0 {
        lemma_ranked(q, ts, no_match_limit, ts.len() as int);
    }
}

/// The limit leaves out no match that beats one it keeps: every result
/// scores no more than any match of the ranking from the place of the cut
/// on.
pub proof fn lemma_kept_are_best(
    q: Seq<char>,
    ts: Seq<Seq<char>>,
    no_match_limit: nat,
    limit: Option<usize>,
    open: Seq<char>,
    close: Seq<char>,
    k: int,
    j: int,
)
    requires
        0 < q.len(),
        forall|i: int| 0 <= i < ts.len() ==> (#[trigger] ts[i]).len() <= usize::MAX,
        0 <= k < search_result(q, ts, no_match_limit, limit, open, close).results.len(),
        search_result(q, ts, no_match_limit, limit, open, close).results.len() <= j < ranked(
            q,
            ts,
            no_match_limit,
            ts.len() as int,
        ).len(),
    ensures
        search_result(q, ts, no_match_limit, limit, open, close).results[k].score <= ranked(
            q,
            ts,
            no_match_limit,
            ts.len() as int,
        )[j].score,
{
    lemma_ranked(q, ts, no_match_limit, ts.len() as int);
    let all = ranked(q, ts, no_match_limit, ts.len() as int);
    assert(all[k].score <= all[j].score);
}

/// Every result of a search holds an alignment of the query in its own
/// candidate: one position for each character of the query, strictly
/// increasing, inside the candidate.
pub proof fn lemma_results_aligned(
    q: Seq<char>,
    ts: Seq<Seq<char>>,
    no_match_limit: nat,
    limit: Option<usize>,
    open: Seq<char>,
    close: Seq<char>,
    k: int,
)
    requires
        0 < q.len() ==> forall|i: int| 0 <= i < ts.len() ==> (#[trigger] ts[i]).len() <= usize::MAX,
        0 <= k < search_result(q, ts, no_match_limit, limit, open, close).results.len(),
    ensures
        aligned(search_result(q, ts, no_match_limit, limit, open, close).results[k], q.len()),
{
    if q.len() > 0 {
        lemma_ranked(q, ts, no_match_limit, ts.len() as int);
        let all = ranked(q, ts, no_match_limit, ts.len() as int);
        assert(aligned(all[k], q.len()));
    }
}

} // verus!
