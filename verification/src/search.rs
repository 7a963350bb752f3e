//! The search itself: configuration, the records it returns, and the pass
//! over the candidates.

use vstd::prelude::*;
use crate::align::{is_alignment, lemma_alignment_fits, strictly_increasing};
use crate::highlight::{highlighted, render};
use crate::loose::{lemma_loose_alignment_valid, loose_match};
use crate::model::{
    aligned, ascending, info_of, kept, lemma_ranked, lemma_ranked_complete, matching, rank_from, ranked,
    search_result, strict_info, with_highlight, FuzzyResultView, InfoView,
};
use crate::pieces::{pieces, spell};
use crate::score::score;
use crate::strict::strict_match;
use crate::text::to_chars;

verus! {

/// One candidate that matched.
pub struct Info {
    /// Lower is better.
    pub score: usize,
    /// The chosen alignment: positions of characters in `target`.
    pub matches: Vec<usize>,
    /// `target` with its matched runs marked; empty until rendered.
    pub highlighted: String,
    /// The candidate.
    pub target: String,
}

impl View for Info {
    type V = InfoView;

    open spec fn view(&self) -> InfoView {
        InfoView {
            score: self.score,
            matches: self.matches@,
            highlighted: self.highlighted@,
            target: self.target@,
        }
    }
}

impl Info {
    /// Stores the rendered candidate.
    pub fn set_highlighted(&mut self, text: String)
        ensures
            final(self)@ == (InfoView { highlighted: text@, ..old(self)@ }),
    {
        self.highlighted = text;
    }
}

/// What a search returns.
pub struct FuzzyResult {
    /// The matches that were kept, best first.
    pub results: Vec<Info>,
    /// The number of candidates that matched.
    pub total: usize,
}

/// The records as mathematical values.
pub open spec fn views(s: Seq<Info>) -> Seq<InfoView> {
    Seq::new(s.len(), |i: int| s[i]@)
}

/// The candidates as sequences of characters.
pub open spec fn texts(s: Seq<String>) -> Seq<Seq<char>> {
    Seq::new(s.len(), |i: int| s[i]@)
}

impl View for FuzzyResult {
    type V = FuzzyResultView;

    open spec fn view(&self) -> FuzzyResultView {
        FuzzyResultView { results: views(self.results@), total: self.total as nat }
    }
}

/// The configuration of a search.
pub struct Fuzzysort {
    /// A candidate is given up after this many characters in a row that do
    /// not match.
    pub no_match_limit: usize,
    /// The most results to keep, if any.
    pub limit: Option<usize>,
    /// Put before each matched run.
    pub highlight_open: String,
    /// Put after each matched run.
    pub highlight_close: String,
}

impl Fuzzysort {
    /// What a search with this configuration returns for query `q` and
    /// candidates `ts`.
    pub open spec fn result_for(&self, q: Seq<char>, ts: Seq<Seq<char>>) -> FuzzyResultView {
        search_result(
            q,
            ts,
            self.no_match_limit as nat,
            self.limit,
            self.highlight_open@,
            self.highlight_close@,
        )
    }

    /// Chooses between the strict alignment and the loose one, and scores
    /// the choice.
    fn judge(&self, q: &Vec<char>, t: &Vec<char>, target: &String, loose: Vec<usize>) -> (r: Info)
        requires
            0 < q.len(),
            t@ == target@,
            is_alignment(loose@, q@.len(), t@.len()),
        ensures
            r@ == strict_info(q@, t@, loose@, self.no_match_limit as nat),
    {
        proof {
            lemma_alignment_fits(loose@, q@.len(), t@.len());
        }
        match strict_match(q, t, &loose, self.no_match_limit) {
            Some(found) => Info {
                score: score(&found, true, q.len(), t.len()),
                matches: found,
                highlighted: String::new(),
                target: target.clone(),
            },
            None => Info {
                score: score(&loose, false, q.len(), t.len()),
                matches: loose,
                highlighted: String::new(),
                target: target.clone(),
            },
        }
    }

    /// Matches the query `q` against one candidate.
    fn examine(&self, q: &Vec<char>, target: &String) -> (r: Option<Info>)
        requires
            0 < q.len(),
        ensures
            target@.len() <= usize::MAX,
            match r {
                Some(info) => info_of(q@, target@, self.no_match_limit as nat) == Some(info@),
                None => info_of(q@, target@, self.no_match_limit as nat) is None,
            },
    {
        let t = to_chars(target.as_str());
        proof {
            lemma_loose_alignment_valid(q@, t@, self.no_match_limit as nat);
        }
        match loose_match(q, &t, self.no_match_limit) {
            Some(loose) => Some(self.judge(q, &t, target, loose)),
            None => None,
        }
    }

    /// Matches `search` against `target`: the record of the match, if the
    /// query's characters occur in the candidate in order, without a gap of
    /// `no_match_limit` characters or more.
    pub fn info(&self, search: &String, target: &String) -> (r: Option<Info>)
        requires
            0 < search@.len(),
        ensures
            match r {
                Some(info) => info_of(search@, target@, self.no_match_limit as nat) == Some(info@),
                None => info_of(search@, target@, self.no_match_limit as nat) is None,
            },
    {
        let q = to_chars(search.as_str());
        self.examine(&q, target)
    }

    /// The record of a match whose loose alignment is `matches_simple`: the
    /// strict alignment where the strict scan finds one, else the loose one,
    /// with the score of the one chosen.
    pub fn info_strict(&self, search: &String, target: &String, matches_simple: Vec<usize>) -> (r: Info)
        requires
            0 < search@.len(),
            is_alignment(matches_simple@, search@.len(), target@.len()),
        ensures
            r@ == strict_info(search@, target@, matches_simple@, self.no_match_limit as nat),
    {
        let q = to_chars(search.as_str());
        let t = to_chars(target.as_str());
        self.judge(&q, &t, target, matches_simple)
    }

    /// Renders the candidate of `result` with its matched runs wrapped in the
    /// configured markers.
    pub fn highlight(&self, result: &Info) -> (s: String)
        requires
            strictly_increasing(result.matches@),
        ensures
            s@ == highlighted(result.target@, result.matches@, self.highlight_open@, self.highlight_close@),
            s@ == spell(pieces(result.target@, result.matches@), self.highlight_open@, self.highlight_close@),
    {
        let t = to_chars(result.target.as_str());
        render(&t, &result.matches, self.highlight_open.as_str(), self.highlight_close.as_str())
    }

    /// Searches `targets` for `search`: counts the candidates that match,
    /// ranks them by ascending score (candidates of equal score in the order
    /// given), keeps at most `limit` of them, and renders those.
    pub fn go(&self, search: String, targets: &Vec<String>) -> (r: FuzzyResult)
        ensures
            r@ == self.result_for(search@, texts(targets@)),
            0 < search@.len() ==> forall|i: int|
                0 <= i < targets@.len() ==> (#[trigger] targets@[i])@.len() <= usize::MAX,
            search@.len() == 0 ==> r.total == 0 && r.results@.len() == 0,
            0 < search@.len() ==> r.total == matching(
                search@,
                texts(targets@),
                self.no_match_limit as nat,
                targets@.len() as int,
            ),
            ascending(r@.results),
            r.results@.len() <= r.total <= targets@.len(),
            (self.limit is None || r.total <= self.limit->0) ==> r.results@.len() == r.total,
            forall|k: int| 0 <= k < r.results@.len() ==> aligned(#[trigger] r.results@[k]@, search@.len()),
    {
        if search.as_str().is_empty() {
            let r = FuzzyResult { results: Vec::new(), total: 0 };
            assert(r@.results =~= Seq::empty());
            return r;
        }
        let q = to_chars(search.as_str());
        let ghost ts = texts(targets@);
        let ghost limit = self.no_match_limit as nat;
        let mut results: Vec<Info> = Vec::new();
        let mut i: usize = 0;
        while i < targets.len()
            invariant
                0 < q.len(),
                q@ == search@,
                ts == texts(targets@),
                limit == self.no_match_limit as nat,
                i <= targets.len(),
                forall|j: int| 0 <= j < i ==> (#[trigger] ts[j]).len() <= usize::MAX,
                views(results@) == ranked(q@, ts, limit, i as int),
            decreases targets.len() - i,
        {
            match self.examine(&q, &targets[i]) {
                Some(info) => {
                    let at = rank_position(&results, info.score);
                    let ghost before = results@;
                    results.insert(at, info);
                    assert(views(results@) =~= views(before).insert(at as int, info@));
                },
                None => {},
            }
            i += 1;
        }
        proof {
            lemma_ranked(q@, ts, limit, ts.len() as int);
            lemma_ranked_complete(q@, ts, limit, ts.len() as int);
            assert forall|i: int| 0 <= i < targets@.len() implies (#[trigger] targets@[i])@.len()
                <= usize::MAX by {
                assert(ts[i] == targets@[i]@);
            }
        }
        let total = results.len();
        let ghost all = views(results@);
        match self.limit {
            Some(most) => {
                if total > most {
                    results.truncate(most);
                }
            },
            None => {},
        }
        let mut k: usize = 0;
        while k < results.len()
            invariant
                k <= results.len(),
                results.len() == kept(all.len(), self.limit),
                results.len() <= all.len(),
                forall|i: int| 0 <= i < targets@.len() ==> (#[trigger] targets@[i])@.len() <= usize::MAX,
                forall|j: int| 0 <= j < all.len() ==> aligned(#[trigger] all[j], q@.len()),
                forall|j: int|
                    0 <= j < k ==> (#[trigger] results@[j])@ == with_highlight(
                        all[j],
                        self.highlight_open@,
                        self.highlight_close@,
                    ),
                forall|j: int| k <= j < results.len() ==> (#[trigger] results@[j])@ == all[j],
            decreases results.len() - k,
        {
            assert(aligned(all[k as int], q@.len()));
            let text = self.highlight(&results[k]);
            results[k].set_highlighted(text);
            k += 1;
        }
        let r = FuzzyResult { results, total };
        assert(r@.results =~= self.result_for(search@, ts).results);
        r
    }
}

/// What a search returns depends on nothing but the configuration, the
/// query and the candidates: two searches that agree in these return the
/// same matches and the same count.
pub proof fn lemma_search_repeats(
    f: Fuzzysort,
    g: Fuzzysort,
    query: Seq<char>,
    f_targets: Seq<String>,
    g_targets: Seq<String>,
    a: FuzzyResult,
    b: FuzzyResult,
)
    requires
        f.no_match_limit == g.no_match_limit,
        f.limit == g.limit,
        f.highlight_open@ == g.highlight_open@,
        f.highlight_close@ == g.highlight_close@,
        texts(f_targets) == texts(g_targets),
        a@ == f.result_for(query, texts(f_targets)),
        b@ == g.result_for(query, texts(g_targets)),
    ensures
        a@ == b@,
{
}

/// The place of a new match of score `score` in a ranking: behind every
/// match that scores no more, from the front.
pub fn rank_position(results: &Vec<Info>, score: usize) -> (at: usize)
    ensures
        at == rank_from(views(results@), score, 0),
        at <= results.len(),
{
    let mut at: usize = 0;
    while at < results.len() && results[at].score <= score
        invariant
            at <= results.len(),
            rank_from(views(results@), score, at as int) == rank_from(views(results@), score, 0),
        decreases results.len() - at,
    {
        at += 1;
    }
    at
}

} // verus!
