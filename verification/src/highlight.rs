//! Rendering a candidate with its matched runs wrapped in markers.

use vstd::prelude::*;
use vstd::string::StringExecFns;
use crate::align::strictly_increasing;
use crate::pieces::{lemma_highlighted_spells_pieces, pieces, spell};

verus! {

/// Position `i` of the candidate is one of the alignment's.
pub open spec fn marked(m: Seq<usize>, i: int) -> bool {
    exists|k: int| 0 <= k < m.len() && m[k] == i
}

/// What stands directly before the character at `i`: the opening marker
/// where a matched run starts there, the closing marker where one ended just
/// before, else nothing.
pub open spec fn lead(m: Seq<usize>, open: Seq<char>, close: Seq<char>, i: int) -> Seq<char> {
    if marked(m, i) && !marked(m, i - 1) {
        open
    } else if !marked(m, i) && marked(m, i - 1) {
        close
    } else {
        Seq::empty()
    }
}

/// The first `n` characters of the candidate, each with what stands before
/// it.
pub open spec fn rendered(t: Seq<char>, m: Seq<usize>, open: Seq<char>, close: Seq<char>, n: int) -> Seq<
    char,
>
    decreases n,
{
    if n <= 0 {
        Seq::empty()
    } else {
        rendered(t, m, open, close, n - 1) + lead(m, open, close, n - 1) + seq![t[n - 1]]
    }
}

/// The candidate with each maximal run of matched positions wrapped once:
/// the opening marker before the run's first character, the closing marker
/// after its last. Every character of the candidate is kept, in order.
pub open spec fn highlighted(t: Seq<char>, m: Seq<usize>, open: Seq<char>, close: Seq<char>) -> Seq<
    char,
> {
    rendered(t, m, open, close, t.len() as int) + (if marked(m, t.len() - 1) {
        close
    } else {
        Seq::empty()
    })
}

/// How many maximal runs of matched positions start among the first `n`
/// positions.
pub open spec fn run_starts(m: Seq<usize>, n: int) -> int
    decreases n,
{
    if n <= 0 {
        0
    } else {
        run_starts(m, n - 1) + (if marked(m, n - 1) && !marked(m, n - 2) {
            1int
        } else {
            0int
        })
    }
}

/// With empty markers the first `n` characters are rendered as they are.
pub proof fn lemma_rendered_plain(t: Seq<char>, m: Seq<usize>, n: int)
    requires
        0 <= n <= t.len(),
    ensures
        rendered(t, m, Seq::empty(), Seq::empty(), n) == t.subrange(0, n),
    decreases n,
{
    if n > 0 {
        lemma_rendered_plain(t, m, n - 1);
        assert(t.subrange(0, n - 1) + Seq::<char>::empty() + seq![t[n - 1]] =~= t.subrange(0, n));
    } else {
        assert(t.subrange(0, 0) =~= Seq::<char>::empty());
    }
}

/// With empty markers the rendered candidate is the candidate: rendering
/// changes no character and adds nothing but markers.
pub proof fn lemma_highlighted_plain(t: Seq<char>, m: Seq<usize>)
    ensures
        highlighted(t, m, Seq::empty(), Seq::empty()) == t,
{
    lemma_rendered_plain(t, m, t.len() as int);
    assert(t.subrange(0, t.len() as int) + Seq::<char>::empty() =~= t);
}

/// The length of the first `n` characters as rendered: one opening marker
/// for each run that started, one closing marker for each that ended.
pub proof fn lemma_rendered_len(t: Seq<char>, m: Seq<usize>, open: Seq<char>, close: Seq<char>, n: int)
    requires
        0 <= n <= t.len(),
    ensures
        rendered(t, m, open, close, n).len() == n + run_starts(m, n) * open.len() + (run_starts(m, n) - (if marked(
            m,
            n - 1,
        ) {
            1int
        } else {
            0int
        })) * close.len(),
        run_starts(m, n) >= 0,
    decreases n,
{
    let a = open.len() as int;
    let b = close.len() as int;
    if n > 0 {
        lemma_rendered_len(t, m, open, close, n - 1);
        let s = run_starts(m, n - 1);
        let before = rendered(t, m, open, close, n - 1);
        let between = lead(m, open, close, n - 1);
        assert(rendered(t, m, open, close, n) == before + between + seq![t[n - 1]]);
        assert(rendered(t, m, open, close, n).len() == before.len() + between.len() + 1);
        assert((s + 1) * a == s * a + a) by (nonlinear_arith);
        assert((s - 1) * b == s * b - b) by (nonlinear_arith);
        if marked(m, n - 1) && !marked(m, n - 2) {
            assert(run_starts(m, n) == s + 1);
            assert(between.len() == a);
            assert((run_starts(m, n) - 1) * b == s * b);
        } else if !marked(m, n - 1) && marked(m, n - 2) {
            assert(run_starts(m, n) == s);
            assert(between.len() == b);
        } else {
            assert(run_starts(m, n) == s);
            assert(between.len() == 0);
        }
    } else {
        assert(!marked(m, -1));
        assert(0 * a == 0 && 0 * b == 0) by (nonlinear_arith);
    }
}

/// Each maximal run of matched positions is wrapped exactly once: the
/// rendered candidate is as long as the candidate and one pair of markers
/// for each run.
pub proof fn lemma_highlighted_len(t: Seq<char>, m: Seq<usize>, open: Seq<char>, close: Seq<char>)
    ensures
        highlighted(t, m, open, close).len() == t.len() + run_starts(m, t.len() as int) * (open.len()
            + close.len()),
{
    lemma_rendered_len(t, m, open, close, t.len() as int);
    let s = run_starts(m, t.len() as int);
    let a = open.len() as int;
    let b = close.len() as int;
    assert(s * (a + b) == s * a + s * b) by (nonlinear_arith);
    assert((s - 1) * b == s * b - b) by (nonlinear_arith);
}

/// Renders candidate `t` with the runs of alignment `m` wrapped in `open` and
/// `close`.
pub fn render(t: &Vec<char>, m: &Vec<usize>, open: &str, close: &str) -> (s: String)
    requires
        strictly_increasing(m@),
    ensures
        s@ == highlighted(t@, m@, open@, close@),
        s@ == spell(pieces(t@, m@), open@, close@),
{
    proof {
        lemma_highlighted_spells_pieces(t@, m@, open@, close@);
    }
    let mut s = String::new();
    let mut ti: usize = 0;
    let mut mi: usize = 0;
    let mut opened = false;
    while ti < t.len()
        invariant
            ti <= t.len(),
            mi <= m.len(),
            strictly_increasing(m@),
            forall|k: int| 0 <= k < mi ==> m@[k] < ti,
            forall|k: int| mi <= k < m.len() ==> m@[k] >= ti,
            opened == marked(m@, ti - 1),
            s@ == rendered(t@, m@, open@, close@, ti as int),
        decreases t.len() - ti,
    {
        let here = mi < m.len() && m[mi] == ti;
        assert(here == marked(m@, ti as int));
        if here {
            mi += 1;
            if !opened {
                s.append(open);
            }
        } else if opened {
            s.append(close);
        }
        opened = here;
        s.push(t[ti]);
        assert(s@ =~= rendered(t@, m@, open@, close@, ti as int) + lead(m@, open@, close@, ti as int)
            + seq![t@[ti as int]]);
        ti += 1;
    }
    if opened {
        s.append(close);
    }
    assert(s@ =~= highlighted(t@, m@, open@, close@));
    s
}

} // verus!
