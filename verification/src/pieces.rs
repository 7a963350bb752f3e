//! The rendered candidate as a sequence of pieces, markers and characters,
//! and what holds of that sequence: each run of matched positions is wrapped
//! once, the markers alternate, and the characters are the candidate's.

use vstd::prelude::*;
use crate::highlight::{highlighted, lead, marked, rendered, run_starts};

verus! {

/// One piece of a rendered candidate.
pub enum Piece {
    /// The opening marker.
    Open,
    /// The closing marker.
    Close,
    /// A character of the candidate.
    Letter(char),
}

/// The text of one piece.
pub open spec fn text_of(p: Piece, open: Seq<char>, close: Seq<char>) -> Seq<char> {
    match p {
        Piece::Open => open,
        Piece::Close => close,
        Piece::Letter(c) => seq![c],
    }
}

/// The texts of the pieces, one after the other.
pub open spec fn spell(ps: Seq<Piece>, open: Seq<char>, close: Seq<char>) -> Seq<char>
    decreases ps.len(),
{
    if ps.len() == 0 {
        Seq::empty()
    } else {
        spell(ps.drop_last(), open, close) + text_of(ps.last(), open, close)
    }
}

/// How many of the pieces are opening markers.
pub open spec fn opens(ps: Seq<Piece>) -> int
    decreases ps.len(),
{
    if ps.len() == 0 {
        0
    } else {
        opens(ps.drop_last()) + (if ps.last() is Open {
            1int
        } else {
            0int
        })
    }
}

/// How many of the pieces are closing markers.
pub open spec fn closes(ps: Seq<Piece>) -> int
    decreases ps.len(),
{
    if ps.len() == 0 {
        0
    } else {
        closes(ps.drop_last()) + (if ps.last() is Close {
            1int
        } else {
            0int
        })
    }
}

/// The characters among the pieces, in order: what is left when every
/// marker is taken out.
pub open spec fn letters(ps: Seq<Piece>) -> Seq<char>
    decreases ps.len(),
{
    if ps.len() == 0 {
        Seq::empty()
    } else {
        match ps.last() {
            Piece::Letter(c) => letters(ps.drop_last()).push(c),
            _ => letters(ps.drop_last()),
        }
    }
}

/// Behind the pieces a marker pair is open: the last marker among them is
/// an opening one.
pub open spec fn inside(ps: Seq<Piece>) -> bool
    decreases ps.len(),
{
    if ps.len() == 0 {
        false
    } else {
        match ps.last() {
            Piece::Open => true,
            Piece::Close => false,
            Piece::Letter(_) => inside(ps.drop_last()),
        }
    }
}

/// The markers alternate, beginning with an opening one: an opening marker
/// stands only where no pair is open, a closing marker only where one is
/// open, and directly behind a character.
pub open spec fn alternating(ps: Seq<Piece>) -> bool
    decreases ps.len(),
{
    if ps.len() == 0 {
        true
    } else {
        &&& alternating(ps.drop_last())
        &&& match ps.last() {
            Piece::Open => !inside(ps.drop_last()),
            Piece::Close => inside(ps.drop_last()) && ps.len() >= 2 && ps[ps.len() - 2] is Letter,
            Piece::Letter(_) => true,
        }
    }
}

/// `ps` with the marker, if any, that stands before the character at `i`.
pub open spec fn with_lead(ps: Seq<Piece>, m: Seq<usize>, i: int) -> Seq<Piece> {
    if marked(m, i) && !marked(m, i - 1) {
        ps.push(Piece::Open)
    } else if !marked(m, i) && marked(m, i - 1) {
        ps.push(Piece::Close)
    } else {
        ps
    }
}

/// The piece that holds the candidate's character at `i`.
pub open spec fn letter_at(t: Seq<char>, i: int) -> Piece {
    Piece::Letter(t[i])
}

/// The pieces of the first `n` characters of the candidate.
pub open spec fn pieces_upto(t: Seq<char>, m: Seq<usize>, n: int) -> Seq<Piece>
    decreases n,
{
    if n <= 0 {
        Seq::empty()
    } else {
        with_lead(pieces_upto(t, m, n - 1), m, n - 1).push(letter_at(t, n - 1))
    }
}

/// The pieces of the rendered candidate.
pub open spec fn pieces(t: Seq<char>, m: Seq<usize>) -> Seq<Piece> {
    if marked(m, t.len() - 1) {
        pieces_upto(t, m, t.len() as int).push(Piece::Close)
    } else {
        pieces_upto(t, m, t.len() as int)
    }
}

/// What an opening marker adds to the pieces.
pub proof fn lemma_one_more_open(ps: Seq<Piece>, open: Seq<char>, close: Seq<char>)
    ensures
        ps.push(Piece::Open).len() == ps.len() + 1,
        spell(ps.push(Piece::Open), open, close) == spell(ps, open, close) + open,
        opens(ps.push(Piece::Open)) == opens(ps) + 1,
        closes(ps.push(Piece::Open)) == closes(ps),
        letters(ps.push(Piece::Open)) == letters(ps),
        inside(ps.push(Piece::Open)),
        alternating(ps.push(Piece::Open)) == (alternating(ps) && !inside(ps)),
{
    let next = ps.push(Piece::Open);
    assert(next.len() == ps.len() + 1);
    assert(next.last() == Piece::Open);
    assert(next.drop_last() =~= ps);
}

/// What a closing marker adds to the pieces.
pub proof fn lemma_one_more_close(ps: Seq<Piece>, open: Seq<char>, close: Seq<char>)
    ensures
        ps.push(Piece::Close).len() == ps.len() + 1,
        spell(ps.push(Piece::Close), open, close) == spell(ps, open, close) + close,
        opens(ps.push(Piece::Close)) == opens(ps),
        closes(ps.push(Piece::Close)) == closes(ps) + 1,
        letters(ps.push(Piece::Close)) == letters(ps),
        !inside(ps.push(Piece::Close)),
        alternating(ps.push(Piece::Close)) == (alternating(ps) && inside(ps) && ps.len() >= 1
            && ps.last() is Letter),
{
    let next = ps.push(Piece::Close);
    assert(next.len() == ps.len() + 1);
    assert(next.last() == Piece::Close);
    assert(next.drop_last() =~= ps);
    if ps.len() >= 1 {
        assert(next[next.len() - 2] == ps.last());
    }
}

/// What a character adds to the pieces.
pub proof fn lemma_one_more_letter(ps: Seq<Piece>, c: char, open: Seq<char>, close: Seq<char>)
    ensures
        ps.push(Piece::Letter(c)).len() == ps.len() + 1,
        ps.push(Piece::Letter(c)).last() == Piece::Letter(c),
        spell(ps.push(Piece::Letter(c)), open, close) == spell(ps, open, close) + seq![c],
        opens(ps.push(Piece::Letter(c))) == opens(ps),
        closes(ps.push(Piece::Letter(c))) == closes(ps),
        letters(ps.push(Piece::Letter(c))) == letters(ps).push(c),
        inside(ps.push(Piece::Letter(c))) == inside(ps),
        alternating(ps.push(Piece::Letter(c))) == alternating(ps),
{
    let next = ps.push(Piece::Letter(c));
    assert(next.len() == ps.len() + 1);
    assert(next.last() == Piece::Letter(c));
    assert(next.drop_last() =~= ps);
}

/// The pieces of the first `n` characters spell what is rendered of them,
/// hold one opening marker for each run that started and one closing marker
/// for each that ended, alternate, and hold the first `n` characters of the
/// candidate; a pair is open behind them exactly where the last of these
/// characters is matched.
pub proof fn lemma_pieces_upto(t: Seq<char>, m: Seq<usize>, open: Seq<char>, close: Seq<char>, n: int)
    requires
        0 <= n <= t.len(),
    ensures
        spell(pieces_upto(t, m, n), open, close) == rendered(t, m, open, close, n),
        opens(pieces_upto(t, m, n)) == run_starts(m, n),
        closes(pieces_upto(t, m, n)) == run_starts(m, n) - (if marked(m, n - 1) {
            1int
        } else {
            0int
        }),
        letters(pieces_upto(t, m, n)) == t.subrange(0, n),
        inside(pieces_upto(t, m, n)) == marked(m, n - 1),
        alternating(pieces_upto(t, m, n)),
        n > 0 ==> pieces_upto(t, m, n).len() > 0 && pieces_upto(t, m, n).last() == Piece::Letter(t[n - 1]),
    decreases n,
{
    if n > 0 {
        lemma_pieces_upto(t, m, open, close, n - 1);
        let a = pieces_upto(t, m, n - 1);
        let b = with_lead(a, m, n - 1);
        if marked(m, n - 1) && !marked(m, n - 2) {
            lemma_one_more_open(a, open, close);
        } else if !marked(m, n - 1) && marked(m, n - 2) {
            assert(n - 1 > 0);
            lemma_one_more_close(a, open, close);
        } else {
            assert(spell(a, open, close) + lead(m, open, close, n - 1) =~= spell(a, open, close));
        }
        assert(spell(b, open, close) == rendered(t, m, open, close, n - 1) + lead(m, open, close, n - 1));
        lemma_one_more_letter(b, t[n - 1], open, close);
        assert(pieces_upto(t, m, n) == b.push(letter_at(t, n - 1)));
        assert(t.subrange(0, n - 1).push(t[n - 1]) =~= t.subrange(0, n));
    } else {
        assert(!marked(m, -1));
        assert(t.subrange(0, 0) =~= Seq::<char>::empty());
        assert(pieces_upto(t, m, n).len() == 0);
    }
}

/// The rendered candidate is what its pieces spell.
pub proof fn lemma_highlighted_spells_pieces(t: Seq<char>, m: Seq<usize>, open: Seq<char>, close: Seq<char>)
    ensures
        highlighted(t, m, open, close) == spell(pieces(t, m), open, close),
{
    let ps = pieces_upto(t, m, t.len() as int);
    lemma_pieces_upto(t, m, open, close, t.len() as int);
    if marked(m, t.len() - 1) {
        lemma_one_more_close(ps, open, close);
    } else {
        assert(spell(ps, open, close) + Seq::<char>::empty() =~= spell(ps, open, close));
    }
}

/// Each maximal run of matched positions is wrapped exactly once: the
/// pieces hold as many opening markers as there are runs, and as many closing
/// markers; the markers alternate, beginning with an opening one, each
/// closing one directly behind a character; and no pair is left open.
pub proof fn lemma_pieces_wrap_each_run_once(t: Seq<char>, m: Seq<usize>)
    ensures
        opens(pieces(t, m)) == run_starts(m, t.len() as int),
        closes(pieces(t, m)) == run_starts(m, t.len() as int),
        alternating(pieces(t, m)),
        !inside(pieces(t, m)),
{
    let ps = pieces_upto(t, m, t.len() as int);
    lemma_pieces_upto(t, m, Seq::empty(), Seq::empty(), t.len() as int);
    if marked(m, t.len() - 1) {
        lemma_one_more_close(ps, Seq::empty(), Seq::empty());
    }
}

/// With every marker taken out, the pieces are the candidate, character for
/// character.
pub proof fn lemma_pieces_keep_the_candidate(t: Seq<char>, m: Seq<usize>)
    ensures
        letters(pieces(t, m)) == t,
{
    let ps = pieces_upto(t, m, t.len() as int);
    lemma_pieces_upto(t, m, Seq::empty(), Seq::empty(), t.len() as int);
    if marked(m, t.len() - 1) {
        lemma_one_more_close(ps, Seq::empty(), Seq::empty());
    }
    assert(t.subrange(0, t.len() as int) =~= t);
}

/// A character stands inside a marker pair exactly where its position is
/// matched: behind the pieces up to and with the character at `i` a pair is
/// open if and only if `i` is one of the alignment's positions.
pub proof fn lemma_inside_where_marked(t: Seq<char>, m: Seq<usize>, i: int)
    requires
        0 <= i < t.len(),
    ensures
        pieces_upto(t, m, i + 1).last() == Piece::Letter(t[i]),
        letters(pieces_upto(t, m, i + 1)).len() == i + 1,
        inside(pieces_upto(t, m, i + 1)) == marked(m, i),
{
    lemma_pieces_upto(t, m, Seq::empty(), Seq::empty(), i + 1);
}

} // verus!
