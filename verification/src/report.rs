//! A result set as text: one line for each match, in a bracketed list.

use vstd::prelude::*;
use vstd::string::StringExecFns;
use crate::model::{FuzzyResultView, InfoView};
use crate::search::{FuzzyResult, Info};

verus! {

/// The character of the decimal digit `d`.
pub open spec fn digit(d: int) -> char {
    ('0' as int + d) as char
}

/// `n` in decimal notation, without leading zeros.
pub open spec fn decimal(n: nat) -> Seq<char>
    decreases n,
{
    if n < 10 {
        seq![digit(n as int)]
    } else {
        decimal(n / 10).push(digit((n % 10) as int))
    }
}

/// The line of one match: its score and its rendered candidate.
pub open spec fn info_text(info: InfoView) -> Seq<char> {
    "\t{ score: "@ + decimal(info.score as nat) + ", highlighted: '"@ + info.highlighted + "' }"@
}

/// The lines of the first `n` matches, with a comma and a line break
/// between one and the next.
pub open spec fn lines_text(s: Seq<InfoView>, n: int) -> Seq<char>
    decreases n,
{
    if n <= 0 {
        Seq::empty()
    } else if n == 1 {
        info_text(s[0])
    } else {
        lines_text(s, n - 1) + ",\r\n"@ + info_text(s[n - 1])
    }
}

/// The lines of all matches between an opening and a closing bracket, each
/// bracket on a line of its own.
pub open spec fn result_text(r: FuzzyResultView) -> Seq<char> {
    "[\r\n"@ + lines_text(r.results, r.results.len() as int) + "\r\n]"@
}

/// The character of a decimal digit.
fn digit_char(d: u8) -> (c: char)
    requires
        d < 10,
    ensures
        c == digit(d as int),
{
    (48u8 + d) as char
}

/// Appends `n` in decimal notation.
pub fn push_decimal(s: &mut String, n: usize)
    ensures
        final(s)@ == old(s)@ + decimal(n as nat),
    decreases n,
{
    if n >= 10 {
        push_decimal(s, n / 10);
    }
    s.push(digit_char((n % 10) as u8));
    assert(s@ =~= old(s)@ + decimal(n as nat));
}

impl Info {
    /// Appends the line of this match.
    fn push_text(&self, s: &mut String)
        ensures
            final(s)@ == old(s)@ + info_text(self@),
    {
        s.append("\t{ score: ");
        push_decimal(s, self.score);
        s.append(", highlighted: '");
        s.append(self.highlighted.as_str());
        s.append("' }");
        assert(s@ =~= old(s)@ + info_text(self@));
    }

    /// The line of this match.
    pub fn to_text(&self) -> (s: String)
        ensures
            s@ == info_text(self@),
    {
        let mut s = String::new();
        self.push_text(&mut s);
        assert(s@ =~= info_text(self@));
        s
    }
}

impl FuzzyResult {
    /// The matches as a bracketed list of lines.
    pub fn to_text(&self) -> (s: String)
        ensures
            s@ == result_text(self@),
    {
        let mut s = String::new();
        s.append("[\r\n");
        let mut i: usize = 0;
        while i < self.results.len()
            invariant
                i <= self.results.len(),
                s@ == "[\r\n"@ + lines_text(self@.results, i as int),
            decreases self.results.len() - i,
        {
            let ghost before = s@;
            if i != 0 {
                s.append(",\r\n");
            }
            self.results[i].push_text(&mut s);
            assert(self@.results[i as int] == self.results@[i as int]@);
            assert(s@ =~= "[\r\n"@ + lines_text(self@.results, i + 1));
            i += 1;
        }
        s.append("\r\n]");
        s
    }
}

} // verus!
