//! Characters: caseless equality, character classes, and decoding a string
//! into an indexable vector of characters.

use vstd::prelude::*;
use vstd::std_specs::iter::IteratorSpec;

verus! {

/// Whether two characters are equal under full Unicode case folding.
pub uninterp spec fn caseless_eq(a: char, b: char) -> bool;

/// Whether a character has the Unicode property `Uppercase`.
pub uninterp spec fn is_upper(c: char) -> bool;

/// Whether a character is alphabetic or numeric in Unicode's sense.
pub uninterp spec fn is_alnum(c: char) -> bool;

/// Calls `unicase::eq` on the two characters, each as a string of one
/// character. Trusted: the answer is a fixed function of the two characters,
/// which the contract names `caseless_eq`.
#[verifier::external_body]
pub(crate) fn chars_caseless_eq(a: char, b: char) -> (r: bool)
    ensures
        r == caseless_eq(a, b),
{
    let mut left = [0u8; 4];
    let mut right = [0u8; 4];
    unicase::eq::<str>(a.encode_utf8(&mut left), b.encode_utf8(&mut right))
}

/// Calls `char::is_uppercase`. Trusted: the answer is a fixed function of the
/// character, which the contract names `is_upper`.
#[verifier::external_body]
pub(crate) fn char_is_upper(c: char) -> (r: bool)
    ensures
        r == is_upper(c),
{
    c.is_uppercase()
}

/// Calls `char::is_alphanumeric`. Trusted: the answer is a fixed function of
/// the character, which the contract names `is_alnum`.
#[verifier::external_body]
pub(crate) fn char_is_alnum(c: char) -> (r: bool)
    ensures
        r == is_alnum(c),
{
    c.is_alphanumeric()
}

/// `String::push` appends one character.
pub assume_specification[ String::push ](s: &mut String, c: char)
    ensures
        final(s)@ == old(s)@.push(c),
;

/// The case and class of a character, as the boundary scan remembers it of
/// the character before the one it looks at.
#[derive(Clone, Copy, PartialEq, Eq, Structural, Debug)]
pub struct CharClass {
    pub upper: bool,
    pub alnum: bool,
}

/// The class of `c`.
pub open spec fn class_of(c: char) -> CharClass {
    CharClass { upper: is_upper(c), alnum: is_alnum(c) }
}

/// The class that stands for "no character before": neither upper case nor
/// alphanumeric.
pub open spec fn no_class() -> CharClass {
    CharClass { upper: false, alnum: false }
}

/// A character starts a word when it is an upper-case letter after one that
/// is not, when the character before is not alphanumeric, or when it is not
/// alphanumeric itself.
pub open spec fn starts_word(before: CharClass, at: CharClass) -> bool {
    (at.upper && !before.upper) || !before.alnum || !at.alnum
}

impl CharClass {
    /// The class of a character.
    pub fn of(c: char) -> (r: CharClass)
        ensures
            r == class_of(c),
    {
        CharClass { upper: char_is_upper(c), alnum: char_is_alnum(c) }
    }

    /// The class used where no character comes before.
    pub fn none() -> (r: CharClass)
        ensures
            r == no_class(),
    {
        CharClass { upper: false, alnum: false }
    }

    /// Whether a character of class `at` that follows one of class `self`
    /// starts a word.
    pub fn then_starts_word(&self, at: &CharClass) -> (r: bool)
        ensures
            r == starts_word(*self, *at),
    {
        (at.upper && !self.upper) || !self.alnum || !at.alnum
    }
}

/// Decodes a string into its characters.
pub fn to_chars(s: &str) -> (v: Vec<char>)
    ensures
        v@ == s@,
        s@.len() <= usize::MAX,
{
    broadcast use vstd::string::group_string_axioms;

    let mut it = s.chars();
    let mut v: Vec<char> = Vec::new();
    loop
        invariant
            it.obeys_prophetic_iter_laws(),
            it.decrease() is Some,
            v@ + it.remaining() == s@,
        decreases it.decrease()->0,
    {
        let ghost before = it.remaining();
        match it.next() {
            Some(c) => {
                v.push(c);
                assert(v@ + it.remaining() =~= s@) by {
                    assert(before =~= seq![before[0]] + before.drop_first());
                }
            },
            None => {
                assert(it.remaining().len() == 0);
                assert(v@ =~= v@ + it.remaining());
                assert(v@.len() == v.len());
                return v;
            },
        }
    }
}

} // verus!
