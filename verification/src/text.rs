//! Comparing words of the command line.

use vstd::prelude::*;

verus! {

/// Whether two strings hold the same characters.
pub fn same(a: &str, b: &str) -> (r: bool)
    ensures
        r == (a@ == b@),
{
    let left = a.to_owned();
    let right = b.to_owned();
    left == right
}

/// Whether a word is present and holds the characters `w`.
pub open spec fn is_word(word: Option<String>, w: Seq<char>) -> bool {
    word matches Some(s) && s@ == w
}

/// Whether a word is present and equal to `w`.
pub fn word_is(word: &Option<String>, w: &str) -> (r: bool)
    ensures
        r == is_word(*word, w@),
{
    match word {
        Some(s) => same(s.as_str(), w),
        None => false,
    }
}

} // verus!
