//! Unicode facts the matcher relies on: which characters are letters, and how
//! text is folded to lower case. Both are decided by the standard library; this
//! module names their results and turns text into the tokens the matcher scans.
use vstd::prelude::*;

verus! {

/// Whether `c` is a letter: whether it has the Unicode `Alphabetic` property,
/// as `char::is_alphabetic` reports it.
pub uninterp spec fn is_letter(c: char) -> bool;

/// The lower-case form of `text`, as `str::to_lowercase` computes it.
pub uninterp spec fn lowercase(text: Seq<char>) -> Seq<char>;

/// Trusted: `char::is_alphabetic` is a function of the character alone; its
/// result is what [`is_letter`] names.
pub assume_specification[ char::is_alphabetic ](c: char) -> (letter: bool)
    ensures
        letter == is_letter(c),
;

/// Trusted: `str::to_lowercase` is a function of the characters of its argument
/// alone; its result is what [`lowercase`] names.
pub assume_specification[ str::to_lowercase ](s: &str) -> (lowered: String)
    ensures
        lowered@ == lowercase(s@),
;

/// One position of a scanned text: `Some(c)` for a letter `c`, `None` for a
/// boundary (anything that is not a letter).
pub open spec fn token_of(c: char) -> Option<char> {
    if is_letter(c) {
        Some(c)
    } else {
        None
    }
}

/// The tokens of `text`, position by position.
pub open spec fn tokens_of(text: Seq<char>) -> Seq<Option<char>> {
    text.map_values(|c: char| token_of(c))
}

/// Classifies every character of `text` as a letter or a boundary.
pub fn tokenize(text: &str) -> (tokens: Vec<Option<char>>)
    ensures
        tokens@ == tokens_of(text@),
{
    let mut tokens: Vec<Option<char>> = Vec::new();
    let chars = text.chars();
    for c in it: chars
        invariant
            it.seq() == text@,
            tokens@ == tokens_of(text@.take(it.index())),
    {
        if c.is_alphabetic() {
            tokens.push(Some(c));
        } else {
            tokens.push(None);
        }
    }
    tokens
}

} // verus!
