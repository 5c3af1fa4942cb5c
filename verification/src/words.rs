//! Words of a token sequence: the maximal runs of letters.
use vstd::prelude::*;

verus! {

/// Positions `start..end` hold a word of `tokens`: a non-empty run of letters
/// with no letter right before it and none right after it.
pub open spec fn is_word(tokens: Seq<Option<char>>, start: int, end: int) -> bool {
    &&& 0 <= start < end <= tokens.len()
    &&& forall|k: int| start <= k < end ==> (#[trigger] tokens[k]) is Some
    &&& (start == 0 || tokens[start - 1] is None)
    &&& (end == tokens.len() || tokens[end] is None)
}

/// The letters at positions `start..end` of `tokens`.
pub open spec fn letters(tokens: Seq<Option<char>>, start: int, end: int) -> Seq<char> {
    Seq::new((end - start) as nat, |k: int| tokens[start + k]->0)
}

/// The words of `tokens` that end before position `limit`.
pub open spec fn words_before(tokens: Seq<Option<char>>, limit: int) -> Set<Seq<char>> {
    Set::new(
        |word: Seq<char>|
            exists|start: int, end: int|
                #[trigger] is_word(tokens, start, end) && end < limit && letters(tokens, start, end)
                    == word,
    )
}

/// All the words of `tokens`.
pub open spec fn words(tokens: Seq<Option<char>>) -> Set<Seq<char>> {
    Set::new(
        |word: Seq<char>|
            exists|start: int, end: int|
                #[trigger] is_word(tokens, start, end) && letters(tokens, start, end) == word,
    )
}

/// A word is fixed by where it ends: two words with the same end start at the
/// same position.
pub proof fn lemma_word_start_is_unique(tokens: Seq<Option<char>>, a: int, b: int, end: int)
    requires
        is_word(tokens, a, end),
        is_word(tokens, b, end),
    ensures
        a == b,
{
    // The later of two starts would have a letter right before it.
    if a < b {
        assert(tokens[b - 1] is Some);
    }
    if b < a {
        assert(tokens[a - 1] is Some);
    }
}

/// No word ends before position 0.
pub proof fn lemma_no_word_before_start(tokens: Seq<Option<char>>)
    ensures
        words_before(tokens, 0) == Set::<Seq<char>>::empty(),
{
}

/// Every word ends at or before the end of the tokens.
pub proof fn lemma_words_before_end(tokens: Seq<Option<char>>)
    ensures
        words_before(tokens, tokens.len() as int + 1) == words(tokens),
{
}

/// Where position `at` holds a letter, no word ends there.
pub proof fn lemma_letter_closes_no_word(tokens: Seq<Option<char>>, at: int)
    requires
        0 <= at < tokens.len(),
        tokens[at] is Some,
    ensures
        words_before(tokens, at + 1) == words_before(tokens, at),
{
}

/// Where a run of letters starts at `start` and something other than a letter,
/// or the end of the tokens, stands at `at`: the words that end at or before
/// `at` are those that end before it, and the run itself unless it is empty.
pub proof fn lemma_boundary_closes_run(tokens: Seq<Option<char>>, start: int, at: int)
    requires
        0 <= start <= at <= tokens.len(),
        forall|k: int| start <= k < at ==> (#[trigger] tokens[k]) is Some,
        start == 0 || tokens[start - 1] is None,
        at == tokens.len() || tokens[at] is None,
    ensures
        start < at ==> words_before(tokens, at + 1) == words_before(tokens, at).insert(
            letters(tokens, start, at),
        ),
        start == at ==> words_before(tokens, at + 1) == words_before(tokens, at),
{
    let closed = words_before(tokens, at);
    let now = words_before(tokens, at + 1);
    if start < at {
        // The run is a word, and the only one that ends at `at`.
        let run = letters(tokens, start, at);
        assert(is_word(tokens, start, at));
        assert forall|word: Seq<char>| now.contains(word) implies closed.insert(run).contains(
            word,
        ) by {
            let (a, b): (int, int) = choose|a: int, b: int|
                #[trigger] is_word(tokens, a, b) && b < at + 1 && letters(tokens, a, b) == word;
            if b == at {
                lemma_word_start_is_unique(tokens, a, start, at);
            }
        }
    } else {
        // A word that ended at `at` would have its last letter right before
        // `at`, where the run has none.
        assert forall|word: Seq<char>| now.contains(word) implies closed.contains(word) by {
            let (a, b): (int, int) = choose|a: int, b: int|
                #[trigger] is_word(tokens, a, b) && b < at + 1 && letters(tokens, a, b) == word;
            if b == at {
                assert(tokens[at - 1] is Some);
            }
        }
    }
}

} // verus!
