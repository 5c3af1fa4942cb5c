//! What holds of every matcher, whatever it holds and whatever it reads.
use crate::matcher::{prefixes, Lexicon};
use crate::unicode::{is_letter, tokens_of};
use crate::words::{is_word, letters, words};
use vstd::prelude::*;
use vstd::set_lib::lemma_len_subset;

verus! {

/// Registering a keyword a second time changes nothing: the lexicon is the one
/// that the first registration gave, so no document tells the two apart, and
/// the tree, whose nodes were `nodes` at first, gains no node.
pub proof fn lemma_add_keyword_is_idempotent(
    lexicon: Lexicon,
    nodes: Set<Seq<char>>,
    keyword: Seq<char>,
)
    ensures
        lexicon.add(keyword).add(keyword) == lexicon.add(keyword),
        forall|document: Seq<char>|
            lexicon.add(keyword).add(keyword).extract(document) == lexicon.add(keyword).extract(
                document,
            ),
        forall|tokens: Seq<Option<char>>|
            lexicon.add(keyword).add(keyword).matches(tokens) == lexicon.add(keyword).matches(
                tokens,
            ),
        nodes.union(prefixes(lexicon.normalize(keyword))).union(
            prefixes(lexicon.add(keyword).normalize(keyword)),
        ) == nodes.union(prefixes(lexicon.normalize(keyword))),
{
    let once = lexicon.add(keyword);
    let twice = once.add(keyword);
    let stored = lexicon.normalize(keyword);
    assert(twice.keywords =~= once.keywords);
    assert(nodes.union(prefixes(stored)).union(prefixes(stored)) =~= nodes.union(
        prefixes(stored),
    ));
}

/// The lexicon without keywords stores all of them in normal form, and
/// registering a keyword keeps it so.
pub proof fn lemma_keywords_stay_normalized(lexicon: Lexicon, keyword: Seq<char>)
    ensures
        Lexicon::empty(lexicon.case_sensitive).normalized(),
        lexicon.normalized() ==> lexicon.add(keyword).normalized(),
{
}

/// The first `count` prefixes of `text` that are not empty.
pub open spec fn leading_prefixes(text: Seq<char>, count: nat) -> Set<Seq<char>>
    decreases count,
{
    if count == 0 {
        Set::empty()
    } else {
        leading_prefixes(text, (count - 1) as nat).insert(text.take(count as int))
    }
}

/// There are at most `count` of them, and each prefix of `text` of 1 to `count`
/// characters is one.
pub proof fn lemma_leading_prefixes(text: Seq<char>, count: nat)
    requires
        count <= text.len(),
    ensures
        leading_prefixes(text, count).finite(),
        leading_prefixes(text, count).len() <= count,
        forall|prefix: Seq<char>|
            prefix.is_prefix_of(text) && 0 < prefix.len() <= count ==> #[trigger] leading_prefixes(
                text,
                count,
            ).contains(prefix),
    decreases count,
{
    if count > 0 {
        lemma_leading_prefixes(text, (count - 1) as nat);
        assert forall|prefix: Seq<char>|
            prefix.is_prefix_of(text) && 0 < prefix.len() <= count implies #[trigger] leading_prefixes(
            text,
            count,
        ).contains(prefix) by {
            if prefix.len() == count {
                assert(prefix =~= text.take(count as int));
            }
        }
    }
}

/// Registering a keyword adds at most one node for each character of the
/// keyword as it is stored, and fewer where the tree has some of its prefixes
/// already: of a tree with the nodes `nodes`, the root among them, the nodes
/// that the registration adds are finitely many and no more than the stored
/// keyword has characters.
pub proof fn lemma_registration_adds_few_nodes(nodes: Set<Seq<char>>, stored: Seq<char>)
    requires
        nodes.contains(Seq::empty()),
    ensures
        nodes.union(prefixes(stored)).difference(nodes).finite(),
        nodes.union(prefixes(stored)).difference(nodes).len() <= stored.len(),
{
    let added = nodes.union(prefixes(stored)).difference(nodes);
    let candidates = leading_prefixes(stored, stored.len());
    lemma_leading_prefixes(stored, stored.len());
    assert forall|path: Seq<char>| added.contains(path) implies candidates.contains(path) by {
        if path.len() == 0 {
            assert(path =~= Seq::<char>::empty());
        }
    }
    lemma_len_subset(added, candidates);
}

/// Only registered keywords are reported, and only words of the document.
pub proof fn lemma_matches_are_keywords_and_words(lexicon: Lexicon, tokens: Seq<Option<char>>)
    ensures
        lexicon.matches(tokens).subset_of(lexicon.keywords),
        lexicon.matches(tokens).subset_of(words(tokens)),
{
}

/// Tokens without a letter hold no word, so nothing matches in them; the empty
/// token sequence is the first of these.
pub proof fn lemma_no_letter_no_match(lexicon: Lexicon, tokens: Seq<Option<char>>)
    requires
        forall|k: int| 0 <= k < tokens.len() ==> (#[trigger] tokens[k]) is None,
    ensures
        words(tokens) == Set::<Seq<char>>::empty(),
        lexicon.matches(tokens) == Set::<Seq<char>>::empty(),
{
    assert forall|word: Seq<char>| !words(tokens).contains(word) by {
        if words(tokens).contains(word) {
            let (start, end): (int, int) = choose|start: int, end: int|
                #[trigger] is_word(tokens, start, end) && letters(tokens, start, end) == word;
            assert(tokens[start] is Some);
        }
    }
}

/// A run of letters with a boundary, or nothing, on either side is a word of
/// the text.
pub proof fn lemma_surrounded_run_is_a_word(before: Seq<char>, run: Seq<char>, after: Seq<char>)
    requires
        run.len() > 0,
        forall|k: int| 0 <= k < run.len() ==> is_letter(#[trigger] run[k]),
        before.len() == 0 || !is_letter(before.last()),
        after.len() == 0 || !is_letter(after.first()),
    ensures
        words(tokens_of(before + run + after)).contains(run),
{
    let text = before + run + after;
    let tokens = tokens_of(text);
    let start: int = before.len() as int;
    let end: int = start + run.len();
    assert forall|k: int| start <= k < end implies (#[trigger] tokens[k]) is Some by {
        assert(text[k] == run[k - start]);
    }
    if start > 0 {
        assert(text[start - 1] == before.last());
    }
    if end < tokens.len() {
        assert(text[end] == after.first());
    }
    assert(is_word(tokens, start, end));
    assert(letters(tokens, start, end) =~= run) by {
        assert forall|k: int| 0 <= k < run.len() implies letters(tokens, start, end)[k]
            == run[k] by {
            assert(text[start + k] == run[k]);
        }
    }
}

/// No keyword occurs in the empty document.
pub proof fn lemma_empty_document_holds_no_keyword(lexicon: Lexicon)
    ensures
        lexicon.extract(Seq::empty()) == Set::<Seq<char>>::empty(),
{
}

/// A matcher that holds a single keyword, reading a document that consists of
/// that keyword with a boundary, or nothing, on either side, reports exactly
/// that keyword. The keyword is taken as the matcher stores it and the document
/// as the matcher reads it; the keyword is not empty and all its characters
/// are letters.
pub proof fn lemma_lone_keyword_is_extracted(
    case_sensitive: bool,
    keyword: Seq<char>,
    document: Seq<char>,
    before: Seq<char>,
    after: Seq<char>,
)
    requires
        ({
            let lexicon = Lexicon::empty(case_sensitive).add(keyword);
            let stored = lexicon.normalize(keyword);
            &&& stored.len() > 0
            &&& forall|k: int| 0 <= k < stored.len() ==> is_letter(#[trigger] stored[k])
            &&& document.len() > 0
            &&& lexicon.normalize(document) == before + stored + after
            &&& (before.len() == 0 || !is_letter(before.last()))
            &&& (after.len() == 0 || !is_letter(after.first()))
        }),
    ensures
        ({
            let lexicon = Lexicon::empty(case_sensitive).add(keyword);
            lexicon.extract(document) == Set::<Seq<char>>::empty().insert(
                lexicon.normalize(keyword),
            )
        }),
{
    let lexicon = Lexicon::empty(case_sensitive).add(keyword);
    let stored = lexicon.normalize(keyword);
    lemma_surrounded_run_is_a_word(before, stored, after);
    assert(lexicon.extract(document) =~= Set::<Seq<char>>::empty().insert(stored));
}

/// A keyword that the document holds only inside longer words is not reported:
/// where every place at which the keyword stands in the document, as the
/// matcher reads it, has a letter right before it or right after it, the
/// keyword is no match.
pub proof fn lemma_embedded_keyword_is_not_extracted(
    lexicon: Lexicon,
    keyword: Seq<char>,
    document: Seq<char>,
)
    requires
        ({
            let text = lexicon.normalize(document);
            forall|at: int|
                0 <= at && at + keyword.len() <= text.len() && #[trigger] text.subrange(
                    at,
                    at + keyword.len(),
                ) == keyword ==> (at > 0 && is_letter(text[at - 1])) || (at + keyword.len()
                    < text.len() && is_letter(text[at + keyword.len()]))
        }),
    ensures
        !lexicon.extract(document).contains(keyword),
{
    let text = lexicon.normalize(document);
    let tokens = tokens_of(text);
    if words(tokens).contains(keyword) {
        let (start, end): (int, int) = choose|start: int, end: int|
            #[trigger] is_word(tokens, start, end) && letters(tokens, start, end) == keyword;
        assert(text.subrange(start, end) =~= keyword) by {
            assert forall|k: int| 0 <= k < end - start implies text[start + k] == keyword[k] by {
                assert(tokens[start + k] is Some);
                assert(letters(tokens, start, end)[k] == tokens[start + k]->0);
            }
        }
        assert(text.subrange(start, start + keyword.len()) == keyword);
    }
}

} // verus!
