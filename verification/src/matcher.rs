//! The keyword matcher: registration of keywords and the scan of a document.
use crate::trie::TreeNode;
use crate::unicode::{lowercase, tokenize, tokens_of};
use crate::words::{
    lemma_boundary_closes_run, lemma_letter_closes_no_word, lemma_no_word_before_start,
    lemma_words_before_end, letters, words, words_before,
};
use vstd::hash_set::StringHashSet;
use vstd::prelude::*;

verus! {

/// What a matcher stands for: the keywords it holds, as they are stored, and
/// whether it tells upper case from lower case.
pub struct Lexicon {
    pub keywords: Set<Seq<char>>,
    pub case_sensitive: bool,
}

impl Lexicon {
    /// The lexicon without keywords.
    pub open spec fn empty(case_sensitive: bool) -> Lexicon {
        Lexicon { keywords: Set::empty(), case_sensitive }
    }

    /// The form in which this lexicon stores a keyword and reads a document:
    /// the text itself where case counts, its lower-case form where it does not.
    pub open spec fn normalize(self, text: Seq<char>) -> Seq<char> {
        if self.case_sensitive {
            text
        } else {
            lowercase(text)
        }
    }

    /// A text in the form in which this lexicon stores keywords.
    pub open spec fn is_normal(self, text: Seq<char>) -> bool {
        self.case_sensitive || exists|source: Seq<char>| #[trigger] lowercase(source) == text
    }

    /// Every keyword is stored in normal form.
    pub open spec fn normalized(self) -> bool {
        forall|keyword: Seq<char>| #[trigger]
            self.keywords.contains(keyword) ==> self.is_normal(keyword)
    }

    /// This lexicon with `keyword` registered, in normal form.
    pub open spec fn add(self, keyword: Seq<char>) -> Lexicon {
        Lexicon {
            keywords: self.keywords.insert(self.normalize(keyword)),
            case_sensitive: self.case_sensitive,
        }
    }

    /// The keywords that are words of `tokens`. A word has at least one letter
    /// and nothing but letters, so the empty keyword and a keyword that holds
    /// anything but letters are never among them.
    pub open spec fn matches(self, tokens: Seq<Option<char>>) -> Set<Seq<char>> {
        self.keywords.intersect(words(tokens))
    }

    /// The keywords that occur in `document` as whole words: none in the empty
    /// document, else the matches among the tokens of the document in the form
    /// in which this lexicon reads it.
    pub open spec fn extract(self, document: Seq<char>) -> Set<Seq<char>> {
        if document.len() == 0 {
            Set::empty()
        } else {
            self.matches(tokens_of(self.normalize(document)))
        }
    }
}

/// The prefixes of `text`, the empty one and `text` itself among them.
pub open spec fn prefixes(text: Seq<char>) -> Set<Seq<char>> {
    Set::new(|prefix: Seq<char>| prefix.is_prefix_of(text))
}

/// A multi-keyword matcher: it holds a set of keywords in a prefix tree and
/// reports which of them occur in a document as whole words.
///
/// Scanning borrows the matcher shared and leaves it as it is, so any number of
/// scans may run side by side; registering a keyword borrows it exclusively.
pub struct KeywordProcessor {
    tree: TreeNode,
    case_sensitive: bool,
}

/// Where the scan stands within the current word.
enum Cursor<'a> {
    /// At a boundary: no letter of a word read yet.
    Root,
    /// The letters read so far spell a path of the tree, which ends at this node.
    Following(&'a TreeNode),
    /// The letters read so far spell no path of the tree.
    Lost,
}

impl<'a> Cursor<'a> {
    /// This cursor is where a scan stands after the letters `run`, read from a
    /// boundary on, in the tree under `root`.
    spec fn tracks(self, root: TreeNode, run: Seq<char>) -> bool {
        match self {
            Cursor::Root => run.len() == 0,
            Cursor::Following(node) => run.len() > 0 && root.descend(run) == Some(*node),
            Cursor::Lost => run.len() > 0 && root.descend(run) is None,
        }
    }
}

impl View for KeywordProcessor {
    type V = Lexicon;

    closed spec fn view(&self) -> Lexicon {
        Lexicon {
            keywords: Set::new(|keyword: Seq<char>| self.tree.terminal(keyword) is Some),
            case_sensitive: self.case_sensitive,
        }
    }
}

impl KeywordProcessor {
    /// The nodes of the prefix tree, each named by the path that leads to it
    /// from the root; the root is the empty path.
    pub closed spec fn nodes(&self) -> Set<Seq<char>> {
        Set::new(|path: Seq<char>| self.tree.has_node(path))
    }

    /// Every tree has its root.
    pub proof fn lemma_root_is_a_node(&self)
        ensures
            self.nodes().contains(Seq::empty()),
    {
    }

    /// The path to a stored keyword spells that keyword, and every keyword is
    /// stored in normal form.
    #[verifier::type_invariant]
    spec fn well_formed(self) -> bool {
        &&& forall|path: Seq<char>|
            (#[trigger] self.tree.terminal(path)) matches Some(keyword) ==> keyword == path
        &&& self@.normalized()
    }

    /// A matcher without keywords; its tree is the root alone.
    pub fn new(case_sensitive: bool) -> (processor: Self)
        ensures
            processor@ == Lexicon::empty(case_sensitive),
            processor.nodes() == prefixes(Seq::empty()),
    {
        let tree = TreeNode::new();
        proof {
            assert forall|path: Seq<char>|
                tree.terminal(path) is None && (tree.has_node(path) <==> path.len() == 0) by {
                tree.lemma_leaf_is_alone(path);
            }
        }
        let processor = KeywordProcessor { tree, case_sensitive };
        proof {
            assert(processor@.keywords =~= Set::<Seq<char>>::empty());
            assert(processor.nodes() =~= prefixes(Seq::empty()));
        }
        processor
    }

    /// Registers `keyword`, in lower case unless this matcher is case
    /// sensitive. Any string is accepted. The tree gains a node for each prefix
    /// of the stored keyword that had none, and loses none. Registering a
    /// keyword that is already held changes nothing.
    pub fn add_keyword(&mut self, keyword: String)
        ensures
            final(self)@ == old(self)@.add(keyword@),
            final(self)@.normalized(),
            final(self).nodes() == old(self).nodes().union(
                prefixes(old(self)@.normalize(keyword@)),
            ),
    {
        proof {
            use_type_invariant(&*self);
        }
        let actual_keyword = match self.case_sensitive {
            true => keyword,
            false => keyword.to_lowercase(),
        };
        assert(self@.is_normal(actual_keyword@));
        // The tree is taken out while it grows: `self` holds an empty tree
        // meanwhile, which is well formed.
        let mut tree = TreeNode::new();
        proof {
            assert forall|path: Seq<char>| tree.terminal(path) is None by {
                tree.lemma_leaf_is_alone(path);
            }
        }
        std::mem::swap(&mut self.tree, &mut tree);
        tree.insert(actual_keyword);
        proof {
            let grown = KeywordProcessor { tree, case_sensitive: self.case_sensitive };
            assert forall|stored: Seq<char>| #[trigger]
                grown@.keywords.contains(stored) implies grown@.is_normal(stored) by {
                if stored != actual_keyword@ {
                    assert(old(self)@.keywords.contains(stored));
                }
            }
        }
        self.tree = tree;
        proof {
            assert(self@.keywords =~= old(self)@.keywords.insert(actual_keyword@));
            assert(self.nodes() =~= old(self).nodes().union(prefixes(actual_keyword@)));
        }
    }

    /// Where a scan stands after one more letter `c`.
    fn advance<'a>(&'a self, cursor: Cursor<'a>, c: char, Ghost(run): Ghost<Seq<char>>) -> (next:
        Cursor<'a>)
        requires
            cursor.tracks(self.tree, run),
        ensures
            next.tracks(self.tree, run.push(c)),
    {
        let from: Option<&TreeNode> = match cursor {
            Cursor::Root => Some(&self.tree),
            Cursor::Following(node) => Some(node),
            Cursor::Lost => None,
        };
        proof {
            self.tree.lemma_descend_push(run, c);
        }
        match from {
            Some(node) => match node.get(c) {
                Some(next) => Cursor::Following(next),
                None => Cursor::Lost,
            },
            None => Cursor::Lost,
        }
    }

    /// The keyword that the word just read matches, if it matches one.
    fn accepted<'a>(&'a self, cursor: &Cursor<'a>, Ghost(run): Ghost<Seq<char>>) -> (keyword:
        Option<&'a String>)
        requires
            cursor.tracks(self.tree, run),
        ensures
            match keyword {
                Some(stored) => run.len() > 0 && stored@ == run && self@.keywords.contains(run),
                None => run.len() == 0 || !self@.keywords.contains(run),
            },
    {
        proof {
            use_type_invariant(self);
            assert(self@.keywords.contains(run) <==> self.tree.terminal(run) is Some);
        }
        match cursor {
            Cursor::Following(node) => node.keyword(),
            _ => None,
        }
    }

    /// The keywords that are words of `tokens`, each once, in no promised
    /// order.
    ///
    /// The tokens are walked once. Within a word the scan follows the tree
    /// letter by letter; at each boundary, and at the end, the word just read
    /// is reported if a keyword ends exactly where the scan stands.
    pub fn scan(&self, tokens: &[Option<char>]) -> (found: Vec<String>)
        ensures
            found.deep_view().no_duplicates(),
            found.deep_view().to_set() == self@.matches(tokens@),
            found@.len() == self@.matches(tokens@).len(),
    {
        let mut found: Vec<String> = Vec::new();
        let mut seen = StringHashSet::new();
        let mut cursor = Cursor::Root;
        let ghost mut start: int = 0;
        proof {
            lemma_no_word_before_start(tokens@);
            assert(found.deep_view().to_set() =~= self@.keywords.intersect(
                words_before(tokens@, 0),
            ));
            assert(letters(tokens@, 0, 0) =~= Seq::<char>::empty());
        }
        for i in 0..tokens.len()
            invariant
                0 <= start <= i,
                forall|k: int| start <= k < i ==> (#[trigger] tokens@[k]) is Some,
                start == 0 || tokens@[start - 1] is None,
                cursor.tracks(self.tree, letters(tokens@, start, i as int)),
                found.deep_view().no_duplicates(),
                found.deep_view().to_set() == seen@,
                found.deep_view().to_set() == self@.keywords.intersect(
                    words_before(tokens@, i as int),
                ),
        {
            let ghost run = letters(tokens@, start, i as int);
            match tokens[i] {
                Some(c) => {
                    cursor = self.advance(cursor, c, Ghost(run));
                    proof {
                        assert(run.push(c) =~= letters(tokens@, start, i + 1));
                        lemma_letter_closes_no_word(tokens@, i as int);
                    }
                },
                None => {
                    if let Some(keyword) = self.accepted(&cursor, Ghost(run)) {
                        record(&mut found, &mut seen, keyword);
                    }
                    cursor = Cursor::Root;
                    proof {
                        lemma_boundary_closes_run(tokens@, start, i as int);
                        assert(found.deep_view().to_set() =~= self@.keywords.intersect(
                            words_before(tokens@, i + 1),
                        ));
                        start = i + 1;
                        assert(letters(tokens@, start, i + 1) =~= Seq::<char>::empty());
                    }
                },
            }
        }
        let ghost run = letters(tokens@, start, tokens@.len() as int);
        if let Some(keyword) = self.accepted(&cursor, Ghost(run)) {
            record(&mut found, &mut seen, keyword);
        }
        proof {
            lemma_boundary_closes_run(tokens@, start, tokens@.len() as int);
            lemma_words_before_end(tokens@);
            assert(found.deep_view().to_set() =~= self@.matches(tokens@));
            found.deep_view().unique_seq_to_set();
        }
        found
    }

    /// The keywords that occur in `document` as whole words, each once, in no
    /// promised order. The document is read in lower case unless this matcher
    /// is case sensitive. An empty document holds no keyword.
    pub fn extract_keywords(&self, document: &String) -> (found: Vec<String>)
        ensures
            found.deep_view().no_duplicates(),
            found.deep_view().to_set() == self@.extract(document@),
            found@.len() == self@.extract(document@).len(),
            document@.len() == 0 ==> found@.len() == 0,
    {
        if document.as_str().is_empty() {
            // Nothing to read.
            let nothing: Vec<String> = Vec::new();
            proof {
                assert(nothing.deep_view().to_set() =~= Set::<Seq<char>>::empty());
            }
            return nothing;
        }
        let tokens = match self.case_sensitive {
            true => tokenize(document.as_str()),
            false => tokenize(document.to_lowercase().as_str()),
        };
        self.scan(tokens.as_slice())
    }
}

/// Adds `keyword` to `found` unless it is there already; `seen` holds what
/// `found` holds.
fn record(found: &mut Vec<String>, seen: &mut StringHashSet, keyword: &String)
    requires
        old(found).deep_view().no_duplicates(),
        old(found).deep_view().to_set() == old(seen)@,
    ensures
        final(found).deep_view().no_duplicates(),
        final(found).deep_view().to_set() == final(seen)@,
        final(found).deep_view().to_set() == old(found).deep_view().to_set().insert(keyword@),
{
    if seen.insert(keyword.clone()) {
        found.push(keyword.clone());
        proof {
            let before = old(found).deep_view();
            let after = found.deep_view();
            assert(after =~= before.push(keyword@));
            assert(after[before.len() as int] == keyword@);
            assert forall|word: Seq<char>| after.contains(word) <==> before.to_set().insert(
                keyword@,
            ).contains(word) by {
                if before.contains(word) {
                    let k: int = choose|k: int| 0 <= k < before.len() && before[k] == word;
                    assert(after[k] == word);
                }
            }
            // The keyword is new to `seen`, so it differs from all that
            // `found` held.
            assert forall|i: int, j: int|
                0 <= i < after.len() && 0 <= j < after.len() && i != j implies after[i]
                != after[j] by {
                if i == before.len() {
                    assert(before.contains(before[j]));
                }
                if j == before.len() {
                    assert(before.contains(before[i]));
                }
            }
        }
    }
    proof {
        assert(found.deep_view().to_set() =~= old(found).deep_view().to_set().insert(keyword@));
    }
}

} // verus!
