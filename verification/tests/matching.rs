use keyword_matcher::{tokenize, KeywordProcessor, TreeNode};
use std::collections::HashSet;

fn set_of(found: Vec<String>) -> HashSet<String> {
    let count = found.len();
    let set: HashSet<String> = found.into_iter().collect();
    assert_eq!(set.len(), count, "a keyword was reported twice");
    set
}

fn words(items: &[&str]) -> HashSet<String> {
    items.iter().map(|item| item.to_string()).collect()
}

#[test]
fn matches_at_start_of_text() {
    let mut kp = KeywordProcessor::new(false);
    kp.add_keyword(String::from("this"));
    let text = String::from("this is a test");
    let keywords = set_of(kp.extract_keywords(&text));
    assert_eq!(keywords, HashSet::from([String::from("this")]));
}

#[test]
fn matches_mid_text() {
    let mut kp = KeywordProcessor::new(false);
    kp.add_keyword(String::from("is"));
    let text = String::from("this is a test");
    let keywords = set_of(kp.extract_keywords(&text));
    assert_eq!(keywords, HashSet::from([String::from("is")]));
}

#[test]
fn matches_at_end_of_text() {
    let mut kp = KeywordProcessor::new(false);
    kp.add_keyword(String::from("test"));
    let text = String::from("this is a test");
    let keywords = set_of(kp.extract_keywords(&text));
    assert_eq!(keywords, HashSet::from([String::from("test")]));
}

#[test]
fn does_not_match_at_start_of_word() {
    let mut kp = KeywordProcessor::new(false);
    kp.add_keyword(String::from("a"));
    let text = String::from("this is atest");
    let keywords = set_of(kp.extract_keywords(&text));
    assert_eq!(keywords, HashSet::new());
}

#[test]
fn does_not_match_mid_word() {
    let mut kp = KeywordProcessor::new(false);
    kp.add_keyword(String::from("is"));
    let text = String::from("thisisa test");
    let keywords = set_of(kp.extract_keywords(&text));
    assert_eq!(keywords, HashSet::new());
}

#[test]
fn does_not_match_at_end_of_word() {
    let mut kp = KeywordProcessor::new(false);
    kp.add_keyword(String::from("his"));
    let text = String::from("this is a test");
    let keywords = set_of(kp.extract_keywords(&text));
    assert_eq!(keywords, HashSet::new());
}

#[test]
fn case_insensitive_matcher_folds_keyword_and_document() {
    let mut kp = KeywordProcessor::new(false);
    kp.add_keyword(String::from("Test"));
    let text = String::from("this is a TEST");
    let keywords = set_of(kp.extract_keywords(&text));
    assert_eq!(keywords, HashSet::from([String::from("test")]));
}

#[test]
fn case_sensitive_matcher_folds_nothing() {
    let mut kp = KeywordProcessor::new(true);
    kp.add_keyword(String::from("Test"));
    let text = String::from("this is a TEST");
    let keywords = set_of(kp.extract_keywords(&text));
    assert_eq!(keywords, HashSet::new());
    let same_case = String::from("this is a Test");
    assert_eq!(set_of(kp.extract_keywords(&same_case)), words(&["Test"]));
}

#[test]
fn empty_document_yields_nothing() {
    for case_sensitive in [false, true] {
        let mut kp = KeywordProcessor::new(case_sensitive);
        kp.add_keyword(String::from("this"));
        kp.add_keyword(String::from("a"));
        assert_eq!(kp.extract_keywords(&String::new()), Vec::<String>::new());
    }
}

#[test]
fn matcher_without_keywords_yields_nothing() {
    let kp = KeywordProcessor::new(false);
    let text = String::from("this is a test");
    assert_eq!(kp.extract_keywords(&text), Vec::<String>::new());
}

#[test]
fn document_without_letters_yields_nothing() {
    let mut kp = KeywordProcessor::new(false);
    kp.add_keyword(String::from("a"));
    let text = String::from("12 + 34 = 46 ?!");
    assert_eq!(kp.extract_keywords(&text), Vec::<String>::new());
}

#[test]
fn registering_twice_is_registering_once() {
    let mut once = KeywordProcessor::new(false);
    once.add_keyword(String::from("test"));
    let mut twice = KeywordProcessor::new(false);
    twice.add_keyword(String::from("test"));
    twice.add_keyword(String::from("test"));
    for text in ["this is a test", "test", "testing", "", "a test, a TEST"] {
        let text = String::from(text);
        assert_eq!(set_of(once.extract_keywords(&text)), set_of(twice.extract_keywords(&text)));
    }
    let text = String::from("a test, a TEST");
    assert_eq!(twice.extract_keywords(&text), vec![String::from("test")]);
}

#[test]
fn keyword_alone_in_the_document_is_found() {
    for text in ["word", " word", "word ", "(word)", "1word2", "\tword\n"] {
        let mut kp = KeywordProcessor::new(true);
        kp.add_keyword(String::from("word"));
        assert_eq!(set_of(kp.extract_keywords(&String::from(text))), words(&["word"]));
    }
}

#[test]
fn keyword_inside_a_longer_word_is_not_found() {
    let mut kp = KeywordProcessor::new(true);
    kp.add_keyword(String::from("word"));
    for text in ["words", "sword", "swords", "wordword", "a sword, in other words"] {
        assert_eq!(kp.extract_keywords(&String::from(text)), Vec::<String>::new());
    }
    let text = String::from("swords or a word");
    assert_eq!(set_of(kp.extract_keywords(&text)), words(&["word"]));
}

#[test]
fn digits_and_punctuation_are_boundaries() {
    let mut kp = KeywordProcessor::new(false);
    kp.add_keyword(String::from("rust"));
    for text in ["rust2024", "2024rust", "rust,", "(rust)", "is-rust-ok", "rust_lang", "x=rust;"] {
        assert_eq!(set_of(kp.extract_keywords(&String::from(text))), words(&["rust"]));
    }
}

#[test]
fn keyword_with_a_boundary_character_never_matches() {
    let mut kp = KeywordProcessor::new(false);
    kp.add_keyword(String::from("new york"));
    kp.add_keyword(String::from("c3po"));
    kp.add_keyword(String::from("e-mail"));
    let text = String::from("new york, c3po and e-mail");
    assert_eq!(kp.extract_keywords(&text), Vec::<String>::new());
}

#[test]
fn empty_keyword_is_accepted_and_never_reported() {
    for case_sensitive in [false, true] {
        let mut kp = KeywordProcessor::new(case_sensitive);
        kp.add_keyword(String::new());
        for text in ["", " ", "a", " a ", "a  b", "1,,2"] {
            assert_eq!(kp.extract_keywords(&String::from(text)), Vec::<String>::new());
        }
        kp.add_keyword(String::from("a"));
        assert_eq!(set_of(kp.extract_keywords(&String::from(" a "))), words(&["a"]));
    }
}

#[test]
fn every_keyword_is_reported_once() {
    let mut kp = KeywordProcessor::new(false);
    kp.add_keyword(String::from("this"));
    kp.add_keyword(String::from("test"));
    kp.add_keyword(String::from("absent"));
    let text = String::from("This test is a TEST: this, THIS and test.");
    let found = kp.extract_keywords(&text);
    assert_eq!(found.len(), 2);
    assert_eq!(set_of(found), words(&["this", "test"]));
}

#[test]
fn several_keywords_in_one_document() {
    let mut kp = KeywordProcessor::new(true);
    kp.add_keyword(String::from("b"));
    kp.add_keyword(String::from("a"));
    kp.add_keyword(String::from("c"));
    let text = String::from("a b a b");
    assert_eq!(set_of(kp.extract_keywords(&text)), words(&["a", "b"]));
}

#[test]
fn keyword_that_begins_another_keyword() {
    let mut kp = KeywordProcessor::new(true);
    kp.add_keyword(String::from("ab"));
    kp.add_keyword(String::from("a"));
    kp.add_keyword(String::from("abc"));
    assert_eq!(set_of(kp.extract_keywords(&String::from("ab"))), words(&["ab"]));
    assert_eq!(set_of(kp.extract_keywords(&String::from("a"))), words(&["a"]));
    assert_eq!(set_of(kp.extract_keywords(&String::from("abc ab a"))), words(&["a", "ab", "abc"]));
    assert_eq!(kp.extract_keywords(&String::from("abcd")), Vec::<String>::new());
}

#[test]
fn scan_recovers_at_the_next_boundary() {
    let mut kp = KeywordProcessor::new(true);
    kp.add_keyword(String::from("cat"));
    assert_eq!(set_of(kp.extract_keywords(&String::from("xcat cat"))), words(&["cat"]));
    assert_eq!(set_of(kp.extract_keywords(&String::from("cow cat"))), words(&["cat"]));
    assert_eq!(kp.extract_keywords(&String::from("xcat catx")), Vec::<String>::new());
}

#[test]
fn letters_beyond_ascii() {
    let mut kp = KeywordProcessor::new(false);
    kp.add_keyword(String::from("École"));
    kp.add_keyword(String::from("ΛΌΓΟΣ"));
    kp.add_keyword(String::from("日本"));
    let text = String::from("L'ÉCOLE, λόγος; 日本 と 日本語");
    assert_eq!(set_of(kp.extract_keywords(&text)), words(&["école", "λόγος", "日本"]));
    let mut exact = KeywordProcessor::new(true);
    exact.add_keyword(String::from("École"));
    assert_eq!(exact.extract_keywords(&String::from("L'ÉCOLE")), Vec::<String>::new());
    assert_eq!(set_of(exact.extract_keywords(&String::from("L'École"))), words(&["École"]));
}

#[test]
fn lower_case_form_with_a_mark_holds_a_boundary() {
    let mut kp = KeywordProcessor::new(false);
    kp.add_keyword(String::from("İzmir"));
    assert_eq!(kp.extract_keywords(&String::from("İzmir")), Vec::<String>::new());
    let mut exact = KeywordProcessor::new(true);
    exact.add_keyword(String::from("İzmir"));
    assert_eq!(set_of(exact.extract_keywords(&String::from("İzmir"))), words(&["İzmir"]));
}

#[test]
fn tokenize_marks_letters_and_boundaries() {
    assert_eq!(tokenize(""), Vec::<Option<char>>::new());
    assert_eq!(tokenize("a1 É"), vec![Some('a'), None, None, Some('É')]);
    assert_eq!(tokenize("_-\n"), vec![None, None, None]);
    assert_eq!(tokenize("日本"), vec![Some('日'), Some('本')]);
}

#[test]
fn scan_takes_the_tokens_as_they_are() {
    let mut kp = KeywordProcessor::new(true);
    kp.add_keyword(String::from("r2"));
    kp.add_keyword(String::from("d"));
    assert_eq!(kp.extract_keywords(&String::from("r2 d2")), vec![String::from("d")]);
    let tokens = vec![Some('r'), Some('2'), None, Some('d'), Some('2')];
    assert_eq!(kp.scan(&tokens), vec![String::from("r2")]);
    let tokens = vec![Some('r'), Some('2'), None, Some('d'), None, Some('2')];
    assert_eq!(set_of(kp.scan(&tokens)), words(&["r2", "d"]));
    assert_eq!(kp.scan(&Vec::new()), Vec::<String>::new());
    assert_eq!(kp.scan(&vec![None, None]), Vec::<String>::new());
}

#[test]
fn scan_of_the_tokens_is_the_extraction() {
    let mut kp = KeywordProcessor::new(true);
    kp.add_keyword(String::from("is"));
    kp.add_keyword(String::from("test"));
    let text = String::from("this is a test");
    assert_eq!(set_of(kp.scan(&tokenize(&text))), set_of(kp.extract_keywords(&text)));
    assert_eq!(set_of(kp.scan(&tokenize(&text))), words(&["is", "test"]));
}

#[test]
fn long_keyword_is_stored_and_found() {
    let long: String = std::iter::repeat('a').take(2_000).collect();
    let mut kp = KeywordProcessor::new(true);
    kp.add_keyword(long.clone());
    let text = format!("b {} c", long);
    assert_eq!(kp.extract_keywords(&text), vec![long.clone()]);
    let longer = format!("{}a", long);
    assert_eq!(kp.extract_keywords(&longer), Vec::<String>::new());
}

#[test]
fn new_node_can_be_made() {
    let _node: TreeNode = TreeNode::new();
}

fn runs_of_letters(text: &str) -> HashSet<String> {
    text.split(|c: char| !c.is_alphabetic())
        .filter(|run| !run.is_empty())
        .map(String::from)
        .collect()
}

#[test]
fn extraction_agrees_with_splitting_into_words() {
    let alphabet = ['a', 'b', 'B', ' ', '1'];
    let keywords = ["a", "ab", "ba", "B", "abb", "", "a b", "b1"];
    let mut documents = vec![String::new()];
    let mut longest = vec![String::new()];
    for _ in 0..5 {
        let mut longer = Vec::new();
        for document in &longest {
            for c in alphabet {
                let mut next = document.clone();
                next.push(c);
                longer.push(next);
            }
        }
        documents.extend(longer.iter().cloned());
        longest = longer;
    }
    assert_eq!(documents.len(), 3906);
    for case_sensitive in [false, true] {
        let mut kp = KeywordProcessor::new(case_sensitive);
        let mut stored = HashSet::new();
        for keyword in keywords {
            kp.add_keyword(String::from(keyword));
            if case_sensitive {
                stored.insert(String::from(keyword));
            } else {
                stored.insert(keyword.to_lowercase());
            }
        }
        for document in &documents {
            let read = if case_sensitive { document.clone() } else { document.to_lowercase() };
            let expected: HashSet<String> =
                runs_of_letters(&read).intersection(&stored).cloned().collect();
            assert_eq!(set_of(kp.extract_keywords(document)), expected, "in {:?}", document);
        }
    }
}
