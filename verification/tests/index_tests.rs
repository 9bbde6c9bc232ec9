use search_core::inverted_index::{
    copy_texts, find, get_by_lowered, get_by_text, get_helper, index, insert, insert_by_content,
    insert_term, TermIndex,
};

fn owned(parts: &[&str]) -> Vec<String> {
    parts.iter().map(|p| p.to_string()).collect()
}

#[test]
fn empty_index_knows_no_term() {
    let terms = TermIndex::new();
    assert_eq!(terms.len(), 0);
    assert!(get_helper(&terms, "rust").is_none());
    assert!(find(&terms, "").is_none());
    assert_eq!(get_by_text(&terms, "anything at all"), Some(Vec::new()));
}

#[test]
fn insert_term_is_idempotent() {
    let mut terms = TermIndex::new();
    insert_term(&mut terms, "rust", "http://a/");
    insert_term(&mut terms, "rust", "http://a/");
    insert_term(&mut terms, "rust", "http://b/");
    insert_term(&mut terms, "rust", "http://a/");
    assert_eq!(get_helper(&terms, "rust"), Some(owned(&["http://a/", "http://b/"])));
    assert_eq!(terms.len(), 1);
}

#[test]
fn terms_are_exact() {
    let mut terms = TermIndex::new();
    insert_term(&mut terms, "rust", "http://a/");
    insert_term(&mut terms, "rusty", "http://b/");
    assert_eq!(get_helper(&terms, "rust"), Some(owned(&["http://a/"])));
    assert_eq!(get_helper(&terms, "rusty"), Some(owned(&["http://b/"])));
    assert!(get_helper(&terms, "rus").is_none());
    assert!(get_helper(&terms, "Rust").is_none());
    assert!(get_helper(&terms, "rust rusty").is_none());
}

#[test]
fn insert_puts_the_lower_case_term() {
    let mut terms = TermIndex::new();
    insert(&mut terms, "RuSt", "http://a/");
    insert(&mut terms, "ÄPFEL", "http://a/");
    assert_eq!(get_helper(&terms, "rust"), Some(owned(&["http://a/"])));
    assert_eq!(get_helper(&terms, "äpfel"), Some(owned(&["http://a/"])));
    assert!(get_helper(&terms, "RuSt").is_none());
}

#[test]
fn every_word_of_a_page_leads_to_it() {
    let mut terms = TermIndex::new();
    insert_by_content(&mut terms, "http://a/", "Body text  here", "The Title", "Head\tLines", "bold");
    for word in ["the", "title", "head", "lines", "bold", "body", "text", "here"] {
        assert_eq!(get_helper(&terms, word), Some(owned(&["http://a/"])));
    }
    assert_eq!(terms.len(), 8);
    assert!(get_helper(&terms, "http://a/").is_none());
    assert!(get_helper(&terms, "").is_none());
}

#[test]
fn words_lead_to_every_page_that_holds_them() {
    let mut terms = TermIndex::new();
    insert_by_content(&mut terms, "u1", "alpha beta", "", "", "");
    insert_by_content(&mut terms, "u2", "alpha", "", "", "");
    insert_by_content(&mut terms, "u3", "gamma", "beta", "", "");
    assert_eq!(get_helper(&terms, "alpha"), Some(owned(&["u1", "u2"])));
    assert_eq!(get_helper(&terms, "beta"), Some(owned(&["u1", "u3"])));
    assert_eq!(get_helper(&terms, "gamma"), Some(owned(&["u3"])));
}

#[test]
fn indexing_a_page_again_changes_nothing() {
    let mut terms = TermIndex::new();
    insert_by_content(&mut terms, "u1", "alpha beta alpha", "t", "h", "x");
    insert_by_content(&mut terms, "u2", "beta", "t", "", "");
    let before: Vec<Option<Vec<String>>> =
        ["alpha", "beta", "t", "h", "x"].iter().map(|w| get_helper(&terms, w)).collect();
    let count = terms.len();
    insert_by_content(&mut terms, "u1", "alpha beta alpha", "t", "h", "x");
    let after: Vec<Option<Vec<String>>> =
        ["alpha", "beta", "t", "h", "x"].iter().map(|w| get_helper(&terms, w)).collect();
    assert_eq!(before, after);
    assert_eq!(terms.len(), count);
}

#[test]
fn old_words_stay_when_a_page_changes() {
    let mut terms = TermIndex::new();
    insert_by_content(&mut terms, "u1", "old words", "", "", "");
    insert_by_content(&mut terms, "u1", "new words", "", "", "");
    assert_eq!(get_helper(&terms, "old"), Some(owned(&["u1"])));
    assert_eq!(get_helper(&terms, "new"), Some(owned(&["u1"])));
    assert_eq!(get_helper(&terms, "words"), Some(owned(&["u1"])));
}

#[test]
fn get_by_text_gathers_word_by_word() {
    let mut terms = TermIndex::new();
    insert_by_content(&mut terms, "u1", "alpha beta", "", "", "");
    insert_by_content(&mut terms, "u2", "alpha", "", "", "");
    assert_eq!(get_by_text(&terms, "Alpha  BETA"), Some(owned(&["u1", "u2", "u1"])));
    assert_eq!(get_by_text(&terms, "beta unknown alpha"), Some(owned(&["u1", "u1", "u2"])));
    assert_eq!(get_by_text(&terms, ""), Some(Vec::new()));
    assert_eq!(get_by_lowered(&terms, "alpha alpha"), owned(&["u1", "u2", "u1", "u2"]));
    assert_eq!(get_by_lowered(&terms, "Alpha"), Vec::<String>::new());
}

#[test]
fn a_snapshot_is_replayed_into_the_index() {
    let mut terms = TermIndex::new();
    index(&mut terms, "u1$$==$$=$$Rust Book$$==$$=$$intro$$==$$=$$bold$$==$$=$$alpha beta\nnot a record\nu2$$==$$=$$Other$$==$$=$$$$==$$=$$$$==$$=$$alpha\n");
    assert_eq!(get_helper(&terms, "rust"), Some(owned(&["u1"])));
    assert_eq!(get_helper(&terms, "book"), Some(owned(&["u1"])));
    assert_eq!(get_helper(&terms, "intro"), Some(owned(&["u1"])));
    assert_eq!(get_helper(&terms, "alpha"), Some(owned(&["u1", "u2"])));
    assert_eq!(get_helper(&terms, "other"), Some(owned(&["u2"])));
    assert!(get_helper(&terms, "not").is_none());
    assert!(get_helper(&terms, "u1").is_none());
}

#[test]
fn copies_are_equal() {
    let texts = owned(&["a", "", "ccc"]);
    assert_eq!(copy_texts(&texts), texts);
    assert_eq!(copy_texts(&Vec::new()), Vec::<String>::new());
}
