use librush::ExtractorStrategy;
use librush::InvalidKeywordError;
use librush::KeywordProcessor;
use librush::UnknownStrategyError;
use librush::is_valid_keyword;

#[test]
fn add_same_phrase_twice_keeps_len() {
    let mut p = KeywordProcessor::new(true);
    assert!(p.add_keyword_with_clean_name("New York", "NY1").is_ok());
    assert_eq!(p.len(), 1);
    assert!(p.add_keyword_with_clean_name("New York", "NY2").is_ok());
    assert_eq!(p.len(), 1);
    // the second insertion's clean name wins
    assert_eq!(p.replace_keywords("New York".to_string()), "NY2");
}

#[test]
fn case_folding_merges_and_matches() {
    let mut p = KeywordProcessor::new(false);
    assert!(p.add_keyword("New York").is_ok());
    assert!(p.add_keyword("new york").is_ok());
    assert_eq!(p.len(), 1);
    let found = p.extract_keywords("I live in NEW YORK".to_string(), ExtractorStrategy::All);
    assert_eq!(found, vec!["new york".to_string()]);
}

#[test]
fn case_sensitive_does_not_fold() {
    let mut p = KeywordProcessor::new(true);
    assert!(p.add_keyword("Cat").is_ok());
    let none = p.extract_keywords("cat".to_string(), ExtractorStrategy::All);
    assert!(none.is_empty());
    let one = p.extract_keywords("Cat".to_string(), ExtractorStrategy::All);
    assert_eq!(one, vec!["Cat".to_string()]);
}

#[test]
fn replace_without_match_returns_text_unchanged() {
    let mut p = KeywordProcessor::new(false);
    assert!(p.add_keyword_with_clean_name("New York", "NY").is_ok());
    let text = "nothing to see here, just words".to_string();
    assert_eq!(p.replace_keywords(text.clone()), text);
}

#[test]
fn replace_empty_text() {
    let mut p = KeywordProcessor::new(false);
    assert!(p.add_keyword("word").is_ok());
    assert_eq!(p.replace_keywords(String::new()), "");
}

#[test]
fn longest_strategy_takes_maximal_match() {
    let mut p = KeywordProcessor::new(false);
    assert!(p.add_keyword_with_clean_name("New York", "NY").is_ok());
    assert!(p.add_keyword_with_clean_name("New York City", "NYC").is_ok());
    let spans =
        p.extract_keywords_with_span("I love New York City".to_string(), ExtractorStrategy::Longest);
    assert_eq!(spans, vec![("NYC".to_string(), 7, 20)]);
}

#[test]
fn all_strategy_reports_overlapping_matches() {
    let mut p = KeywordProcessor::new(false);
    assert!(p.add_keyword_with_clean_name("New York", "NY").is_ok());
    assert!(p.add_keyword_with_clean_name("New York City", "NYC").is_ok());
    let spans =
        p.extract_keywords_with_span("I love New York City".to_string(), ExtractorStrategy::All);
    assert_eq!(spans.len(), 2);
    assert_eq!(spans[0], ("NY".to_string(), 7, 15));
    assert_eq!(spans[1], ("NYC".to_string(), 7, 20));
    assert_eq!(spans[0].1, spans[1].1);
    assert!(spans[0].2 < spans[1].2);
}

#[test]
fn removal_decrements_len_once() {
    let mut p = KeywordProcessor::new(false);
    assert!(p.add_keyword_with_clean_name("New York", "NY").is_ok());
    assert!(p.add_keyword_with_clean_name("New York City", "NYC").is_ok());
    assert_eq!(p.len(), 2);
    assert!(p.remove_keyword("New York").is_ok());
    assert_eq!(p.len(), 1);
    let found = p.extract_keywords("New York".to_string(), ExtractorStrategy::All);
    assert!(found.is_empty());
    // a second removal of the same phrase is a no-op
    assert!(p.remove_keyword("New York").is_ok());
    assert_eq!(p.len(), 1);
}

#[test]
fn remove_absent_phrase_is_noop() {
    let mut p = KeywordProcessor::new(false);
    assert!(p.add_keyword("hello").is_ok());
    assert!(p.remove_keyword("world").is_ok());
    assert_eq!(p.len(), 1);
}

#[test]
fn invalid_keywords_are_rejected() {
    let mut p = KeywordProcessor::new(false);
    assert_eq!(p.add_keyword(""), Err(InvalidKeywordError));
    assert_eq!(p.add_keyword("   "), Err(InvalidKeywordError));
    assert_eq!(p.add_keyword("..."), Err(InvalidKeywordError));
    assert!(p.add_keyword("a.b").is_ok());
    assert_eq!(p.len(), 1);
}

#[test]
fn whitespace_beyond_spaces_is_filler() {
    let mut p = KeywordProcessor::new(false);
    assert_eq!(p.add_keyword("\t\n"), Err(InvalidKeywordError));
    assert!(!is_valid_keyword("\t\n"));
    assert!(!is_valid_keyword(". . ."));
    assert!(is_valid_keyword("a"));
}

#[test]
fn remove_invalid_keyword_is_rejected() {
    let mut p = KeywordProcessor::new(false);
    assert_eq!(p.remove_keyword(""), Err(InvalidKeywordError));
    assert_eq!(p.remove_keyword(" . "), Err(InvalidKeywordError));
}

#[test]
fn strategy_tokens_parse() {
    assert_eq!(ExtractorStrategy::from_str("all"), Ok(ExtractorStrategy::All));
    assert_eq!(ExtractorStrategy::from_str("longest"), Ok(ExtractorStrategy::Longest));
    assert_eq!(ExtractorStrategy::from_str("bogus"), Err(UnknownStrategyError));
    assert_eq!(ExtractorStrategy::from_str(""), Err(UnknownStrategyError));
    assert_eq!(ExtractorStrategy::default(), ExtractorStrategy::All);
}

#[test]
fn extract_from_empty_trie_and_empty_text() {
    let p = KeywordProcessor::new(false);
    assert!(p.is_empty());
    assert!(p.extract_keywords("some words".to_string(), ExtractorStrategy::All).is_empty());
    let mut q = KeywordProcessor::new(false);
    assert!(q.add_keyword("word").is_ok());
    assert!(q.extract_keywords(String::new(), ExtractorStrategy::Longest).is_empty());
}

#[test]
fn replace_multiple_matches() {
    let mut p = KeywordProcessor::new(false);
    assert!(p.add_keyword_with_clean_name("Big Apple", "New York").is_ok());
    assert!(p.add_keyword_with_clean_name("Bay Area", "San Francisco").is_ok());
    let out = p.replace_keywords("from the Big Apple to the Bay Area!".to_string());
    assert_eq!(out, "from the New York to the San Francisco!");
}

#[test]
fn enumeration_returns_all_pairs() {
    let mut p = KeywordProcessor::new(false);
    assert!(p.add_keyword_with_clean_name("New York", "NY").is_ok());
    assert!(p.add_keyword("Boston").is_ok());
    let mut all = p.get_all_keywords_with_clean_names();
    all.sort();
    assert_eq!(
        all,
        vec![
            ("Boston".to_string(), "Boston".to_string()),
            ("New York".to_string(), "NY".to_string()),
        ],
    );
}

#[test]
fn enumeration_keeps_first_inserted_casing() {
    let mut p = KeywordProcessor::new(false);
    assert!(p.add_keyword("New York").is_ok());
    assert!(p.add_keyword_with_clean_name("NEW HAVEN", "NH").is_ok());
    let mut all = p.get_all_keywords_with_clean_names();
    all.sort();
    // the token "New" was stored by the first insertion and is reused
    assert_eq!(
        all,
        vec![
            ("New HAVEN".to_string(), "NH".to_string()),
            ("New York".to_string(), "New York".to_string()),
        ],
    );
}

#[test]
fn bulk_insert_reports_invalid_words_together() {
    let mut p = KeywordProcessor::new(false);
    let words = vec!["hello".to_string(), "...".to_string(), "world".to_string(), "  ".to_string()];
    let invalid = p.add_keywords_from_iter(&words);
    assert_eq!(invalid, vec!["...".to_string(), "  ".to_string()]);
    assert_eq!(p.len(), 2);
}

#[test]
fn bulk_insert_with_clean_names() {
    let mut p = KeywordProcessor::new(false);
    let pairs = vec![
        ("Big Apple".to_string(), "New York".to_string()),
        ("".to_string(), "nothing".to_string()),
    ];
    let invalid = p.add_keywords_with_clean_name_from_iter(&pairs);
    assert_eq!(invalid, vec!["".to_string()]);
    assert_eq!(p.len(), 1);
    assert_eq!(p.replace_keywords("the Big Apple".to_string()), "the New York");
}

#[test]
fn prefix_keyword_under_each_strategy() {
    let mut p = KeywordProcessor::new(false);
    assert!(p.add_keyword("New").is_ok());
    assert!(p.add_keyword("New York").is_ok());
    let all = p.extract_keywords("in New York".to_string(), ExtractorStrategy::All);
    assert_eq!(all, vec!["New".to_string(), "New York".to_string()]);
    let longest = p.extract_keywords("in New York".to_string(), ExtractorStrategy::Longest);
    assert_eq!(longest, vec!["New York".to_string()]);
}
