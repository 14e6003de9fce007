use librush::KeywordProcessor;
use librush::Similarity;
use librush::levenshtein_distance;
use librush::spans_to_char_spans;

fn similarity_value(s: &Similarity) -> f64 {
    if s.max_len == 0 {
        1.0
    } else {
        1.0 - (s.distance as f64) / (s.max_len as f64)
    }
}

#[test]
fn levenshtein_exact_values() {
    assert_eq!(levenshtein_distance("kitten", "sitting", true), 3);
    assert_eq!(levenshtein_distance("", "abc", true), 3);
    assert_eq!(levenshtein_distance("abc", "", true), 3);
    assert_eq!(levenshtein_distance("abc", "abc", true), 0);
    assert_eq!(levenshtein_distance("flaw", "lawn", true), 2);
}

#[test]
fn levenshtein_folds_case_when_insensitive() {
    assert_eq!(levenshtein_distance("CAT", "cat", false), 0);
    assert_eq!(levenshtein_distance("CAT", "cat", true), 3);
}

#[test]
fn fuzzy_exact_match_has_similarity_one() {
    let mut p = KeywordProcessor::new(false);
    assert!(p.add_keyword("cat").is_ok());
    let found = p.fuzzy_search("cat", 1, 1);
    assert_eq!(found.len(), 1);
    assert_eq!(found[0].0, "cat");
    assert_eq!(found[0].1, Similarity { distance: 0, max_len: 3 });
    assert!(similarity_value(&found[0].1) == 1.0);
}

#[test]
fn fuzzy_disjoint_query_yields_nothing() {
    let mut p = KeywordProcessor::new(false);
    assert!(p.add_keyword("cat").is_ok());
    // threshold 0.99 as the rational 99/100
    let found = p.fuzzy_search("xyz", 99, 100);
    assert!(found.is_empty());
}

#[test]
fn fuzzy_uses_processor_case_policy() {
    let mut p = KeywordProcessor::new(false);
    assert!(p.add_keyword("CAT").is_ok());
    let found = p.fuzzy_search("cat", 1, 1);
    assert_eq!(found.len(), 1);
    assert_eq!(found[0].1.distance, 0);
}

#[test]
fn fuzzy_results_sorted_by_similarity_descending() {
    let mut p = KeywordProcessor::new(true);
    assert!(p.add_keyword("cat").is_ok());
    assert!(p.add_keyword("cart").is_ok());
    assert!(p.add_keyword("carton").is_ok());
    // threshold 0.5 as the rational 1/2
    let found = p.fuzzy_search("cat", 1, 2);
    assert_eq!(found.len(), 3);
    assert_eq!(found[0].0, "cat");
    assert_eq!(found[0].1, Similarity { distance: 0, max_len: 3 });
    assert_eq!(found[1].0, "cart");
    assert_eq!(found[1].1, Similarity { distance: 1, max_len: 4 });
    assert_eq!(found[2].0, "carton");
    assert_eq!(found[2].1, Similarity { distance: 3, max_len: 6 });
    assert!(similarity_value(&found[0].1) >= similarity_value(&found[1].1));
    assert!(similarity_value(&found[1].1) >= similarity_value(&found[2].1));
}

#[test]
fn fuzzy_threshold_boundary_is_inclusive() {
    let mut p = KeywordProcessor::new(true);
    assert!(p.add_keyword("cart").is_ok());
    // similarity of "cart" and "cat" is exactly 3/4
    let at = p.fuzzy_search("cat", 3, 4);
    assert_eq!(at.len(), 1);
    let above = p.fuzzy_search("cat", 76, 100);
    assert!(above.is_empty());
}

#[test]
fn fuzzy_zero_threshold_returns_everything() {
    let mut p = KeywordProcessor::new(true);
    assert!(p.add_keyword("alpha").is_ok());
    assert!(p.add_keyword("beta").is_ok());
    let found = p.fuzzy_search("zzz", 0, 1);
    assert_eq!(found.len(), 2);
}

#[test]
fn char_spans_on_ascii_text_equal_byte_spans() {
    let spans = vec![("NY".to_string(), 7, 15)];
    let out = spans_to_char_spans("I love New York", &spans);
    assert_eq!(out, vec![("NY".to_string(), 7, 15)]);
}

#[test]
fn char_spans_account_for_multibyte_characters() {
    // "café " takes 6 bytes but 5 characters
    let spans = vec![("x".to_string(), 6, 7)];
    let out = spans_to_char_spans("caf\u{e9} x", &spans);
    assert_eq!(out, vec![("x".to_string(), 5, 6)]);
}

#[test]
fn char_span_end_at_text_end_uses_char_count() {
    let mut p = KeywordProcessor::new(false);
    assert!(p.add_keyword_with_clean_name("York", "Y").is_ok());
    let text = "caf\u{e9} York".to_string();
    let spans = p.extract_keywords_with_span(text.clone(), librush::ExtractorStrategy::All);
    assert_eq!(spans, vec![("Y".to_string(), 6, 10)]);
    let out = spans_to_char_spans(&text, &spans);
    assert_eq!(out, vec![("Y".to_string(), 5, 9)]);
}
