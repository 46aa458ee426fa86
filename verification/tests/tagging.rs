use nylon::tagging::{fallback_relations, heuristic_relations, query_terms, stopword};

#[test]
fn proper_names_come_first() {
    let tags = heuristic_relations("We met Caroline at the Museum yesterday");
    assert_eq!(tags, vec!["caroline".to_string(), "museum".to_string(), "yesterday".to_string()]);
}

#[test]
fn short_words_stopwords_and_repeats_are_skipped() {
    let tags = heuristic_relations("about about coffee coffee tea");
    assert_eq!(tags, vec!["coffee".to_string()]);
    assert!(heuristic_relations("").is_empty());
    assert!(heuristic_relations("a an the of").is_empty());
}

#[test]
fn first_word_is_not_a_proper_name() {
    let tags = heuristic_relations("Coffee mornings");
    assert_eq!(tags, vec!["mornings".to_string(), "coffee".to_string()]);
}

#[test]
fn equal_scores_keep_text_order() {
    let tags = heuristic_relations("alpha, gamma; delta beta");
    assert_eq!(tags, vec!["alpha".to_string(), "gamma".to_string(), "delta".to_string()]);
}

#[test]
fn task_wins_over_heuristics() {
    assert_eq!(fallback_relations(Some("travel"), "Caroline"), vec!["travel".to_string()]);
    assert_eq!(fallback_relations(None, "Caroline visited Paris"), heuristic_relations("Caroline visited Paris"));
    assert!(stopword("would"));
    assert!(stopword("then"));
    assert!(!stopword("coffee"));
}

#[test]
fn query_terms_drop_short_words_and_stopwords() {
    assert_eq!(
        query_terms("when did caroline go to the lgbtq support group?"),
        vec!["caroline".to_string(), "lgbtq".to_string(), "support".to_string(), "group".to_string()]
    );
    assert_eq!(query_terms("tea, tea & cake"), vec!["tea".to_string(), "tea".to_string(), "cake".to_string()]);
}

#[test]
fn query_of_stopwords_keeps_all_words() {
    assert_eq!(
        query_terms("when did they meet?"),
        vec!["meet".to_string()]
    );
    assert_eq!(
        query_terms("what is it"),
        vec!["what".to_string(), "is".to_string(), "it".to_string()]
    );
    assert!(query_terms("").is_empty());
    assert!(query_terms("?!").is_empty());
}

#[test]
fn short_proper_names_are_tags() {
    let tags = heuristic_relations("I met Bob Smith yesterday in Paris");
    assert_eq!(tags, vec!["smith".to_string(), "paris".to_string(), "bob".to_string()]);
    assert_eq!(heuristic_relations("Lunch with Al"), vec!["al".to_string(), "lunch".to_string()]);
}
