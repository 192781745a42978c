use find_me_pls::engine::IndexEngine;
use find_me_pls::error::SearchError;
use find_me_pls::levenshtein::LimitOption;
use find_me_pls::score::FieldBoosts;
use find_me_pls::search::{merge_records, ranked_ids, AutocorrectPolicy};
use find_me_pls::types::ItemSearch;

fn boosts() -> FieldBoosts {
    FieldBoosts { title: 2, description: 1 }
}

fn item(id: i32, name: &str, description: Option<&str>) -> ItemSearch {
    ItemSearch { id, name: name.to_string(), description: description.map(|s| s.to_string()) }
}

#[test]
fn insert_then_exact_title_token_scores_positive() {
    let mut engine = IndexEngine::new(false);
    engine.index(1, &item(1, "apple pie", Some("a sweet dish")));
    let results = engine.query("apple", boosts());
    assert_eq!(results.len(), 1);
    assert_eq!(results[0].0, 1);
    assert!(results[0].1 > 0);
}

#[test]
fn removed_document_is_unreachable_by_exact_query() {
    let mut engine = IndexEngine::new(false);
    engine.index(1, &item(1, "apple", None));
    engine.index(2, &item(2, "banana", None));
    engine.remove_document(1);
    let results = engine.query("apple", boosts());
    assert!(results.iter().all(|(id, _)| *id != 1));
    assert!(results.is_empty());
    let still = engine.query("banana", boosts());
    assert_eq!(still.len(), 1);
    assert_eq!(still[0].0, 2);
}

#[test]
fn removed_document_is_unreachable_by_expanded_query() {
    let mut engine = IndexEngine::new(false);
    engine.index(1, &item(1, "apple", None));
    engine.remove_document(1);
    // The stale vocabulary still expands "appl" to "apple", but nothing
    // scores.
    let results = engine.query_with_autocorrect("appl", boosts(), &LimitOption::WordLengthBased);
    assert!(results.is_empty());
}

#[test]
fn removing_never_inserted_id_is_a_noop() {
    let mut engine = IndexEngine::new(false);
    engine.index(1, &item(1, "apple", None));
    engine.remove_document(99);
    let results = engine.query("apple", boosts());
    assert_eq!(results.len(), 1);
    assert_eq!(results[0].0, 1);
}

#[test]
fn removing_from_empty_index_is_a_noop() {
    let mut engine = IndexEngine::new(true);
    engine.remove_document(7);
    assert!(engine.query("anything", boosts()).is_empty());
}

#[test]
fn autocorrect_expands_helo_to_hello() {
    let mut engine = IndexEngine::new(false);
    engine.index(1, &item(1, "hello", None));
    let expanded = engine.find_best_matching_autocorrect("helo", &LimitOption::WordLengthBased);
    let expanded: Vec<&str> = expanded.iter().map(|s| s.as_str()).collect();
    assert_eq!(expanded, vec!["hello", "helo"]);
    // The original query "helo" then finds the document that only
    // contains "hello".
    let results =
        engine.query_with_autocorrect("helo", boosts(), &LimitOption::WordLengthBased);
    assert_eq!(results.len(), 1);
    assert_eq!(results[0].0, 1);
    assert!(results[0].1 > 0);
}

#[test]
fn zero_budget_expands_to_the_token_alone() {
    let mut engine = IndexEngine::new(false);
    engine.index(1, &item(1, "hello", None));
    let expanded = engine.find_best_matching_autocorrect("helo", &LimitOption::Limit(0));
    let expanded: Vec<&str> = expanded.iter().map(|s| s.as_str()).collect();
    assert_eq!(expanded, vec!["helo"]);
}

#[test]
fn unlimited_policy_takes_the_whole_vocabulary() {
    let mut engine = IndexEngine::new(false);
    engine.index(1, &item(1, "alpha beta", None));
    let expanded = engine.find_best_matching_autocorrect("x", &LimitOption::Unlimited);
    let expanded: Vec<&str> = expanded.iter().map(|s| s.as_str()).collect();
    assert_eq!(expanded, vec!["alpha", "beta", "x"]);
}

#[test]
fn higher_scored_document_comes_strictly_first() {
    let mut engine = IndexEngine::new(false);
    // Same token once in a long title and once in a one-token title: the
    // shorter field scores higher under length normalization.
    engine.index(1, &item(1, "apple banana cherry date elderberry fig grape", None));
    engine.index(2, &item(2, "apple", None));
    let ranked = engine
        .search_ranked("apple", boosts(), &AutocorrectPolicy::Off)
        .expect("both documents match");
    assert_eq!(ranked.len(), 2);
    assert!(ranked[0].1 > ranked[1].1);
    assert_eq!(ranked[0].0, 2);
    assert_eq!(ranked[1].0, 1);
}

#[test]
fn equal_scores_break_ties_by_ascending_key() {
    let mut engine = IndexEngine::new(false);
    engine.index(5, &item(5, "apple", None));
    engine.index(3, &item(3, "apple", None));
    let ranked = engine
        .search_ranked("apple", boosts(), &AutocorrectPolicy::Off)
        .expect("both documents match");
    assert_eq!(ranked.len(), 2);
    assert_eq!(ranked[0].1, ranked[1].1);
    assert_eq!(ranked[0].0, 3);
    assert_eq!(ranked[1].0, 5);
}

#[test]
fn empty_query_is_no_matches() {
    let mut engine = IndexEngine::new(false);
    engine.index(1, &item(1, "apple", None));
    let outcome = engine.search_ranked("", boosts(), &AutocorrectPolicy::Off);
    assert_eq!(outcome, Err(SearchError::NoMatches));
}

#[test]
fn all_delimiter_query_is_no_matches() {
    let mut engine = IndexEngine::new(false);
    engine.index(1, &item(1, "apple", None));
    let outcome = engine.search_ranked("   ", boosts(), &AutocorrectPolicy::Off);
    assert_eq!(outcome, Err(SearchError::NoMatches));
    let expanded = engine.search_ranked(
        "",
        boosts(),
        &AutocorrectPolicy::On(LimitOption::WordLengthBased),
    );
    assert_eq!(expanded, Err(SearchError::NoMatches));
}

#[test]
fn description_tokens_are_searchable() {
    let mut engine = IndexEngine::new(false);
    engine.index(1, &item(1, "gadget", Some("turbo encabulator")));
    let results = engine.query("encabulator", boosts());
    assert_eq!(results.len(), 1);
    assert_eq!(results[0].0, 1);
    assert!(results[0].1 > 0);
}

#[test]
fn empty_tokens_score_nothing() {
    let mut engine = IndexEngine::new(false);
    // A doubled delimiter yields an empty token in the document.
    engine.index(1, &item(1, "a  b", None));
    let results = engine.query("", boosts());
    assert!(results.is_empty());
}

#[test]
fn rarer_token_weighs_more_than_common_one() {
    let mut engine = IndexEngine::new(false);
    engine.index(1, &item(1, "common rare", None));
    engine.index(2, &item(2, "common", None));
    engine.index(3, &item(3, "common", None));
    let rare = engine.query("rare", boosts());
    let common = engine.query("common", boosts());
    let rare_score = rare.iter().find(|(id, _)| *id == 1).unwrap().1;
    let common_score = common.iter().find(|(id, _)| *id == 1).unwrap().1;
    assert!(rare_score > common_score);
}

#[test]
fn pruning_drops_vocabulary_of_removed_documents() {
    let mut engine = IndexEngine::new(true);
    engine.index(1, &item(1, "hello", None));
    engine.remove_document(1);
    let expanded = engine.find_best_matching_autocorrect("helo", &LimitOption::WordLengthBased);
    let expanded: Vec<&str> = expanded.iter().map(|s| s.as_str()).collect();
    assert_eq!(expanded, vec!["helo"]);
}

#[test]
fn without_pruning_vocabulary_only_grows() {
    let mut engine = IndexEngine::new(false);
    engine.index(1, &item(1, "hello", None));
    engine.remove_document(1);
    let expanded = engine.find_best_matching_autocorrect("helo", &LimitOption::WordLengthBased);
    let expanded: Vec<&str> = expanded.iter().map(|s| s.as_str()).collect();
    assert_eq!(expanded, vec!["hello", "helo"]);
}

#[test]
fn pruning_keeps_tokens_still_present_elsewhere() {
    let mut engine = IndexEngine::new(true);
    engine.index(1, &item(1, "shared", None));
    engine.index(2, &item(2, "shared", None));
    engine.remove_document(1);
    let expanded = engine.find_best_matching_autocorrect("shared", &LimitOption::Limit(0));
    let expanded: Vec<&str> = expanded.iter().map(|s| s.as_str()).collect();
    assert_eq!(expanded, vec!["shared", "shared"]);
}

#[test]
fn merge_keeps_ranked_order_and_drops_unknown_ids() {
    let ids: Vec<i64> = vec![3, 1, 2];
    let records = vec![item(1, "one", None), item(2, "two", None)];
    let merged = merge_records(&ids, &records);
    let got: Vec<i32> = merged.iter().map(|r| r.id).collect();
    assert_eq!(got, vec![1, 2]);
    assert_eq!(merged[0].name, "one");
    assert_eq!(merged[1].name, "two");
}

#[test]
fn merge_takes_the_first_record_per_id() {
    let ids: Vec<i64> = vec![4];
    let records = vec![item(4, "first", None), item(4, "second", None)];
    let merged = merge_records(&ids, &records);
    assert_eq!(merged.len(), 1);
    assert_eq!(merged[0].name, "first");
}

#[test]
fn ranked_ids_projects_keys_in_order() {
    let ranked: Vec<(i64, u64)> = vec![(9, 30), (4, 20), (7, 10)];
    assert_eq!(ranked_ids(&ranked), vec![9, 4, 7]);
}

#[test]
fn full_search_flow_returns_records_best_first() {
    let mut engine = IndexEngine::new(false);
    engine.index(1, &item(1, "apple banana cherry date elderberry fig grape", None));
    engine.index(2, &item(2, "apple", None));
    let ranked = engine
        .search_ranked("apple", boosts(), &AutocorrectPolicy::Off)
        .expect("documents match");
    let ids = ranked_ids(&ranked);
    // The store happens to return records in key order.
    let records = vec![item(1, "long title", None), item(2, "short title", None)];
    let merged = merge_records(&ids, &records);
    let got: Vec<i32> = merged.iter().map(|r| r.id).collect();
    assert_eq!(got, vec![2, 1]);
}

#[test]
fn title_boost_outweighs_description_match() {
    let mut engine = IndexEngine::new(false);
    engine.index(1, &item(1, "target", None));
    engine.index(2, &item(2, "other", Some("target")));
    let ranked = engine
        .search_ranked("target", boosts(), &AutocorrectPolicy::Off)
        .expect("both documents match");
    // Same unboosted weight in either field, but the title boost is
    // higher, so the title match ranks strictly first.
    assert_eq!(ranked.len(), 2);
    assert_eq!(ranked[0].0, 1);
    assert!(ranked[0].1 > ranked[1].1);
}

#[test]
fn repeated_token_scores_higher_than_single() {
    let mut engine = IndexEngine::new(false);
    engine.index(1, &item(1, "apple apple", None));
    engine.index(2, &item(2, "apple banana", None));
    let results = engine.query("apple", boosts());
    let twice = results.iter().find(|(id, _)| *id == 1).unwrap().1;
    let once = results.iter().find(|(id, _)| *id == 2).unwrap().1;
    assert!(twice > once);
}

#[test]
fn search_error_renders_its_message() {
    assert_eq!(SearchError::NoMatches.message(), "no items for search query");
}
