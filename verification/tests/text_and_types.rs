use find_me_pls::error::NameError;
use find_me_pls::levenshtein::{levenshtein_distance_rule, LimitOption};
use find_me_pls::tokenize::{join_spaces, tokenizer};
use find_me_pls::types::{
    description_extract, title_extract, Category, Collection, DbCategory, DbCollection,
    ItemSearch,
};
use find_me_pls::util::sanitize_name;

#[test]
fn tokenizer_splits_on_single_spaces() {
    let tokens = tokenizer("quick brown fox");
    let tokens: Vec<&str> = tokens.iter().map(|s| s.as_str()).collect();
    assert_eq!(tokens, vec!["quick", "brown", "fox"]);
}

#[test]
fn tokenizer_keeps_empty_tokens_for_repeated_delimiters() {
    let tokens = tokenizer("a  b ");
    let tokens: Vec<&str> = tokens.iter().map(|s| s.as_str()).collect();
    assert_eq!(tokens, vec!["a", "", "b", ""]);
}

#[test]
fn tokenizer_of_empty_text_is_one_empty_token() {
    let tokens = tokenizer("");
    let tokens: Vec<&str> = tokens.iter().map(|s| s.as_str()).collect();
    assert_eq!(tokens, vec![""]);
}

#[test]
fn join_spaces_inverts_tokenizer() {
    let text = "quick  brown fox";
    assert_eq!(join_spaces(&tokenizer(text)), text);
}

#[test]
fn budget_staircase_holds_exactly() {
    assert_eq!(levenshtein_distance_rule(1), 0);
    assert_eq!(levenshtein_distance_rule(2), 0);
    assert_eq!(levenshtein_distance_rule(3), 0);
    assert_eq!(levenshtein_distance_rule(4), 1);
    assert_eq!(levenshtein_distance_rule(5), 1);
    assert_eq!(levenshtein_distance_rule(6), 2);
    assert_eq!(levenshtein_distance_rule(7), 2);
    assert_eq!(levenshtein_distance_rule(8), 3);
    assert_eq!(levenshtein_distance_rule(9), 3);
    assert_eq!(levenshtein_distance_rule(10), 3);
    assert_eq!(levenshtein_distance_rule(11), 4);
    assert_eq!(levenshtein_distance_rule(100), 4);
}

#[test]
fn into_option_follows_the_policy() {
    assert_eq!(LimitOption::Unlimited.into_option("word"), None);
    assert_eq!(LimitOption::WordLengthBased.into_option("helo"), Some(1));
    assert_eq!(LimitOption::WordLengthBased.into_option("ab"), Some(0));
    assert_eq!(LimitOption::Limit(7).into_option("anything"), Some(7));
}

#[test]
fn sanitize_name_trims_surrounding_space() {
    assert_eq!(sanitize_name("  apple pie \t"), Ok("apple pie"));
    assert_eq!(sanitize_name("plain"), Ok("plain"));
}

#[test]
fn sanitize_name_rejects_blank_names() {
    assert_eq!(sanitize_name(""), Err(NameError::Empty));
    assert_eq!(sanitize_name("   "), Err(NameError::Empty));
    assert_eq!(sanitize_name("\t\n"), Err(NameError::Empty));
}

#[test]
fn name_error_renders_its_message() {
    assert_eq!(NameError::Empty.message(), "name value is empty");
}

#[test]
fn title_extract_is_the_name_alone() {
    let d = ItemSearch { id: 1, name: "gadget".to_string(), description: None };
    assert_eq!(title_extract(&d), vec!["gadget"]);
}

#[test]
fn description_extract_follows_presence() {
    let with = ItemSearch {
        id: 1,
        name: "gadget".to_string(),
        description: Some("useful thing".to_string()),
    };
    let without = ItemSearch { id: 2, name: "widget".to_string(), description: None };
    assert_eq!(description_extract(&with), vec!["useful thing"]);
    assert!(description_extract(&without).is_empty());
}

#[test]
fn db_collection_round_trips_without_thumbnail() {
    let c = Collection {
        id: Some(4),
        name: "tools".to_string(),
        thumbnail: Some("ZGF0YQ==".to_string()),
    };
    let db: DbCollection = c.into();
    assert_eq!(db.id, Some(4));
    assert_eq!(db.name, "tools");
    let back: Collection = db.into();
    assert_eq!(back.id, Some(4));
    assert_eq!(back.name, "tools");
    assert_eq!(back.thumbnail, None);
}

#[test]
fn db_category_round_trips_without_thumbnail() {
    let c = Category {
        id: Some(2),
        name: "kitchen".to_string(),
        parent_category: Some(1),
        thumbnail: None,
    };
    let db: DbCategory = c.into();
    assert_eq!(db.id, Some(2));
    assert_eq!(db.name, "kitchen");
    assert_eq!(db.parent_category, Some(1));
    let back: Category = db.into();
    assert_eq!(back.parent_category, Some(1));
    assert_eq!(back.thumbnail, None);
}
