use budgetbot::categorizer::Categorizer;
use budgetbot::categorizer::Category;
use budgetbot::categorizer::LexemeList;

fn fake_category_sweets() -> Category {
    Category::new(
        String::from("Sweets"),
        10,
        LexemeList::from_text("cand,sweet,chocolate"),
    )
}

fn fake_category_fruits() -> Category {
    Category::new(
        String::from("Fruits"),
        20,
        LexemeList::from_text("apple,banana,orange"),
    )
}

fn fake_category_others() -> Category {
    Category::new(String::from("Others"), 99999, LexemeList::from_text("other,misc"))
}

fn fake_categorizer() -> Categorizer {
    let mut c = Categorizer::new();
    c.add_category(fake_category_sweets());
    c.add_category(fake_category_fruits());
    c.add_category(fake_category_others());
    c
}

#[test]
fn classify_in_accord_with_priority() {
    let c = fake_categorizer();
    let category = c.classify_msg("10 for banana chocolates");
    assert_eq!(category.unwrap().name, "Sweets"); // because of priority
}

#[test]
fn classify_with_ignore_case() {
    let c = fake_categorizer();
    let category = c.classify_msg("10 for BANANA Chocolates");
    assert_eq!(category.unwrap().name, "Sweets");
}

#[test]
fn classify_default_category() {
    let mut c = Categorizer::new();
    c.add_category(fake_category_sweets());
    c.add_category(fake_category_fruits());
    c.add_category(fake_category_others());
    let category = c.classify_msg("10 for tea");
    assert_eq!(category.unwrap().name, "Others")
}

#[test]
fn category_match_word() {
    let category = fake_category_sweets();
    assert!(
        category.match_word("candy"),
        "candy should be treated as sweets"
    );
    assert!(
        !category.match_word("apple"),
        "apple shouldn't be treated as sweets"
    );
}

#[test]
fn category_match_word_ignore_case() {
    let category = fake_category_sweets();
    assert!(
        category.match_word("CanDy"),
        "candy should be treated as sweets"
    );
}

#[test]
fn classify_is_total_once_loaded() {
    let c = fake_categorizer();
    // no word matches anything, yet some category is always selected
    assert!(c.classify_msg("zzz qqq").is_some());
    assert!(c.classify_msg("").is_some());
}

#[test]
fn duplicate_key_is_dropped() {
    let mut c = Categorizer::new();
    assert!(c.add_category(fake_category_sweets()));
    // same priority and name, different lexemes: a duplicate
    assert!(!c.add_category(Category::new(
        String::from("Sweets"),
        10,
        LexemeList::from_text("tea")
    )));
    // the original lexemes still decide the match
    assert_eq!(c.classify_msg("candy").unwrap().name, "Sweets");
}

#[test]
fn default_category_needs_a_loaded_table() {
    let c = Categorizer::new();
    assert!(c.default_category().is_none());
    let c = fake_categorizer();
    assert_eq!(c.default_category().unwrap().name, "Others");
}

#[test]
fn match_word_trims_before_matching() {
    let category = fake_category_sweets();
    assert!(category.match_word("  CANDY  "));
}

#[test]
fn equal_priority_ties_break_to_greater_name() {
    let mut c = Categorizer::new();
    c.add_category(Category::new(String::from("Alpha"), 10, LexemeList::from_text("tea")));
    c.add_category(Category::new(String::from("Beta"), 10, LexemeList::from_text("tea")));
    assert_eq!(c.classify_msg("tea").unwrap().name, "Beta");
}
