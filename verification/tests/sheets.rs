use budgetbot::date_parser::assert_text;
use budgetbot::sheets::last_sheet_ids;
use budgetbot::tokenizer::tokenize;

#[test]
fn last_4_sheet_ids() {
    assert_eq!(
        last_sheet_ids(202102, 4),
        vec![202102, 202101, 202012, 202011]
    )
}

#[test]
fn one_sheet_id_is_just_the_start() {
    assert_eq!(last_sheet_ids(202106, 1), vec![202106]);
}

#[test]
fn sheet_ids_cross_a_year_boundary() {
    assert_eq!(last_sheet_ids(202101, 2), vec![202101, 202012]);
}

#[test]
fn assert_text_compares_lowercased_tokens() {
    let tokens = tokenize("banana 3,50.");
    assert!(assert_text(&tokens, "Banana 3,50."));
    assert!(!assert_text(&tokens, "Banana 3,50"));
    assert!(!assert_text(&tokens, "apple 3,50."));
}
