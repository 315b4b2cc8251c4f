use budgetbot::events::Amount;
use budgetbot::tokenizer::Token;
use budgetbot::tokenizer::tokenize;

fn amount(text: &str) -> Amount {
    Amount::from_str(text).unwrap()
}

#[test]
fn single_word() {
    assert_eq!(tokenize("text"), vec![Token::Word(String::from("text"))])
}

#[test]
fn multiple_words() {
    assert_eq!(
        tokenize("Some Words"),
        vec![
            Token::Word(String::from("Some")),
            Token::Word(String::from("Words"))
        ]
    )
}

#[test]
fn single_amount() {
    assert_eq!(tokenize("-42.35"), vec![Token::Amount(amount("-42.35"))])
}

#[test]
fn words_with_some_numbers() {
    assert_eq!(
        tokenize("7.45 an apple and 2 bananas"),
        vec![
            Token::Amount(amount("7.45")),
            Token::Word(String::from("an")),
            Token::Word(String::from("apple")),
            Token::Word(String::from("and")),
            Token::Amount(amount("2")),
            Token::Word(String::from("bananas")),
        ]
    )
}

#[test]
fn trailing_signs() {
    assert_eq!(
        tokenize("one, two"),
        vec![
            Token::Word(String::from("one")),
            Token::TrailingSigns(String::from(",")),
            Token::Word(String::from("two")),
        ]
    );
    assert_eq!(
        tokenize("banana 3,50."),
        vec![
            Token::Word(String::from("banana")),
            Token::Amount(amount("3.50")),
            Token::TrailingSigns(String::from(".")),
        ]
    );
}

#[test]
fn empty_input_has_no_tokens() {
    assert_eq!(tokenize(""), Vec::<Token>::new());
    assert_eq!(tokenize("   "), Vec::<Token>::new());
}

#[test]
fn pure_punctuation_keeps_an_empty_word() {
    assert_eq!(
        tokenize(","),
        vec![
            Token::Word(String::from("")),
            Token::TrailingSigns(String::from(",")),
        ]
    );
}

#[test]
fn amount_with_stripped_trailing_dot() {
    assert_eq!(
        tokenize("42."),
        vec![
            Token::Amount(amount("42")),
            Token::TrailingSigns(String::from(".")),
        ]
    );
}

#[test]
fn overlong_fraction_stays_a_word() {
    assert_eq!(
        tokenize("42.135"),
        vec![Token::Word(String::from("42.135"))]
    );
}

#[test]
fn retokenizing_reassembled_text_is_stable() {
    // words and amounts single-space separated, punctuation attached
    let first = tokenize("banana  3,50. hello,  world");
    let reassembled = "banana 3.50. hello, world";
    assert_eq!(tokenize(reassembled), first);
}

#[test]
fn token_word_test_ignores_ascii_case() {
    let t = Token::Word(String::from("YesterDay"));
    assert!(t.is_word("yesterday"));
    assert!(!t.is_word("today"));
    assert!(t.any_of_words(&["foo", "yesterday"]));
    assert!(!t.any_of_words(&["foo", "bar"]));
}
