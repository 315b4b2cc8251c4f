use budgetbot::categorizer::Category;
use budgetbot::categorizer::CategoryProvider;
use budgetbot::categorizer::LexemeList;
use budgetbot::events::Amount;
use budgetbot::events::HandlerEvent;
use budgetbot::handler::Input;
use budgetbot::handler::Locale;
use budgetbot::handler::RawMessageParser as MH;
use budgetbot::tokenizer::tokenize;
use chrono::Datelike;

struct FakeProvider;

impl CategoryProvider for FakeProvider {
    fn categories(&self) -> Vec<Category> {
        vec![
            Category::new(
                String::from("Sweets"),
                10,
                LexemeList::from_text("cand,sweet,chocolate"),
            ),
            Category::new(
                String::from("Fruits"),
                20,
                LexemeList::from_text("apple,banana,orange"),
            ),
            Category::new(String::from("Others"), 99999, LexemeList::from_text("other,misc")),
        ]
    }
}

struct EmptyProvider;

impl CategoryProvider for EmptyProvider {
    fn categories(&self) -> Vec<Category> {
        Vec::new()
    }
}

#[test]
fn parse_amount_as_first_word() {
    assert_eq!(
        MH::parse_amount("10.25 for banana pie"),
        Some(Amount::from_str("10.25").unwrap())
    );
}

#[test]
fn parse_amount_as_last_word() {
    assert_eq!(
        MH::parse_amount("Chocolate pie for 9,75."),
        Some(Amount::from_str("9.75").unwrap())
    );
}

#[test]
fn parse_amount_take_first_matched_number() {
    assert_eq!(
        MH::parse_amount("5 for 2 kg of candies"),
        Some(Amount::from_str("5").unwrap())
    );
}

#[test]
fn extract_description_with_signs_after_amount_in_the_beginning() {
    assert_eq!(
        MH::extract_description(&tokenize("9,75. Chocolate pie")),
        "Chocolate pie".to_string()
    )
}

#[test]
fn extract_description_with_signs_after_amount_in_the_end() {
    assert_eq!(
        MH::extract_description(&tokenize("Chocolate pie, 9,75.")),
        "Chocolate pie".to_string()
    )
}

#[test]
fn parse_amount_absent() {
    assert_eq!(MH::parse_amount("no numbers here"), None);
}

#[test]
fn handle_message_builds_an_add_record() {
    let mut parser = MH::new(&FakeProvider);
    assert!(parser.is_loaded());
    let output = parser
        .handle_message(Input {
            id: 7,
            user: String::from("alice"),
            text: String::from("10 for banana chocolates"),
            is_new: true,
        })
        .unwrap();
    assert_eq!(output.events.len(), 1);
    match &output.events[0] {
        HandlerEvent::AddRecord(rec) => {
            assert_eq!(rec.id, 7);
            assert_eq!(rec.user, "alice");
            assert_eq!(rec.category, "Sweets");
            assert_eq!(rec.amount.text(), "10");
            assert_eq!(rec.desc, "for banana chocolates");
        },
        HandlerEvent::UpdateRecord(_) => panic!("a new message must add a record"),
    }
    assert!(output.text.starts_with("Added new record #7\nDate: "));
    assert!(output.text.ends_with("\nCategory: Sweets\nAmount: 10"));
}

#[test]
fn handle_message_builds_an_update_record() {
    let mut parser = MH::new(&FakeProvider);
    let output = parser
        .handle_message(Input {
            id: 3,
            user: String::from("bob"),
            text: String::from("Chocolate pie for 9,75."),
            is_new: false,
        })
        .unwrap();
    match &output.events[0] {
        HandlerEvent::UpdateRecord(rec) => {
            assert_eq!(rec.amount.text(), "9.75");
            assert_eq!(rec.desc, "Chocolate pie for");
        },
        HandlerEvent::AddRecord(_) => panic!("an edited message must update a record"),
    }
    assert!(output.text.starts_with("Updated existed record #3\nDate: "));
}

#[test]
fn handle_message_without_amount_yields_nothing() {
    let mut parser = MH::new(&FakeProvider);
    let output = parser.handle_message(Input {
        id: 1,
        user: String::from("alice"),
        text: String::from("just words"),
        is_new: true,
    });
    assert!(output.is_none());
}

#[test]
fn empty_provider_leaves_the_parser_unloaded() {
    let parser = MH::new(&EmptyProvider);
    assert!(!parser.is_loaded());
}

#[test]
fn handle_message_resolves_yesterday() {
    let mut parser = MH::new_with_locale(&FakeProvider, Locale::Russian);
    let output = parser
        .handle_message(Input {
            id: 1,
            user: String::from("alice"),
            text: String::from("бананы 45,50 вчера"),
            is_new: true,
        })
        .unwrap();
    let expected = chrono::Local::now().date_naive() - chrono::TimeDelta::days(1);
    match &output.events[0] {
        HandlerEvent::AddRecord(rec) => {
            assert_eq!(rec.date.year, expected.year());
            assert_eq!(rec.date.month, expected.month());
            assert_eq!(rec.date.day, expected.day());
        },
        HandlerEvent::UpdateRecord(_) => panic!("a new message must add a record"),
    }
}

#[test]
fn handle_message_defaults_to_today() {
    let mut parser = MH::new(&FakeProvider);
    let output = parser
        .handle_message(Input {
            id: 1,
            user: String::from("alice"),
            text: String::from("10 for tea"),
            is_new: true,
        })
        .unwrap();
    let today = chrono::Local::now().date_naive();
    match &output.events[0] {
        HandlerEvent::AddRecord(rec) => {
            assert_eq!(rec.category, "Others");
            assert_eq!(rec.date.year, today.year());
            assert_eq!(rec.date.month, today.month());
            assert_eq!(rec.date.day, today.day());
        },
        HandlerEvent::UpdateRecord(_) => panic!("a new message must add a record"),
    }
}
