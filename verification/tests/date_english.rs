use budgetbot::date_parser::Weekday;
use budgetbot::date_parser::english::EnglishDateShiftParser as Parser;
use budgetbot::tokenizer::tokenize;

use chrono::Datelike;

#[test]
fn english_no_shift_by_default() {
    let tokens = tokenize("banana 4.5");
    assert_eq!(Parser::parse_date_shift(&tokens), None)
}

#[test]
fn english_yesterday() {
    let tokens = tokenize("banana 4.5 yesterday");
    assert_eq!(Parser::parse_date_shift(&tokens), Some(1))
}

#[test]
fn english_some_days_ago() {
    let tokens = tokenize("banana 4.5 2 days ago");
    assert_eq!(Parser::parse_date_shift(&tokens), Some(2));
}

#[test]
fn english_some_days_ago_with_int_amount() {
    let tokens = tokenize("banana 4, 5 days ago");
    assert_eq!(Parser::parse_date_shift(&tokens), Some(5));
}

#[test]
fn english_a_week_ago() {
    let tokens = tokenize("banana 4.5 a week ago");
    assert_eq!(Parser::parse_date_shift(&tokens), Some(7));
}

#[test]
fn english_some_weeks_ago() {
    let tokens = tokenize("banana 4.5 2 weeks ago");
    assert_eq!(Parser::parse_date_shift(&tokens), Some(14));
}

#[test]
fn english_last_monday() {
    let tokens = tokenize("banana 4.5 last Monday");
    let x = chrono::Local::now().date_naive().weekday().num_days_from_monday();
    let expected = if x == 0 { 7 } else { x as i64 };
    assert_eq!(Parser::parse_date_shift(&tokens), Some(expected));
}

#[test]
fn english_on_friday() {
    let tokens = tokenize("banana 4.5 on friday");
    let x = (7 + chrono::Local::now().date_naive().weekday().num_days_from_monday()
        - chrono::Weekday::Fri.num_days_from_monday())
        % 7;
    let expected = if x == 0 { 7 } else { x as i64 };
    assert_eq!(Parser::parse_date_shift(&tokens), Some(expected));
}

#[test]
fn weekday_names_parse_as_the_date_library_does() {
    for name in ["mon", "Monday", "TUE", "tuesday", "saturday", "Sun"] {
        let ours = Weekday::from_str(name).map(|w| w.num_days_from_monday());
        let theirs: Result<chrono::Weekday, _> = name.parse();
        let theirs = theirs.map(|w| w.num_days_from_monday()).map_err(|_| ());
        assert_eq!(ours, theirs, "weekday {name}");
    }
    for bad in ["mond", "thurs", "m", "montag", ""] {
        assert!(Weekday::from_str(bad).is_err(), "weekday {bad}");
        assert!(bad.parse::<chrono::Weekday>().is_err(), "weekday {bad}");
    }
}

#[test]
fn days_since_wraps_around_the_week() {
    assert_eq!(Weekday::Fri.days_since(Weekday::Mon), 4);
    assert_eq!(Weekday::Mon.days_since(Weekday::Fri), 3);
    assert_eq!(Weekday::Wed.days_since(Weekday::Wed), 0);
}
