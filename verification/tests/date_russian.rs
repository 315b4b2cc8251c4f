use budgetbot::date_parser::russian::RussianDateShiftParser as Parser;
use budgetbot::date_parser::russian::WeekdayRus;
use budgetbot::tokenizer::tokenize;

use chrono::Datelike;

fn days_back_to(target: chrono::Weekday) -> i64 {
    let x = (7 + chrono::Local::now().date_naive().weekday().num_days_from_monday()
        - target.num_days_from_monday())
        % 7;
    if x == 0 {
        7
    } else {
        x as i64
    }
}

#[test]
fn russian_no_shift_by_default() {
    let tokens = tokenize("бананы 50");
    assert_eq!(Parser::parse_date_shift(&tokens), None)
}

#[test]
fn russian_yesterday() {
    let tokens = tokenize("бананы 45,50 вчера");
    assert_eq!(Parser::parse_date_shift(&tokens), Some(1))
}

#[test]
fn the_day_before_yesterday() {
    let tokens = tokenize("бананы 45,50 позавчера");
    assert_eq!(Parser::parse_date_shift(&tokens), Some(2))
}

#[test]
fn a_day_ago() {
    let tokens = tokenize("бананы 45,50 день назад");
    assert_eq!(Parser::parse_date_shift(&tokens), Some(1));
}

#[test]
fn russian_some_days_ago() {
    let tokens = tokenize("бананы 45,50 2 дня назад");
    assert_eq!(Parser::parse_date_shift(&tokens), Some(2));
}

#[test]
fn russian_some_weeks_ago() {
    let tokens = tokenize("бананы 45,50 2 недели назад");
    assert_eq!(Parser::parse_date_shift(&tokens), Some(14));
}

#[test]
fn russian_a_week_ago() {
    let tokens = tokenize("бананы 45,50 неделю назад");
    assert_eq!(Parser::parse_date_shift(&tokens), Some(7));
}

#[test]
fn russian_some_days_ago_with_int_amount() {
    let tokens = tokenize("бананы 45, 5 дней назад");
    assert_eq!(Parser::parse_date_shift(&tokens), Some(5));
}

#[test]
fn russian_last_monday() {
    let tokens = tokenize("бананы 45,50 прошлый понедельник");
    let x = chrono::Local::now().date_naive().weekday().num_days_from_monday();
    let expected = if x == 0 { 7 } else { x as i64 };
    assert_eq!(Parser::parse_date_shift(&tokens), Some(expected));
}

#[test]
fn on_last_friday() {
    let tokens = tokenize("30 бананы в прошлую пятницу");
    assert_eq!(
        Parser::parse_date_shift(&tokens),
        Some(days_back_to(chrono::Weekday::Fri))
    );
}

#[test]
fn on_thursday() {
    let tokens = tokenize("100 бананы в четверг");
    assert_eq!(
        Parser::parse_date_shift(&tokens),
        Some(days_back_to(chrono::Weekday::Thu))
    );
}

#[test]
fn russian_weekday_words_ignore_case() {
    assert_eq!(
        WeekdayRus::from_str("Пятницу").unwrap().weekday().num_days_from_monday(),
        4
    );
    assert_eq!(
        WeekdayRus::from_str("вс").unwrap().weekday().num_days_from_monday(),
        6
    );
    assert!(WeekdayRus::from_str("пятницам").is_err());
}
