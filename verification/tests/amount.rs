use budgetbot::events::Amount;
use budgetbot::events::Date;

#[test]
fn amount_integer() {
    assert_eq!(Amount::from_str("42").unwrap().text(), "42")
}

#[test]
fn amount_decimal_0_digits_fail() {
    assert!(Amount::from_str("42.").is_err(), "No digits followed dot");
    assert!(Amount::from_str("42,").is_err(), "No digits followed comma");
}

#[test]
fn amount_decimal_1_digit() {
    assert_eq!(Amount::from_str("42.1").unwrap().text(), "42.1")
}

#[test]
fn amount_decimal_2_digits() {
    assert_eq!(Amount::from_str("42.13").unwrap().text(), "42.13")
}

#[test]
fn amount_decimal_3_digits_fail() {
    assert!(
        Amount::from_str("42.135").is_err(),
        "More than 2 digits followed separator"
    );
}

#[test]
fn amount_decimal_with_comma_replaced() {
    assert_eq!(Amount::from_str("42,13").unwrap().text(), "42.13")
}

#[test]
fn amount_negative_is_allowed() {
    assert_eq!(Amount::from_str("-42").unwrap().text(), "-42")
}

#[test]
fn amount_rejects_empty_and_bare_sign() {
    assert!(Amount::from_str("").is_err());
    assert!(Amount::from_str("-").is_err());
    assert!(Amount::from_str("abc").is_err());
    assert!(Amount::from_str("1a").is_err());
}

#[test]
fn amount_as_integer_value() {
    assert_eq!(Amount::from_str("42").unwrap().as_i32(), Ok(42));
    assert_eq!(Amount::from_str("-42").unwrap().as_i32(), Ok(-42));
    assert_eq!(Amount::from_str("4.5").unwrap().as_i32(), Err(()));
    assert_eq!(Amount::from_str("99999999999").unwrap().as_i32(), Err(()));
    assert_eq!(Amount::from_str("2147483647").unwrap().as_i32(), Ok(i32::MAX));
    assert_eq!(Amount::from_str("-2147483648").unwrap().as_i32(), Ok(i32::MIN));
    assert_eq!(Amount::from_str("2147483648").unwrap().as_i32(), Err(()));
}

#[test]
fn date_renders_zero_padded() {
    let d = Date { year: 2021, month: 2, day: 3 };
    assert_eq!(d.to_text(), String::from("2021-02-03"));
    let d = Date { year: 987, month: 12, day: 31 };
    assert_eq!(d.to_text(), String::from("0987-12-31"));
}

#[test]
fn date_sheet_id_is_year_and_month() {
    let d = Date { year: 2021, month: 2, day: 3 };
    assert_eq!(d.sheet_id(), 202102);
}
