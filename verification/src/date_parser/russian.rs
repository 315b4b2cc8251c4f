//! The Russian relative-date expressions: "вчера", "позавчера",
//! "прошлый понедельник", "в пятницу", "2 дня назад", "2 недели назад",
//! "неделю назад", "день назад".

use vstd::prelude::*;

use crate::date_parser::Weekday;
use crate::date_parser::day_index;
use crate::date_parser::shift_eq;
use crate::date_parser::today_weekday;
use crate::date_parser::weekday_shift;
use crate::events::amount_int_form;
use crate::events::amount_int_val;
use crate::text::ascii_ieq;
use crate::text::lower_of;
use crate::text::lower_str;
use crate::text::str_eq;
use crate::tokenizer::MessageTokens;
use crate::tokenizer::Token;
use crate::tokenizer::TokenV;
use crate::tokenizer::tokv_is_word;

verus! {

/// The weekday a lowercased Russian word names: the two-letter
/// abbreviation, the noun, or its accusative form.
pub open spec fn parse_weekday_ru(low: Seq<char>) -> Option<int> {
    if low == "пн"@ || low == "понедельник"@ {
        Option::Some(0)
    } else if low == "вт"@ || low == "вторник"@ {
        Option::Some(1)
    } else if low == "ср"@ || low == "среда"@ || low == "среду"@ {
        Option::Some(2)
    } else if low == "чт"@ || low == "четверг"@ {
        Option::Some(3)
    } else if low == "пт"@ || low == "пятница"@ || low == "пятницу"@ {
        Option::Some(4)
    } else if low == "сб"@ || low == "суббота"@ || low == "субботу"@ {
        Option::Some(5)
    } else if low == "вс"@ || low == "воскресенье"@ {
        Option::Some(6)
    } else {
        Option::None
    }
}

/// A Russian weekday word, resolved to the canonical weekday.
pub struct WeekdayRus {
    day: Weekday,
}

impl View for WeekdayRus {
    type V = Weekday;

    closed spec fn view(&self) -> Weekday {
        self.day
    }
}

impl WeekdayRus {
    /// The canonical weekday this word names.
    pub fn weekday(self) -> (r: Weekday)
        ensures
            r == self@,
    {
        self.day
    }

    /// Parses a Russian weekday word, lowercasing it first.
    pub fn from_str(s: &str) -> (r: Result<WeekdayRus, ()>)
        ensures
            (r is Ok) == (parse_weekday_ru(lower_of(s@)) is Some),
            r matches Ok(w) ==> parse_weekday_ru(lower_of(s@)) == Option::Some(day_index(w@)),
    {
        let lowered = lower_str(s);
        let low = lowered.as_str();
        if str_eq(low, "пн") || str_eq(low, "понедельник") {
            Ok(WeekdayRus { day: Weekday::Mon })
        } else if str_eq(low, "вт") || str_eq(low, "вторник") {
            Ok(WeekdayRus { day: Weekday::Tue })
        } else if str_eq(low, "ср") || str_eq(low, "среда") || str_eq(low, "среду") {
            Ok(WeekdayRus { day: Weekday::Wed })
        } else if str_eq(low, "чт") || str_eq(low, "четверг") {
            Ok(WeekdayRus { day: Weekday::Thu })
        } else if str_eq(low, "пт") || str_eq(low, "пятница") || str_eq(low, "пятницу") {
            Ok(WeekdayRus { day: Weekday::Fri })
        } else if str_eq(low, "сб") || str_eq(low, "суббота") || str_eq(low, "субботу") {
            Ok(WeekdayRus { day: Weekday::Sat })
        } else if str_eq(low, "вс") || str_eq(low, "воскресенье") {
            Ok(WeekdayRus { day: Weekday::Sun })
        } else {
            Err(())
        }
    }
}

/// The day shift the token at position `i` announces, with `today` the
/// canonical number of today's weekday.  The patterns, in the order the
/// scan tries them: the literal "вчера"; "позавчера" for the day before
/// yesterday; a preposition or "прошлый" form followed by a weekday
/// word; an integer amount followed by a week or day noun and "назад";
/// a bare "неделю"/"день" followed by "назад".
pub open spec fn rus_token_shift(toks: Seq<TokenV>, i: int, today: int) -> Option<int> {
    let t = toks[i];
    if tokv_is_word(t, "вчера"@) {
        Option::Some(1)
    } else if tokv_is_word(t, "позавчера"@) {
        Option::Some(2)
    } else if i + 1 < toks.len() && (tokv_is_word(t, "прошлый"@) || tokv_is_word(t, "прошлую"@)
        || tokv_is_word(t, "прошлое"@) || tokv_is_word(t, "в"@)) {
        if toks[i + 1] is Word && parse_weekday_ru(lower_of(toks[i + 1]->Word_0)) is Some {
            Option::Some(
                weekday_shift(today, parse_weekday_ru(lower_of(toks[i + 1]->Word_0)).unwrap()),
            )
        } else {
            Option::None
        }
    } else if t is Amount {
        if amount_int_form(t->Amount_0) && -0x8000_0000 <= amount_int_val(t->Amount_0)
            <= 0x7fff_ffff && i + 2 < toks.len() && tokv_is_word(toks[i + 2], "назад"@) {
            if tokv_is_word(toks[i + 1], "неделю"@) || tokv_is_word(toks[i + 1], "недели"@)
                || tokv_is_word(toks[i + 1], "недель"@) {
                Option::Some(7 * amount_int_val(t->Amount_0))
            } else if tokv_is_word(toks[i + 1], "день"@) || tokv_is_word(toks[i + 1], "дней"@)
                || tokv_is_word(toks[i + 1], "дня"@) {
                Option::Some(amount_int_val(t->Amount_0))
            } else {
                Option::None
            }
        } else {
            Option::None
        }
    } else if t is Word && i + 1 < toks.len() && tokv_is_word(toks[i + 1], "назад"@) {
        if ascii_ieq(t->Word_0, "неделю"@) {
            Option::Some(7)
        } else if ascii_ieq(t->Word_0, "день"@) {
            Option::Some(1)
        } else {
            Option::None
        }
    } else {
        Option::None
    }
}

/// The shift of the first recognized pattern at or after position `i`.
pub open spec fn rus_shift_from(toks: Seq<TokenV>, today: int, i: int) -> Option<int>
    decreases toks.len() - i,
{
    if i < 0 || i >= toks.len() {
        Option::None
    } else if rus_token_shift(toks, i, today) is Some {
        rus_token_shift(toks, i, today)
    } else {
        rus_shift_from(toks, today, i + 1)
    }
}

/// The day shift a Russian message announces: the first recognized
/// pattern wins; no pattern means no shift.
pub open spec fn rus_shift(toks: Seq<TokenV>, today: int) -> Option<int> {
    rus_shift_from(toks, today, 0)
}

/// The Russian date-shift resolver.
pub struct RussianDateShiftParser;

impl RussianDateShiftParser {
    /// Scans the tokens left to right against the weekday passed in as
    /// "today"; the first recognized pattern wins.
    pub fn parse_date_shift_from(tokens: &MessageTokens, today: Weekday) -> (r: Option<i64>)
        ensures
            shift_eq(r, rus_shift(tokens.deep_view(), day_index(today))),
    {
        let ghost toks = tokens.deep_view();
        let ghost td = day_index(today);
        let n = tokens.len();
        let mut i: usize = 0;
        while i < n
            invariant
                n == tokens@.len(),
                toks == tokens.deep_view(),
                toks.len() == n,
                td == day_index(today),
                i <= n,
                rus_shift(toks, td) == rus_shift_from(toks, td, i as int),
            decreases n - i,
        {
            let t = &tokens[i];
            let step: Option<i64> = if t.is_word("вчера") {
                Some(1)
            } else if t.is_word("позавчера") {
                Some(2)
            } else if i + 1 < n && (t.is_word("прошлый") || t.is_word("прошлую") || t.is_word(
                "прошлое",
            ) || t.is_word("в")) {
                match &tokens[i + 1] {
                    Token::Word(w) => match WeekdayRus::from_str(w.as_str()) {
                        Ok(wd) => {
                            let x = today.days_since(wd.weekday());
                            if x == 0 {
                                Some(7)
                            } else {
                                Some(x as i64)
                            }
                        },
                        Err(_) => None,
                    },
                    _ => None,
                }
            } else if let Token::Amount(a) = t {
                match a.as_i32() {
                    Ok(x) => {
                        if n - i > 2 && tokens[i + 2].is_word("назад") {
                            if tokens[i + 1].is_word("неделю") || tokens[i + 1].is_word("недели")
                                || tokens[i + 1].is_word("недель") {
                                Some(7 * (x as i64))
                            } else if tokens[i + 1].is_word("день") || tokens[i + 1].is_word(
                                "дней",
                            ) || tokens[i + 1].is_word("дня") {
                                Some(x as i64)
                            } else {
                                None
                            }
                        } else {
                            None
                        }
                    },
                    Err(_) => None,
                }
            } else if i + 1 < n && tokens[i + 1].is_word("назад") {
                if t.is_word("неделю") {
                    Some(7)
                } else if t.is_word("день") {
                    Some(1)
                } else {
                    None
                }
            } else {
                None
            };
            proof {
                assert(shift_eq(step, rus_token_shift(toks, i as int, td)));
            }
            if let Some(d) = step {
                return Some(d);
            }
            i += 1;
        }
        None
    }

    /// Scans the tokens against today's actual weekday.  The result is
    /// what the scan yields for whatever weekday the clock reported.
    pub fn parse_date_shift(tokens: &MessageTokens) -> (r: Option<i64>)
        ensures
            exists|wd: int| 0 <= wd < 7 && shift_eq(r, rus_shift(tokens.deep_view(), wd)),
    {
        let today = today_weekday();
        let r = Self::parse_date_shift_from(tokens, today);
        proof {
            assert(0 <= day_index(today) < 7);
        }
        r
    }
}

} // verus!
