//! The English relative-date expressions: "yesterday", "last Monday",
//! "on Friday", "2 days ago", "3 weeks ago", "a week ago", "a day ago".

use vstd::prelude::*;

use crate::date_parser::Weekday;
use crate::date_parser::day_index;
use crate::date_parser::shift_eq;
use crate::date_parser::today_weekday;
use crate::date_parser::weekday_shift;
use crate::events::amount_int_form;
use crate::events::amount_int_val;
use crate::text::ascii_ieq;
use crate::text::str_ieq;
use crate::tokenizer::MessageTokens;
use crate::tokenizer::Token;
use crate::tokenizer::TokenV;
use crate::tokenizer::tokv_is_word;

verus! {

/// The weekday an English word names: the full name or its three-letter
/// abbreviation, ASCII case ignored (the set the chrono weekday parser
/// accepts).
pub open spec fn parse_weekday_en(s: Seq<char>) -> Option<int> {
    if ascii_ieq(s, "mon"@) || ascii_ieq(s, "monday"@) {
        Option::Some(0)
    } else if ascii_ieq(s, "tue"@) || ascii_ieq(s, "tuesday"@) {
        Option::Some(1)
    } else if ascii_ieq(s, "wed"@) || ascii_ieq(s, "wednesday"@) {
        Option::Some(2)
    } else if ascii_ieq(s, "thu"@) || ascii_ieq(s, "thursday"@) {
        Option::Some(3)
    } else if ascii_ieq(s, "fri"@) || ascii_ieq(s, "friday"@) {
        Option::Some(4)
    } else if ascii_ieq(s, "sat"@) || ascii_ieq(s, "saturday"@) {
        Option::Some(5)
    } else if ascii_ieq(s, "sun"@) || ascii_ieq(s, "sunday"@) {
        Option::Some(6)
    } else {
        Option::None
    }
}

impl Weekday {
    /// Parses an English weekday name: the full name or its three-letter
    /// abbreviation, ASCII case ignored.
    pub fn from_str(s: &str) -> (r: Result<Weekday, ()>)
        ensures
            (r is Ok) == (parse_weekday_en(s@) is Some),
            r matches Ok(w) ==> parse_weekday_en(s@) == Option::Some(day_index(w)),
    {
        if str_ieq(s, "mon") || str_ieq(s, "monday") {
            Ok(Weekday::Mon)
        } else if str_ieq(s, "tue") || str_ieq(s, "tuesday") {
            Ok(Weekday::Tue)
        } else if str_ieq(s, "wed") || str_ieq(s, "wednesday") {
            Ok(Weekday::Wed)
        } else if str_ieq(s, "thu") || str_ieq(s, "thursday") {
            Ok(Weekday::Thu)
        } else if str_ieq(s, "fri") || str_ieq(s, "friday") {
            Ok(Weekday::Fri)
        } else if str_ieq(s, "sat") || str_ieq(s, "saturday") {
            Ok(Weekday::Sat)
        } else if str_ieq(s, "sun") || str_ieq(s, "sunday") {
            Ok(Weekday::Sun)
        } else {
            Err(())
        }
    }
}

/// The day shift the token at position `i` announces, with `today` the
/// canonical number of today's weekday.  The patterns, in the order the
/// scan tries them: the literal "yesterday"; "last"/"on" followed by a
/// weekday name; an integer amount followed by "days"/"weeks" and "ago";
/// a bare "week"/"day" followed by "ago".
pub open spec fn eng_token_shift(toks: Seq<TokenV>, i: int, today: int) -> Option<int> {
    let t = toks[i];
    if tokv_is_word(t, "yesterday"@) {
        Option::Some(1)
    } else if (tokv_is_word(t, "last"@) || tokv_is_word(t, "on"@)) && i + 1 < toks.len() {
        if toks[i + 1] is Word && parse_weekday_en(toks[i + 1]->Word_0) is Some {
            Option::Some(weekday_shift(today, parse_weekday_en(toks[i + 1]->Word_0).unwrap()))
        } else {
            Option::None
        }
    } else if t is Amount {
        if amount_int_form(t->Amount_0) && -0x8000_0000 <= amount_int_val(t->Amount_0)
            <= 0x7fff_ffff && i + 2 < toks.len() && tokv_is_word(toks[i + 2], "ago"@) {
            if tokv_is_word(toks[i + 1], "days"@) {
                Option::Some(amount_int_val(t->Amount_0))
            } else if tokv_is_word(toks[i + 1], "weeks"@) {
                Option::Some(7 * amount_int_val(t->Amount_0))
            } else {
                Option::None
            }
        } else {
            Option::None
        }
    } else if t is Word && i + 1 < toks.len() && tokv_is_word(toks[i + 1], "ago"@) {
        if ascii_ieq(t->Word_0, "week"@) {
            Option::Some(7)
        } else if ascii_ieq(t->Word_0, "day"@) {
            Option::Some(1)
        } else {
            Option::None
        }
    } else {
        Option::None
    }
}

/// The shift of the first recognized pattern at or after position `i`.
pub open spec fn eng_shift_from(toks: Seq<TokenV>, today: int, i: int) -> Option<int>
    decreases toks.len() - i,
{
    if i < 0 || i >= toks.len() {
        Option::None
    } else if eng_token_shift(toks, i, today) is Some {
        eng_token_shift(toks, i, today)
    } else {
        eng_shift_from(toks, today, i + 1)
    }
}

/// The day shift an English message announces: the first recognized
/// pattern wins; no pattern means no shift.
pub open spec fn eng_shift(toks: Seq<TokenV>, today: int) -> Option<int> {
    eng_shift_from(toks, today, 0)
}

/// The English date-shift resolver.
pub struct EnglishDateShiftParser;

impl EnglishDateShiftParser {
    /// Scans the tokens left to right against the weekday passed in as
    /// "today"; the first recognized pattern wins.
    pub fn parse_date_shift_from(tokens: &MessageTokens, today: Weekday) -> (r: Option<i64>)
        ensures
            shift_eq(r, eng_shift(tokens.deep_view(), day_index(today))),
    {
        let ghost toks = tokens.deep_view();
        let ghost td = day_index(today);
        let n = tokens.len();
        let mut i: usize = 0;
        while i < n
            invariant
                n == tokens@.len(),
                toks == tokens.deep_view(),
                toks.len() == n,
                td == day_index(today),
                i <= n,
                eng_shift(toks, td) == eng_shift_from(toks, td, i as int),
            decreases n - i,
        {
            let t = &tokens[i];
            let step: Option<i64> = if t.is_word("yesterday") {
                Some(1)
            } else if (t.is_word("last") || t.is_word("on")) && i + 1 < n {
                match &tokens[i + 1] {
                    Token::Word(w) => match Weekday::from_str(w.as_str()) {
                        Ok(wd) => {
                            let x = today.days_since(wd);
                            if x == 0 {
                                Some(7)
                            } else {
                                Some(x as i64)
                            }
                        },
                        Err(_) => None,
                    },
                    _ => None,
                }
            } else if let Token::Amount(a) = t {
                match a.as_i32() {
                    Ok(x) => {
                        if n - i > 2 && tokens[i + 2].is_word("ago") {
                            if tokens[i + 1].is_word("days") {
                                Some(x as i64)
                            } else if tokens[i + 1].is_word("weeks") {
                                Some(7 * (x as i64))
                            } else {
                                None
                            }
                        } else {
                            None
                        }
                    },
                    Err(_) => None,
                }
            } else if i + 1 < n && tokens[i + 1].is_word("ago") {
                if t.is_word("week") {
                    Some(7)
                } else if t.is_word("day") {
                    Some(1)
                } else {
                    None
                }
            } else {
                None
            };
            proof {
                assert(shift_eq(step, eng_token_shift(toks, i as int, td)));
            }
            if let Some(d) = step {
                return Some(d);
            }
            i += 1;
        }
        None
    }

    /// Scans the tokens against today's actual weekday.  The result is
    /// what the scan yields for whatever weekday the clock reported.
    pub fn parse_date_shift(tokens: &MessageTokens) -> (r: Option<i64>)
        ensures
            exists|wd: int| 0 <= wd < 7 && shift_eq(r, eng_shift(tokens.deep_view(), wd)),
    {
        let today = today_weekday();
        let r = Self::parse_date_shift_from(tokens, today);
        proof {
            assert(0 <= day_index(today) < 7);
        }
        r
    }
}

} // verus!
