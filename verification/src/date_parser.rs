//! Relative-date resolution: the canonical weekday arithmetic every
//! locale shares, and the clock wrapper that supplies today's weekday.
//! Each locale's keyword table lives in its own submodule.

pub mod english;
pub mod russian;

use chrono::Datelike;
use vstd::prelude::*;

use crate::text::lower_of;
use crate::text::lower_str;
use crate::tokenizer::MessageTokens;
use crate::tokenizer::spec_tokenize;
use crate::tokenizer::tokenize;

verus! {

/// A day of the week.
#[derive(Clone, Copy, Debug, PartialEq, Eq, Structural)]
pub enum Weekday {
    Mon,
    Tue,
    Wed,
    Thu,
    Fri,
    Sat,
    Sun,
}

/// The canonical number of a weekday, counted from Monday.
pub open spec fn day_index(w: Weekday) -> int {
    match w {
        Weekday::Mon => 0,
        Weekday::Tue => 1,
        Weekday::Wed => 2,
        Weekday::Thu => 3,
        Weekday::Fri => 4,
        Weekday::Sat => 5,
        Weekday::Sun => 6,
    }
}

/// The day count a "last <weekday>" expression resolves to: the days
/// since the most recent such weekday, with today's own weekday meaning
/// a whole week ago, never zero days.
pub open spec fn weekday_shift(today: int, target: int) -> int {
    let x = (7 + today - target) % 7;
    if x == 0 {
        7
    } else {
        x
    }
}

impl Weekday {
    /// The number of this weekday, counted from Monday.
    pub fn num_days_from_monday(self) -> (r: u32)
        ensures
            r == day_index(self),
    {
        match self {
            Weekday::Mon => 0,
            Weekday::Tue => 1,
            Weekday::Wed => 2,
            Weekday::Thu => 3,
            Weekday::Fri => 4,
            Weekday::Sat => 5,
            Weekday::Sun => 6,
        }
    }

    /// The number of days from `another` back to `self`, in `0..7`.
    pub fn days_since(self, another: Weekday) -> (r: u32)
        ensures
            r == (7 + day_index(self) - day_index(another)) % 7,
    {
        (7 + self.num_days_from_monday() - another.num_days_from_monday()) % 7
    }
}

/// Whether an executable day count agrees with a specified one.
pub open spec fn shift_eq(r: Option<i64>, s: Option<int>) -> bool {
    match (r, s) {
        (Option::Some(a), Option::Some(b)) => a as int == b,
        (Option::None, Option::None) => true,
        _ => false,
    }
}

/// Relies on chrono's `Local::now`, `DateTime::weekday` and
/// `Weekday::num_days_from_monday` for the weekday of the current local
/// date.  The result depends on the clock, so nothing is promised of it.
#[verifier::external_body]
pub fn today_weekday() -> Weekday {
    match chrono::Local::now().weekday() {
        chrono::Weekday::Mon => Weekday::Mon,
        chrono::Weekday::Tue => Weekday::Tue,
        chrono::Weekday::Wed => Weekday::Wed,
        chrono::Weekday::Thu => Weekday::Thu,
        chrono::Weekday::Fri => Weekday::Fri,
        chrono::Weekday::Sat => Weekday::Sat,
        chrono::Weekday::Sun => Weekday::Sun,
    }
}

/// Whether `tokens` is exactly what tokenizing the lowercased `text`
/// yields.
pub fn assert_text(tokens: &MessageTokens, text: &str) -> (r: bool)
    ensures
        r == (tokens.deep_view() == spec_tokenize(lower_of(text@))),
{
    let lowered = lower_str(text);
    let expected = tokenize(lowered.as_str());
    let n = tokens.len();
    if n != expected.len() {
        assert(tokens.deep_view().len() != spec_tokenize(lower_of(text@)).len());
        return false;
    }
    let mut i: usize = 0;
    while i < n
        invariant
            n == tokens@.len(),
            n == expected@.len(),
            expected.deep_view() == spec_tokenize(lower_of(text@)),
            i <= n,
            forall|j: int| 0 <= j < i ==> tokens.deep_view()[j] == expected.deep_view()[j],
        decreases n - i,
    {
        if !tokens[i].eq(&expected[i]) {
            assert(tokens.deep_view()[i as int] != expected.deep_view()[i as int]);
            return false;
        }
        i += 1;
    }
    proof {
        assert(tokens.deep_view() =~= expected.deep_view());
    }
    true
}

} // verus!
