//! The data that one interpreted message produces: the validated numeric
//! `Amount`, the record `Date`, the `BudgetRecord` itself, and the event
//! that hands a record to a persistence collaborator.

use vstd::prelude::*;
use vstd::string::StrSliceExecFns;
use vstd::string::StringExecFns;

use crate::numtext::dec_text;
use crate::numtext::dec_val;
use crate::numtext::int_text;
use crate::numtext::i64_to_text;
use crate::numtext::parse_digit_run;
use crate::numtext::u64_to_text;
use chrono::Datelike;

use crate::text::is_digit;
use crate::text::is_digit_char;

verus! {

/// The identifier of one budget record: the id of the message it came
/// from.
pub type RecordId = i64;

/// A decimal separator: the two characters an amount may use between its
/// whole and fractional digits.
pub open spec fn is_sep_char(c: char) -> bool {
    c == '.' || c == ','
}

/// Every character of `s` is a decimal digit.
pub open spec fn all_digits(s: Seq<char>) -> bool {
    forall|i: int| 0 <= i < s.len() ==> is_digit_char(s[i])
}

/// `s` splits at position `k` into at least one digit, a separator, and
/// one or two fractional digits.
pub open spec fn amount_split_at(s: Seq<char>, k: int) -> bool {
    1 <= k < s.len() && is_sep_char(s[k]) && all_digits(s.subrange(0, k)) && 1 <= s.len() - k - 1
        <= 2 && all_digits(s.subrange(k + 1, s.len() as int))
}

/// The unsigned part of a well-formed amount: digits, optionally followed
/// by a separator and one or two fractional digits.
pub open spec fn amount_body_chars(s: Seq<char>) -> bool {
    (s.len() >= 1 && all_digits(s)) || (exists|k: int| amount_split_at(s, k))
}

/// A well-formed amount text: an optional leading minus sign, then digits,
/// then optionally a separator with one or two fractional digits.
pub open spec fn amount_chars(s: Seq<char>) -> bool {
    if s.len() > 0 && s[0] == '-' {
        amount_body_chars(s.subrange(1, s.len() as int))
    } else {
        amount_body_chars(s)
    }
}

/// `s` with every comma separator replaced by a dot.
pub open spec fn normalize_amount(s: Seq<char>) -> Seq<char> {
    Seq::new(s.len(), |i: int| if s[i] == ',' { '.' } else { s[i] })
}

/// The invariant of a constructed amount: its text is a well-formed
/// amount whose separator, if any, is a dot.
pub open spec fn amount_text_wf(s: Seq<char>) -> bool {
    amount_chars(s) && s == normalize_amount(s)
}

/// A validated numeric amount: text matching
/// `-?digits(separator 1..2 digits)?`, with the comma separator
/// normalized to a dot on construction.
#[derive(Debug)]
pub struct Amount {
    text: String,
}

impl View for Amount {
    type V = Seq<char>;

    closed spec fn view(&self) -> Seq<char> {
        self.text@
    }
}

impl Amount {
    /// Every amount value carries a well-formed, normalized text.
    #[verifier::type_invariant]
    pub open spec fn type_inv(self) -> bool {
        amount_text_wf(self@)
    }
}

impl Clone for Amount {
    fn clone(&self) -> (r: Self)
        ensures
            r == *self,
    {
        proof {
            use_type_invariant(self);
        }
        Amount { text: self.text.clone() }
    }
}

impl PartialEq for Amount {
    fn eq(&self, other: &Amount) -> (r: bool) {
        self.text.eq(&other.text)
    }
}

impl vstd::std_specs::cmp::PartialEqSpecImpl for Amount {
    open spec fn obeys_eq_spec() -> bool {
        true
    }

    open spec fn eq_spec(&self, other: &Amount) -> bool {
        self@ == other@
    }
}

impl Amount {
    /// The normalized text of the amount.
    pub fn text(&self) -> (r: &str)
        ensures
            r@ == self@,
    {
        self.text.as_str()
    }

    /// Validates `s` as an amount; on success the comma separator is
    /// replaced by a dot.  A malformed text is reported, never accepted.
    #[verifier::rlimit(50)]
    pub fn from_str(s: &str) -> (r: Result<Amount, ()>)
        ensures
            amount_chars(s@) <==> r is Ok,
            r matches Ok(a) ==> a@ == normalize_amount(s@) && amount_text_wf(a@),
    {
        let n = s.unicode_len();
        let start: usize = if n > 0 && s.get_char(0) == '-' {
            1
        } else {
            0
        };
        let ghost body = s@.subrange(start as int, n as int);
        proof {
            if start == 0 {
                assert(body =~= s@);
                if s@.len() > 0 && s@[0] == '-' {
                    assert(false);
                }
            }
            assert(amount_chars(s@) == amount_body_chars(body));
        }
        if n == start {
            assert(!amount_body_chars(body));
            return Err(());
        }
        let mut k: usize = start;
        while k < n && is_digit(s.get_char(k))
            invariant
                start <= k <= n,
                n == s@.len(),
                forall|j: int| start <= j < k ==> is_digit_char(s@[j]),
            decreases n - k,
        {
            k += 1;
        }
        if k == start {
            // the body begins with something that is no digit
            assert(!amount_body_chars(body)) by {
                assert(!is_digit_char(body[0]));
                assert forall|kk: int| !amount_split_at(body, kk) by {
                    if 1 <= kk < body.len() && all_digits(body.subrange(0, kk)) {
                        assert(is_digit_char(body.subrange(0, kk)[0]));
                    }
                }
            }
            return Err(());
        }
        if k == n {
            // every body character is a digit
            let text = String::from_str(s);
            proof {
                assert(all_digits(body));
                assert(amount_chars(s@));
                assert(normalize_amount(s@) =~= s@);
                assert(amount_text_wf(text@));
            }
            return Ok(Amount { text });
        }
        // s[k] is the first non-digit of the body
        let ghost kb = k - start;
        proof {
            assert(body[kb] == s@[k as int]);
            assert(!is_digit_char(body[kb]));
            assert(!all_digits(body));
            // a split could only sit at the first non-digit position
            assert forall|kk: int| kk != kb implies !amount_split_at(body, kk) by {
                if 1 <= kk < body.len() && kk != kb {
                    if kk < kb {
                        assert(is_digit_char(body[kk]));
                        assert(!is_sep_char(body[kk]));
                    } else if all_digits(body.subrange(0, kk)) {
                        assert(is_digit_char(body.subrange(0, kk)[kb]));
                    }
                }
            }
        }
        let c = s.get_char(k);
        if !(c == '.' || c == ',') {
            assert(!amount_split_at(body, kb));
            return Err(());
        }
        if n - k - 1 < 1 || n - k - 1 > 2 {
            assert(!amount_split_at(body, kb));
            return Err(());
        }
        let mut j: usize = k + 1;
        while j < n && is_digit(s.get_char(j))
            invariant
                k + 1 <= j <= n,
                n == s@.len(),
                forall|i: int| k + 1 <= i < j ==> is_digit_char(s@[i]),
            decreases n - j,
        {
            j += 1;
        }
        if j < n {
            assert(!amount_split_at(body, kb)) by {
                assert(body.subrange(kb + 1, body.len() as int)[j - start - kb - 1]
                    == s@[j as int]);
            }
            return Err(());
        }
        let mut text = String::from_str(s.substring_char(0, k));
        proof {
            reveal_strlit(".");
        }
        text.append(".");
        text.append(s.substring_char(k + 1, n));
        proof {
            assert(amount_split_at(body, kb)) by {
                assert(forall|i: int|
                    0 <= i < kb ==> #[trigger] body.subrange(0, kb)[i] == s@[start + i]);
                assert(forall|i: int|
                    0 <= i < body.len() - kb - 1 ==> #[trigger] body.subrange(
                        kb + 1,
                        body.len() as int,
                    )[i] == s@[start + kb + 1 + i]);
            }
            assert(amount_chars(s@));
            assert(text@ =~= normalize_amount(s@)) by {
                assert(forall|i: int| 0 <= i < k ==> text@[i] == s@[i] && s@[i] != ',');
                assert(text@[k as int] == '.');
                assert(forall|i: int| k < i < n ==> text@[i] == s@[i] && s@[i] != ',');
            }
            let t = text@;
            let tb = t.subrange(start as int, t.len() as int);
            assert(amount_split_at(tb, kb)) by {
                assert(forall|i: int| 0 <= i < tb.len() ==> tb[i] == t[start + i]);
                assert(forall|i: int|
                    0 <= i < kb ==> #[trigger] tb.subrange(0, kb)[i] == t[start + i]);
                assert(forall|i: int|
                    0 <= i < tb.len() - kb - 1 ==> #[trigger] tb.subrange(
                        kb + 1,
                        tb.len() as int,
                    )[i] == t[start + kb + 1 + i]);
                assert(tb[kb] == '.');
            }
            assert(amount_chars(t)) by {
                if start == 0 {
                    assert(is_digit_char(t[0]));
                    assert(t[0] != '-');
                    assert(tb =~= t);
                } else {
                    assert(t[0] == '-');
                }
            }
            assert(t == normalize_amount(t)) by {
                assert(t =~= normalize_amount(t));
            }
            assert(amount_text_wf(t));
        }
        Ok(Amount { text })
    }

    /// The amount as a signed 32-bit integer: defined exactly when the
    /// text is an optionally negated digit run whose value fits.
    pub fn as_i32(&self) -> (r: Result<i32, ()>)
        ensures
            r is Ok <==> (amount_int_form(self@) && -0x8000_0000 <= amount_int_val(self@)
                <= 0x7fff_ffff),
            r matches Ok(v) ==> v as int == amount_int_val(self@),
    {
        parse_i32_text(self.text.as_str())
    }
}

/// Reads a signed 32-bit integer from decimal text: defined exactly when
/// the text is an optionally negated digit run whose value fits.
pub fn parse_i32_text(s: &str) -> (r: Result<i32, ()>)
    ensures
        r is Ok <==> (amount_int_form(s@) && -0x8000_0000 <= amount_int_val(s@) <= 0x7fff_ffff),
        r matches Ok(v) ==> v as int == amount_int_val(s@),
{
    {
        let n = s.unicode_len();
        let start: usize = if n > 0 && s.get_char(0) == '-' {
            1
        } else {
            0
        };
        let ghost body = s@.subrange(start as int, n as int);
        proof {
            if start == 0 {
                assert(body =~= s@);
            }
            assert(amount_int_form(s@) == (body.len() >= 1 && all_digits(body)));
        }
        if n == start {
            return Err(());
        }
        let mut i: usize = start;
        while i < n && is_digit(s.get_char(i))
            invariant
                start <= i <= n,
                n == s@.len(),
                forall|j: int| start <= j < i ==> is_digit_char(s@[j]),
            decreases n - i,
        {
            i += 1;
        }
        if i < n {
            assert(!all_digits(body)) by {
                assert(body[i - start] == s@[i as int]);
            }
            return Err(());
        }
        assert(all_digits(body));
        assert(amount_int_form(s@));
        proof {
            if s@.len() > 0 && s@[0] == '-' {
                assert(amount_int_val(s@) == -dec_val(body));
            } else {
                assert(amount_int_val(s@) == dec_val(body));
            }
        }
        match parse_digit_run(s, start, n) {
            None => {
                proof {
                    crate::numtext::lemma_dec_val_nonneg(body);
                }
                Err(())
            },
            Some(v) => {
                if start == 1 {
                    if v == 0x8000_0000i64 {
                        Ok(i32::MIN)
                    } else {
                        Ok(-(v as i32))
                    }
                } else {
                    if v <= 0x7fff_ffffi64 {
                        Ok(v as i32)
                    } else {
                        Err(())
                    }
                }
            },
        }
    }
}

/// The text of one record as a semicolon-separated line: id, date,
/// category, amount, description and user.
pub open spec fn record_csv_text(rec: BudgetRecord) -> Seq<char> {
    int_text(rec.id as int) + seq![';'] + date_text(rec.date) + seq![';'] + rec.category@
        + seq![';'] + rec.amount@ + seq![';'] + rec.desc@ + seq![';'] + rec.user@
}

impl BudgetRecord {
    /// Renders the record as one semicolon-separated line.
    pub fn to_csv_line(&self) -> (r: String)
        ensures
            r@ == record_csv_text(*self),
    {
        proof {
            reveal_strlit(";");
            assert(";"@ =~= seq![';']);
        }
        let mut s = i64_to_text(self.id);
        s.append(";");
        s.append(self.date.to_text().as_str());
        s.append(";");
        s.append(self.category.as_str());
        s.append(";");
        s.append(self.amount.text());
        s.append(";");
        s.append(self.desc.as_str());
        s.append(";");
        s.append(self.user.as_str());
        s
    }
}

/// A well-formed amount text ends in a digit.
pub proof fn lemma_amount_last_digit(s: Seq<char>)
    requires
        amount_chars(s),
    ensures
        s.len() > 0,
        is_digit_char(s[s.len() - 1]),
{
    let start: int = if s.len() > 0 && s[0] == '-' {
        1
    } else {
        0
    };
    let body = s.subrange(start, s.len() as int);
    if start == 0 {
        assert(body =~= s);
    }
    assert(amount_body_chars(body));
    assert(body.len() >= 1);
    if body.len() >= 1 && all_digits(body) {
        assert(is_digit_char(body[body.len() - 1]));
    } else {
        let k = choose|k: int| amount_split_at(body, k);
        let frac = body.subrange(k + 1, body.len() as int);
        assert(is_digit_char(frac[frac.len() - 1]));
        assert(frac[frac.len() - 1] == body[body.len() - 1]);
    }
    assert(body[body.len() - 1] == s[s.len() - 1]);
}

/// Normalizing a well-formed amount keeps it well-formed, and the
/// normalized text is already its own normalization.
pub proof fn lemma_normalize_amount_wf(s: Seq<char>)
    requires
        amount_chars(s),
    ensures
        amount_text_wf(normalize_amount(s)),
{
    let n = normalize_amount(s);
    assert(n.len() == s.len());
    let start: int = if s.len() > 0 && s[0] == '-' {
        1
    } else {
        0
    };
    assert(s.len() > 0);
    assert(n[0] == '-' <==> s[0] == '-');
    let body = s.subrange(start, s.len() as int);
    let nbody = n.subrange(start, n.len() as int);
    if start == 0 {
        assert(body =~= s);
        assert(nbody =~= n);
    }
    assert(forall|i: int| 0 <= i < nbody.len() ==> #[trigger] nbody[i] == n[start + i]);
    assert(amount_body_chars(body));
    assert(body.len() >= 1);
    assert(amount_body_chars(nbody)) by {
        if body.len() >= 1 && all_digits(body) {
            assert forall|i: int| 0 <= i < nbody.len() implies is_digit_char(nbody[i]) by {
                assert(is_digit_char(body[i]));
                assert(body[i] != ',');
            }
        } else {
            let k = choose|k: int| amount_split_at(body, k);
            assert(amount_split_at(nbody, k)) by {
                assert(is_sep_char(nbody[k])) by {
                    assert(body[k] == s[start + k]);
                }
                assert forall|i: int|
                    0 <= i < k implies is_digit_char(#[trigger] nbody.subrange(0, k)[i]) by {
                    assert(is_digit_char(body.subrange(0, k)[i]));
                    assert(body.subrange(0, k)[i] == body[i]);
                    assert(body[i] != ',');
                }
                assert forall|i: int|
                    0 <= i < nbody.len() - k - 1 implies is_digit_char(
                    #[trigger] nbody.subrange(k + 1, nbody.len() as int)[i],
                ) by {
                    assert(is_digit_char(body.subrange(k + 1, body.len() as int)[i]));
                    assert(body.subrange(k + 1, body.len() as int)[i] == body[k + 1 + i]);
                    assert(body[k + 1 + i] != ',');
                }
            }
        }
    }
    assert(amount_chars(n)) by {
        if start == 1 {
            assert(n[0] == '-');
        } else {
            assert(s[0] != '-');
            assert(n[0] != '-');
        }
    }
    assert(n == normalize_amount(n)) by {
        assert forall|i: int| 0 <= i < n.len() implies n[i] != ',' by {
            if s[i] == ',' {
            }
        }
        assert(n =~= normalize_amount(n));
    }
}

/// The amount text is an integer: an optional minus sign, then digits
/// only, with no fractional part.
pub open spec fn amount_int_form(s: Seq<char>) -> bool {
    if s.len() > 0 && s[0] == '-' {
        s.len() > 1 && all_digits(s.subrange(1, s.len() as int))
    } else {
        s.len() > 0 && all_digits(s)
    }
}

/// The integer value of an amount text in integer form.
pub open spec fn amount_int_val(s: Seq<char>) -> int {
    if s.len() > 0 && s[0] == '-' {
        -dec_val(s.subrange(1, s.len() as int))
    } else {
        dec_val(s)
    }
}

/// A number zero-padded to two digits, the month and day fields of a
/// rendered date.
pub open spec fn pad2_text(n: nat) -> Seq<char> {
    if n < 10 {
        seq!['0'] + dec_text(n)
    } else {
        dec_text(n)
    }
}

/// A year zero-padded to four digits, with a minus sign for a year before
/// year zero.
pub open spec fn year_text(y: int) -> Seq<char> {
    if y < 0 {
        seq!['-'] + dec_text((-y) as nat)
    } else if y < 10 {
        seq!['0', '0', '0'] + dec_text(y as nat)
    } else if y < 100 {
        seq!['0', '0'] + dec_text(y as nat)
    } else if y < 1000 {
        seq!['0'] + dec_text(y as nat)
    } else {
        dec_text(y as nat)
    }
}

/// A calendar date as plain values: the shape a record's date takes once
/// the calendar work of the clock library is done.
#[derive(Clone, Copy, Debug, PartialEq, Eq, Structural)]
pub struct Date {
    pub year: i32,
    pub month: u32,
    pub day: u32,
}

/// The text of a date: year, month and day, dash-separated and
/// zero-padded.
pub open spec fn date_text(d: Date) -> Seq<char> {
    year_text(d.year as int) + seq!['-'] + pad2_text(d.month as nat) + seq!['-'] + pad2_text(
        d.day as nat,
    )
}

fn pad2_exec(n: u32) -> (r: String)
    ensures
        r@ == pad2_text(n as nat),
{
    if n < 10 {
        proof {
            reveal_strlit("0");
        }
        let mut s = String::from_str("0");
        s.append(u64_to_text(n as u64).as_str());
        proof {
            assert(s@ =~= pad2_text(n as nat));
        }
        s
    } else {
        u64_to_text(n as u64)
    }
}

fn year_exec(y: i32) -> (r: String)
    ensures
        r@ == year_text(y as int),
{
    if y < 0 {
        let mag: u64 = if y == i32::MIN {
            2147483648u64
        } else {
            (-y) as u64
        };
        proof {
            reveal_strlit("-");
        }
        let mut s = String::from_str("-");
        s.append(u64_to_text(mag).as_str());
        proof {
            assert(s@ =~= year_text(y as int));
        }
        s
    } else if y < 10 {
        proof {
            reveal_strlit("000");
        }
        let mut s = String::from_str("000");
        s.append(u64_to_text(y as u64).as_str());
        proof {
            assert(s@ =~= year_text(y as int));
        }
        s
    } else if y < 100 {
        proof {
            reveal_strlit("00");
        }
        let mut s = String::from_str("00");
        s.append(u64_to_text(y as u64).as_str());
        proof {
            assert(s@ =~= year_text(y as int));
        }
        s
    } else if y < 1000 {
        proof {
            reveal_strlit("0");
        }
        let mut s = String::from_str("0");
        s.append(u64_to_text(y as u64).as_str());
        proof {
            assert(s@ =~= year_text(y as int));
        }
        s
    } else {
        u64_to_text(y as u64)
    }
}

impl Date {
    /// A plausible calendar date: month and day within their ranges.
    pub open spec fn wf(self) -> bool {
        1 <= self.month <= 12 && 1 <= self.day <= 31
    }

    /// The id of the month sheet this date belongs on: the year times
    /// one hundred, plus the month.
    pub fn sheet_id(&self) -> (r: i32)
        requires
            self.wf(),
            0 <= self.year <= 9999,
        ensures
            r == self.year * 100 + self.month,
    {
        self.year * 100 + (self.month as i32)
    }

    /// Renders the date as `YYYY-MM-DD`.
    pub fn to_text(&self) -> (r: String)
        ensures
            r@ == date_text(*self),
    {
        let mut s = year_exec(self.year);
        proof {
            reveal_strlit("-");
        }
        s.append("-");
        s.append(pad2_exec(self.month).as_str());
        s.append("-");
        s.append(pad2_exec(self.day).as_str());
        proof {
            assert(s@ =~= date_text(*self));
        }
        s
    }
}

/// Relies on chrono's `Local::now`, `NaiveDate::checked_sub_signed`,
/// `TimeDelta::try_days` and the `Datelike` getters `year`, `month` and
/// `day`: the local calendar date `days` days before today, as plain
/// values.  chrono documents `month()` as `1..=12` and `day()` as
/// `1..=31`; arithmetic that leaves chrono's date range yields nothing.
/// The result depends on the clock, so no more is promised of it.
#[verifier::external_body]
pub fn today_minus_days(days: i64) -> (r: Option<Date>)
    ensures
        r matches Some(d) ==> d.wf(),
{
    let today = chrono::Local::now().date_naive();
    let delta = chrono::TimeDelta::try_days(days)?;
    let d = today.checked_sub_signed(delta)?;
    Some(Date { year: d.year(), month: d.month(), day: d.day() })
}

/// Relies on chrono's `Local::now` and the `Datelike` getters `year`,
/// `month` and `day`: today's local calendar date as plain values, with
/// the documented `month()` and `day()` ranges.  The result depends on
/// the clock.
#[verifier::external_body]
pub fn today_date() -> (r: Date)
    ensures
        r.wf(),
{
    let d = chrono::Local::now().date_naive();
    Date { year: d.year(), month: d.month(), day: d.day() }
}

/// One finished interpretation: the structured record a message produced.
#[derive(Debug)]
pub struct BudgetRecord {
    pub id: RecordId,
    pub date: Date,
    pub category: String,
    pub amount: Amount,
    pub desc: String,
    pub user: String,
}

/// The intent that wraps a finished record for the persistence
/// collaborator: add it as new, or update an existing one.
#[derive(Debug)]
pub enum HandlerEvent {
    AddRecord(BudgetRecord),
    UpdateRecord(BudgetRecord),
}

} // verus!
