//! The message interpreter: tokenize a raw message once, extract the
//! first amount, classify the words, resolve the relative date, build
//! the description, and assemble the budget record with its reply text.

use vstd::prelude::*;
use vstd::string::StringExecFns;

use crate::categorizer::CategoryProvider;
use crate::categorizer::Categorizer;
use crate::categorizer::CategoryV;
use crate::categorizer::add_all;
use crate::categorizer::spec_selected;
use crate::date_parser::english::EnglishDateShiftParser;
use crate::date_parser::russian::RussianDateShiftParser;
use crate::events::Amount;
use crate::events::BudgetRecord;
use crate::events::HandlerEvent;
use crate::events::amount_text_wf;
use crate::events::date_text;
use crate::events::today_date;
use crate::events::today_minus_days;
use crate::numtext::i64_to_text;
use crate::numtext::int_text;
use crate::tokenizer::MessageTokens;
use crate::tokenizer::Token;
use crate::tokenizer::TokenV;
use crate::tokenizer::spec_tokenize;
use crate::tokenizer::tokenize;

verus! {

/// One raw message to interpret: the platform id of the message, who
/// sent it, its text, and whether it is new or an edit of an earlier
/// one.
#[derive(Debug)]
pub struct Input {
    pub id: i64,
    pub user: String,
    pub text: String,
    pub is_new: bool,
}

/// What one interpreted message produces: a reply text and the events
/// for the persistence collaborator.
#[derive(Debug)]
pub struct Output {
    pub text: String,
    pub events: Vec<HandlerEvent>,
}

/// The language whose relative-date expressions the interpreter
/// resolves.
#[derive(Clone, Copy, Debug, PartialEq, Eq, Structural)]
pub enum Locale {
    English,
    Russian,
}

/// The first amount among the tokens at or after position `i`.
pub open spec fn first_amount_from(toks: Seq<TokenV>, i: int) -> Option<Seq<char>>
    decreases toks.len() - i,
{
    if i < 0 || i >= toks.len() {
        Option::None
    } else if toks[i] is Amount {
        Option::Some(toks[i]->Amount_0)
    } else {
        first_amount_from(toks, i + 1)
    }
}

/// The amount of a message: the text of its first amount token.
pub open spec fn spec_extract_amount(toks: Seq<TokenV>) -> Option<Seq<char>> {
    first_amount_from(toks, 0)
}

/// The description built from the tokens at or after position `i`,
/// with `acc` the text built so far and `buf` a pending punctuation run
/// waiting for a following word.
pub open spec fn desc_from(
    toks: Seq<TokenV>,
    i: int,
    acc: Seq<char>,
    buf: Option<Seq<char>>,
) -> Seq<char>
    decreases toks.len() - i,
{
    if i < 0 || i >= toks.len() {
        acc
    } else if toks[i] is Word {
        let flushed = if buf is Some {
            acc + buf.unwrap()
        } else {
            acc
        };
        let spaced = if flushed.len() > 0 {
            flushed + seq![' ']
        } else {
            flushed
        };
        desc_from(toks, i + 1, spaced + toks[i]->Word_0, Option::None)
    } else if toks[i] is TrailingSigns && acc.len() > 0 && buf is None {
        desc_from(toks, i + 1, acc, Option::Some(toks[i]->TrailingSigns_0))
    } else {
        desc_from(toks, i + 1, acc, buf)
    }
}

/// The description of a message: its words joined by single spaces,
/// each word's trailing punctuation re-attached, and punctuation that
/// would lead the text dropped.
pub open spec fn spec_description(toks: Seq<TokenV>) -> Seq<char> {
    desc_from(toks, 0, Seq::empty(), Option::None)
}

/// The reply text for one event: what kind of record was written, its
/// id, date, category and amount.
pub open spec fn spec_reply(e: HandlerEvent) -> Seq<char> {
    match e {
        HandlerEvent::AddRecord(rec) => "Added new record #"@ + int_text(rec.id as int)
            + "\nDate: "@ + date_text(rec.date) + "\nCategory: "@ + rec.category@
            + "\nAmount: "@ + rec.amount@,
        HandlerEvent::UpdateRecord(rec) => "Updated existed record #"@ + int_text(rec.id as int)
            + "\nDate: "@ + date_text(rec.date) + "\nCategory: "@ + rec.category@
            + "\nAmount: "@ + rec.amount@,
    }
}

/// The record a successful interpretation of `input` builds, apart from
/// its date: the id and user carried over, the first amount, the
/// description, and the name of the selected category.
pub open spec fn record_matches_input(rec: BudgetRecord, input: Input, cats: Seq<CategoryV>) -> bool {
    let toks = spec_tokenize(input.text@);
    &&& rec.id == input.id
    &&& rec.user@ == input.user@
    &&& spec_extract_amount(toks) == Option::Some(rec.amount@)
    &&& amount_text_wf(rec.amount@)
    &&& rec.desc@ == spec_description(toks)
    &&& (exists|c: CategoryV| #[trigger] spec_selected(cats, toks, c) && rec.category@ == c.name)
    &&& rec.date.wf()
}

/// The message interpreter: the loaded classifier and the locale whose
/// date expressions it resolves.
pub struct RawMessageParser {
    categorizer: Categorizer,
    locale: Locale,
}

impl RawMessageParser {
    /// The classifier invariant carries over.
    pub closed spec fn wf(self) -> bool {
        self.categorizer.wf()
    }

    /// Whether the category table has been loaded.
    pub closed spec fn loaded(self) -> bool {
        self.categorizer.loaded()
    }

    /// The loaded categories.
    pub closed spec fn cats(self) -> Seq<CategoryV> {
        self.categorizer.cats()
    }

    /// The locale the interpreter resolves dates in.
    pub closed spec fn spec_locale(self) -> Locale {
        self.locale
    }

    /// Builds an interpreter over the provider's categories, resolving
    /// English date expressions.
    pub fn new<P: CategoryProvider>(provider: &P) -> (r: RawMessageParser)
        ensures
            r.wf(),
            r.spec_locale() == Locale::English,
            exists|l: Seq<CategoryV>|
                r.cats() == add_all(Seq::empty(), l) && r.loaded() == (l.len() > 0),
    {
        Self::new_with_locale(provider, Locale::English)
    }

    /// Builds an interpreter over the provider's categories for the
    /// given locale.
    pub fn new_with_locale<P: CategoryProvider>(provider: &P, locale: Locale) -> (r:
        RawMessageParser)
        ensures
            r.wf(),
            r.spec_locale() == locale,
            exists|l: Seq<CategoryV>|
                r.cats() == add_all(Seq::empty(), l) && r.loaded() == (l.len() > 0),
    {
        let mut categorizer = Categorizer::new();
        categorizer.load_categories(provider);
        RawMessageParser { categorizer, locale }
    }

    /// Whether the category table has been loaded; interpreting a
    /// message requires it.
    pub fn is_loaded(&self) -> (r: bool)
        ensures
            r == self.loaded(),
    {
        self.categorizer.is_loaded()
    }

    /// Interprets one raw message.  A message without an amount yields
    /// nothing; otherwise the record carries the message's id and user,
    /// its first amount, its description, the name of the selected
    /// category and a plausible date, wrapped as an add or an update
    /// after whether the message was new, beside the reply text.
    pub fn handle_message(&mut self, input: Input) -> (r: Option<Output>)
        requires
            old(self).wf(),
            old(self).loaded(),
        ensures
            *final(self) == *old(self),
            (r is None) <==> (spec_extract_amount(spec_tokenize(input.text@)) is None),
            r matches Some(o) ==> {
                &&& o.events@.len() == 1
                &&& (input.is_new ==> o.events@[0] is AddRecord)
                &&& (!input.is_new ==> o.events@[0] is UpdateRecord)
                &&& record_matches_input(event_record(o.events@[0]), input, old(self).cats())
                &&& o.text@ == spec_reply(o.events@[0])
            },
    {
        let tokens = tokenize(input.text.as_str());
        let amount = match Self::extract_amount(&tokens) {
            Some(a) => a,
            None => {
                return None;
            },
        };
        let chosen = self.categorizer.classify(&tokens).unwrap();
        let ghost chosen_view = chosen@;
        let category = chosen.name.clone();
        proof {
            assert(spec_selected(old(self).cats(), spec_tokenize(input.text@), chosen_view));
            assert(category@ == chosen_view.name);
        }
        let desc = Self::extract_description(&tokens);
        let shift = match self.locale {
            Locale::English => EnglishDateShiftParser::parse_date_shift(&tokens),
            Locale::Russian => RussianDateShiftParser::parse_date_shift(&tokens),
        };
        let days: i64 = match shift {
            Some(d) => d,
            None => 0,
        };
        let date = match today_minus_days(days) {
            Some(d) => d,
            None => today_date(),
        };
        proof {
            use_type_invariant(&amount);
            assert(amount_text_wf(amount@));
        }
        let ghost av = amount@;
        let record = BudgetRecord {
            id: input.id,
            date,
            category,
            amount,
            desc,
            user: input.user,
        };
        let ghost rec = record;
        let event = if input.is_new {
            HandlerEvent::AddRecord(record)
        } else {
            HandlerEvent::UpdateRecord(record)
        };
        let ghost ev = event;
        proof {
            assert(event_record(ev) == rec);
            assert(rec.amount@ == av);
            assert(record_matches_input(rec, input, old(self).cats()));
        }
        let text = Self::build_reply_message(&event);
        let mut events: Vec<HandlerEvent> = Vec::new();
        events.push(event);
        proof {
            assert(events@[0] == ev);
        }
        Some(Output { text, events })
    }

    /// Renders the reply text for one event.
    pub fn build_reply_message(event: &HandlerEvent) -> (r: String)
        ensures
            r@ == spec_reply(*event),
    {
        match event {
            HandlerEvent::AddRecord(rec) => {
                let mut s = String::from_str("Added new record #");
                s.append(i64_to_text(rec.id).as_str());
                s.append("\nDate: ");
                s.append(rec.date.to_text().as_str());
                s.append("\nCategory: ");
                s.append(rec.category.as_str());
                s.append("\nAmount: ");
                s.append(rec.amount.text());
                s
            },
            HandlerEvent::UpdateRecord(rec) => {
                let mut s = String::from_str("Updated existed record #");
                s.append(i64_to_text(rec.id).as_str());
                s.append("\nDate: ");
                s.append(rec.date.to_text().as_str());
                s.append("\nCategory: ");
                s.append(rec.category.as_str());
                s.append("\nAmount: ");
                s.append(rec.amount.text());
                s
            },
        }
    }

    /// The description of a token stream: its words joined by single
    /// spaces, trailing punctuation re-attached, and punctuation that
    /// would lead the text dropped.
    pub fn extract_description(tokens: &MessageTokens) -> (r: String)
        ensures
            r@ == spec_description(tokens.deep_view()),
    {
        let ghost toks = tokens.deep_view();
        let n = tokens.len();
        let mut result = String::new();
        let mut buffer: Option<String> = None;
        let mut i: usize = 0;
        while i < n
            invariant
                n == tokens@.len(),
                toks == tokens.deep_view(),
                toks.len() == n,
                i <= n,
                spec_description(toks) == desc_from(
                    toks,
                    i as int,
                    result@,
                    match buffer {
                        Option::Some(s) => Option::Some(s@),
                        Option::None => Option::None,
                    },
                ),
            decreases n - i,
        {
            match &tokens[i] {
                Token::Word(word) => {
                    let ghost acc0 = result@;
                    let ghost buf0: Option<Seq<char>> = match &buffer {
                        Option::Some(s) => Option::Some(s@),
                        Option::None => Option::None,
                    };
                    if let Some(signs) = buffer.take() {
                        result.append(signs.as_str());
                    }
                    proof {
                        assert(result@ == (if buf0 is Some {
                            acc0 + buf0.unwrap()
                        } else {
                            acc0
                        }));
                    }
                    let ghost flushed = result@;
                    if result.unicode_len() > 0 {
                        proof {
                            reveal_strlit(" ");
                            assert(" "@ =~= seq![' ']);
                        }
                        result.append(" ");
                    }
                    proof {
                        assert(result@ == (if flushed.len() > 0 {
                            flushed + seq![' ']
                        } else {
                            flushed
                        }));
                    }
                    result.append(word.as_str());
                    proof {
                        assert(word@ == toks[i as int]->Word_0);
                    }
                },
                Token::TrailingSigns(signs) => {
                    if result.unicode_len() > 0 && buffer.is_none() {
                        buffer = Some(signs.clone());
                    }
                },
                _ => {},
            }
            i += 1;
        }
        result
    }

    /// The first amount of a tokenized message, where one exists.
    pub fn parse_amount(text: &str) -> (r: Option<Amount>)
        ensures
            match r {
                Option::Some(a) => spec_extract_amount(spec_tokenize(text@)) == Option::Some(a@),
                Option::None => spec_extract_amount(spec_tokenize(text@)) is None,
            },
    {
        Self::extract_amount(&tokenize(text))
    }

    /// The first amount token of the stream, where one exists.
    pub fn extract_amount(tokens: &MessageTokens) -> (r: Option<Amount>)
        ensures
            match r {
                Option::Some(a) => spec_extract_amount(tokens.deep_view()) == Option::Some(a@),
                Option::None => spec_extract_amount(tokens.deep_view()) is None,
            },
    {
        let ghost toks = tokens.deep_view();
        let n = tokens.len();
        let mut i: usize = 0;
        while i < n
            invariant
                n == tokens@.len(),
                toks == tokens.deep_view(),
                toks.len() == n,
                i <= n,
                spec_extract_amount(toks) == first_amount_from(toks, i as int),
            decreases n - i,
        {
            if let Token::Amount(a) = &tokens[i] {
                return Some(a.clone());
            }
            i += 1;
        }
        None
    }
}

/// The record inside an event.
pub open spec fn event_record(e: HandlerEvent) -> BudgetRecord {
    match e {
        HandlerEvent::AddRecord(rec) => rec,
        HandlerEvent::UpdateRecord(rec) => rec,
    }
}

} // verus!
