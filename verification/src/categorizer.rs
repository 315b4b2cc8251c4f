//! The category classifier: a prioritized table of categories, each
//! defined by lowercase lexeme prefixes, and the selection of the best
//! match for a token stream.

use vstd::prelude::*;
use vstd::string::StrSliceExecFns;

use crate::text::lemma_lex_trichotomy;
use crate::text::lex_lt;
use crate::text::lower_of;
use crate::text::lower_str;
use crate::text::str_eq;
use crate::text::str_lt;
use crate::text::str_starts_with;
use crate::text::trim_spec;
use crate::text::trim_str;
use crate::tokenizer::MessageTokens;
use crate::tokenizer::Token;
use crate::tokenizer::TokenV;
use crate::tokenizer::spec_tokenize;
use crate::tokenizer::tokenize;

verus! {

/// The position of the first `sep` character in `s`, or the length of
/// `s` when it has none.
pub open spec fn sep_free_len(s: Seq<char>, sep: char) -> int
    decreases s.len(),
{
    if s.len() == 0 {
        0
    } else if s[0] == sep {
        0
    } else {
        1 + sep_free_len(s.subrange(1, s.len() as int), sep)
    }
}

proof fn lemma_sep_free_len(s: Seq<char>, sep: char)
    ensures
        0 <= sep_free_len(s, sep) <= s.len(),
    decreases s.len(),
{
    if s.len() > 0 && s[0] != sep {
        lemma_sep_free_len(s.subrange(1, s.len() as int), sep);
    }
}

proof fn lemma_sep_free_len_at(s: Seq<char>, sep: char, k: int)
    requires
        0 <= k <= s.len(),
        forall|i: int| 0 <= i < k ==> s[i] != sep,
        k == s.len() || s[k] == sep,
    ensures
        sep_free_len(s, sep) == k,
    decreases k,
{
    if k > 0 {
        let t = s.subrange(1, s.len() as int);
        assert(forall|i: int| 0 <= i < t.len() ==> t[i] == s[i + 1]);
        lemma_sep_free_len_at(t, sep, k - 1);
    }
}

/// The pieces of `s` between its `sep` characters, empty pieces kept.
pub open spec fn split_seps(s: Seq<char>, sep: char) -> Seq<Seq<char>>
    decreases s.len(),
    via split_seps_decreases
{
    let k = sep_free_len(s, sep);
    if k == s.len() {
        seq![s]
    } else {
        seq![s.subrange(0, k)] + split_seps(s.subrange(k + 1, s.len() as int), sep)
    }
}

#[via_fn]
proof fn split_seps_decreases(s: Seq<char>, sep: char) {
    lemma_sep_free_len(s, sep);
}

proof fn lemma_split_seps_len(s: Seq<char>, sep: char)
    ensures
        split_seps(s, sep).len() >= 1,
{
    lemma_sep_free_len(s, sep);
}

/// The comma-separated pieces of `s`, empty pieces kept.
pub open spec fn split_commas(s: Seq<char>) -> Seq<Seq<char>> {
    split_seps(s, ',')
}

/// The lexeme list a comma-separated string describes: each piece
/// trimmed and lowercased.
pub open spec fn lexemes_of(s: Seq<char>) -> Seq<Seq<char>> {
    Seq::new(split_commas(s).len(), |i: int| lower_of(trim_spec(split_commas(s)[i])))
}

/// One lowercase prefix string that matches user words to a category.
struct Lexeme {
    text: String,
}

impl Lexeme {
    /// Builds a lexeme: the given text, trimmed and lowercased.
    fn from_text(text: &str) -> (r: Lexeme)
        ensures
            r.text@ == lower_of(trim_spec(text@)),
    {
        Lexeme { text: lower_str(trim_str(text)) }
    }
}

/// The ordered lexeme list of one category.
pub struct LexemeList {
    items: Vec<Lexeme>,
}

impl View for LexemeList {
    type V = Seq<Seq<char>>;

    closed spec fn view(&self) -> Seq<Seq<char>> {
        Seq::new(self.items@.len(), |i: int| self.items@[i].text@)
    }
}

impl LexemeList {
    /// Parses a comma-separated lexeme string; every piece is trimmed
    /// and lowercased.
    pub fn from_text(text: &str) -> (r: LexemeList)
        ensures
            r@ == lexemes_of(text@),
    {
        let n = text.unicode_len();
        let mut items: Vec<Lexeme> = Vec::new();
        let mut pos: usize = 0;
        let ghost mut done: Seq<Seq<char>> = Seq::empty();
        proof {
            assert(text@.subrange(0, n as int) =~= text@);
            assert(done + split_commas(text@) =~= split_commas(text@));
        }
        loop
            invariant_except_break
                split_commas(text@) == done + split_commas(text@.subrange(pos as int, n as int)),
                items@.len() == done.len(),
                forall|i: int|
                    0 <= i < done.len() ==> items@[i].text@ == lower_of(trim_spec(done[i])),
            invariant
                n == text@.len(),
                pos <= n,
            ensures
                items@.len() == split_commas(text@).len(),
                forall|i: int|
                    0 <= i < items@.len() ==> items@[i].text@ == lower_of(
                        trim_spec(split_commas(text@)[i]),
                    ),
            decreases n - pos,
        {
            let ghost rest = text@.subrange(pos as int, n as int);
            let mut k: usize = pos;
            while k < n && !(text.get_char(k) == ',')
                invariant
                    n == text@.len(),
                    pos <= k <= n,
                    forall|p: int| pos <= p < k ==> text@[p] != ',',
                decreases n - k,
            {
                k += 1;
            }
            proof {
                assert(forall|p: int| 0 <= p < rest.len() ==> rest[p] == text@[pos + p]);
                lemma_sep_free_len_at(rest, ',', k - pos);
            }
            let ghost piece = text@.subrange(pos as int, k as int);
            proof {
                assert(piece =~= rest.subrange(0, k - pos));
            }
            items.push(Lexeme::from_text(text.substring_char(pos, k)));
            if k == n {
                proof {
                    assert(rest =~= piece);
                    assert(split_commas(rest) == seq![piece]);
                    assert(done + seq![piece] =~= done.push(piece));
                    assert(split_commas(text@) =~= done.push(piece));
                    done = done.push(piece);
                }
                break;
            }
            proof {
                assert(rest.subrange(k - pos + 1, rest.len() as int) =~= text@.subrange(
                    k + 1,
                    n as int,
                ));
                assert(split_commas(rest) == seq![piece] + split_commas(
                    text@.subrange(k + 1, n as int),
                ));
                assert(done + (seq![piece] + split_commas(text@.subrange(k + 1, n as int)))
                    =~= done.push(piece) + split_commas(text@.subrange(k + 1, n as int)));
                done = done.push(piece);
            }
            pos = k + 1;
        }
        let r = LexemeList { items };
        proof {
            assert(r@ =~= lexemes_of(text@));
        }
        r
    }
}

/// The mathematical form of a category: its name, its numeric priority,
/// and its lexeme prefixes.
pub struct CategoryV {
    pub name: Seq<char>,
    pub priority: int,
    pub lexemes: Seq<Seq<char>>,
}

/// One spending category.
pub struct Category {
    /// The display name of the category.
    pub name: String,
    /// The numeric priority; a smaller value sorts above a larger one.
    pub priority: i32,
    /// The lexeme prefixes that match words to this category.
    pub lexemes: LexemeList,
}

impl View for Category {
    type V = CategoryV;

    open spec fn view(&self) -> CategoryV {
        CategoryV { name: self.name@, priority: self.priority as int, lexemes: self.lexemes@ }
    }
}

impl DeepView for Category {
    type V = CategoryV;

    open spec fn deep_view(&self) -> CategoryV {
        self.view()
    }
}

/// The category matches the word: some lexeme is a prefix of the word
/// once the word is trimmed and lowercased.
pub open spec fn cat_match_text(c: CategoryV, w: Seq<char>) -> bool {
    exists|i: int| 0 <= i < c.lexemes.len() && c.lexemes[i].is_prefix_of(lower_of(trim_spec(w)))
}

/// `a` sorts above `b`: a numerically smaller priority wins, and equal
/// priorities are broken in favor of the lexicographically greater name.
pub open spec fn cat_beats(a: CategoryV, b: CategoryV) -> bool {
    a.priority < b.priority || (a.priority == b.priority && lex_lt(b.name, a.name))
}

/// Two categories with the same priority and name: the table treats them
/// as duplicates.
pub open spec fn same_key(a: CategoryV, b: CategoryV) -> bool {
    a.priority == b.priority && a.name == b.name
}

/// Categories with different keys are strictly ordered: exactly one of
/// the two sorts above the other.
pub proof fn lemma_cat_trichotomy(a: CategoryV, b: CategoryV)
    requires
        !same_key(a, b),
    ensures
        cat_beats(a, b) != cat_beats(b, a),
{
    lemma_lex_trichotomy(a.name, b.name);
}

impl Category {
    /// Builds a category from its name, priority and lexeme list.
    pub fn new(name: String, priority: i32, lexemes: LexemeList) -> (r: Category)
        ensures
            r@.name == name@,
            r@.priority == priority as int,
            r@.lexemes == lexemes@,
    {
        Category { name, priority, lexemes }
    }

    /// Whether some lexeme of this category is a prefix of the trimmed,
    /// lowercased word.
    pub fn match_word(&self, word: &str) -> (r: bool)
        ensures
            r == cat_match_text(self@, word@),
    {
        let lowered = lower_str(trim_str(word));
        let n = self.lexemes.items.len();
        let mut i: usize = 0;
        while i < n
            invariant
                n == self.lexemes.items@.len(),
                i <= n,
                lowered@ == lower_of(trim_spec(word@)),
                forall|j: int|
                    0 <= j < i ==> !(#[trigger] self@.lexemes[j]).is_prefix_of(lowered@),
            decreases n - i,
        {
            if str_starts_with(lowered.as_str(), self.lexemes.items[i].text.as_str()) {
                assert(self@.lexemes[i as int].is_prefix_of(lower_of(trim_spec(word@))));
                return true;
            }
            i += 1;
        }
        false
    }
}

impl Category {
    /// Reads a category from one semicolon-separated line: name,
    /// numeric priority, then the comma-separated lexemes.  A line
    /// without exactly three fields, or whose priority is no 32-bit
    /// integer, is rejected.
    pub fn from_csv_line(line: &str) -> (r: Option<Category>)
        ensures
            ({
                let pieces = split_seps(line@, ';');
                &&& (r is Some <==> (pieces.len() == 3 && crate::events::amount_int_form(
                    pieces[1],
                ) && -0x8000_0000 <= crate::events::amount_int_val(pieces[1]) <= 0x7fff_ffff))
                &&& r matches Some(c) ==> c@.name == pieces[0] && c@.priority
                    == crate::events::amount_int_val(pieces[1]) && c@.lexemes == lexemes_of(
                    pieces[2],
                )
            }),
    {
        let n = line.unicode_len();
        let mut i: usize = 0;
        while i < n && !(line.get_char(i) == ';')
            invariant
                n == line@.len(),
                i <= n,
                forall|p: int| 0 <= p < i ==> line@[p] != ';',
            decreases n - i,
        {
            i += 1;
        }
        proof {
            lemma_sep_free_len_at(line@, ';', i as int);
        }
        if i == n {
            // a single field only
            return None;
        }
        let ghost rest1 = line@.subrange(i + 1, n as int);
        let mut j: usize = i + 1;
        while j < n && !(line.get_char(j) == ';')
            invariant
                n == line@.len(),
                i + 1 <= j <= n,
                forall|p: int| i + 1 <= p < j ==> line@[p] != ';',
            decreases n - j,
        {
            j += 1;
        }
        proof {
            assert(forall|p: int| 0 <= p < rest1.len() ==> rest1[p] == line@[i + 1 + p]);
            lemma_sep_free_len_at(rest1, ';', j - i - 1);
        }
        if j == n {
            // two fields only
            proof {
                assert(split_seps(line@, ';').len() == 2) by {
                    assert(split_seps(rest1, ';') == seq![rest1]);
                }
            }
            return None;
        }
        let ghost rest2 = line@.subrange(j + 1, n as int);
        let mut k: usize = j + 1;
        while k < n && !(line.get_char(k) == ';')
            invariant
                n == line@.len(),
                j + 1 <= k <= n,
                forall|p: int| j + 1 <= p < k ==> line@[p] != ';',
            decreases n - k,
        {
            k += 1;
        }
        proof {
            assert(forall|p: int| 0 <= p < rest2.len() ==> rest2[p] == line@[j + 1 + p]);
            assert(rest1.subrange(j - i, rest1.len() as int) =~= rest2);
        }
        let ghost pieces = split_seps(line@, ';');
        proof {
            assert(pieces == seq![line@.subrange(0, i as int)] + split_seps(rest1, ';'));
            assert(split_seps(rest1, ';') == seq![rest1.subrange(0, j - i - 1)] + split_seps(
                rest1.subrange(j - i, rest1.len() as int),
                ';',
            ));
            assert(split_seps(rest1.subrange(j - i, rest1.len() as int), ';') == split_seps(
                rest2,
                ';',
            ));
            assert(rest1.subrange(0, j - i - 1) =~= line@.subrange(i + 1, j as int));
        }
        if k < n {
            // four or more fields
            proof {
                lemma_sep_free_len_at(rest2, ';', k - j - 1);
                lemma_split_seps_len(rest2.subrange(k - j, rest2.len() as int), ';');
                assert(split_seps(rest2, ';') == seq![rest2.subrange(0, k - j - 1)] + split_seps(
                    rest2.subrange(k - j, rest2.len() as int),
                    ';',
                ));
                assert(split_seps(rest2, ';').len() >= 2);
                assert(pieces.len() >= 4);
            }
            return None;
        }
        proof {
            lemma_sep_free_len_at(rest2, ';', rest2.len() as int);
            assert(split_seps(rest2, ';') == seq![rest2]);
            assert(pieces =~= seq![
                line@.subrange(0, i as int),
                line@.subrange(i + 1, j as int),
                rest2,
            ]);
        }
        let priority = match crate::events::parse_i32_text(line.substring_char(i + 1, j)) {
            Ok(v) => v,
            Err(_) => {
                return None;
            },
        };
        let name = String::from_str(line.substring_char(0, i));
        let lexemes = LexemeList::from_text(line.substring_char(j + 1, n));
        Some(Category::new(name, priority, lexemes))
    }
}

fn beats(a: &Category, b: &Category) -> (r: bool)
    ensures
        r == cat_beats(a@, b@),
{
    a.priority < b.priority || (a.priority == b.priority && str_lt(
        b.name.as_str(),
        a.name.as_str(),
    ))
}

fn keys_equal(a: &Category, b: &Category) -> (r: bool)
    ensures
        r == same_key(a@, b@),
{
    a.priority == b.priority && str_eq(a.name.as_str(), b.name.as_str())
}

/// The sort-above relation is transitive.
pub proof fn lemma_cat_beats_trans(a: CategoryV, b: CategoryV, c: CategoryV)
    requires
        cat_beats(a, b),
        cat_beats(b, c),
    ensures
        cat_beats(a, c),
{
    if a.priority == b.priority && b.priority == c.priority {
        crate::text::lemma_lex_trans(c.name, b.name, a.name);
    }
}

/// No two categories of the table share a priority and a name.
pub open spec fn no_dup_keys(cats: Seq<CategoryV>) -> bool {
    forall|i: int, j: int|
        0 <= i < j < cats.len() ==> !same_key(#[trigger] cats[i], #[trigger] cats[j])
}

/// `cats[i]` matches some word among the first `tn` tokens.
pub open spec fn is_candidate_upto(
    cats: Seq<CategoryV>,
    toks: Seq<TokenV>,
    i: int,
    tn: int,
) -> bool {
    0 <= i < cats.len() && exists|k: int|
        0 <= k < tn <= toks.len() && toks[k] is Word && cat_match_text(cats[i], toks[k]->Word_0)
}

/// `cats[i]` matches some word token of the message.
pub open spec fn is_candidate(cats: Seq<CategoryV>, toks: Seq<TokenV>, i: int) -> bool {
    is_candidate_upto(cats, toks, i, toks.len() as int)
}

/// What classification selects: the matching category that sorts highest
/// under priority-then-name order, or, with no match anywhere, the
/// category the whole table sorts lowest.
pub open spec fn spec_selected(cats: Seq<CategoryV>, toks: Seq<TokenV>, c: CategoryV) -> bool {
    if exists|i: int| is_candidate(cats, toks, i) {
        exists|i: int|
            #[trigger] is_candidate(cats, toks, i) && cats[i] == c && (forall|j: int|
                is_candidate(cats, toks, j) && cats[j] != c ==> cat_beats(c, cats[j]))
    } else {
        exists|i: int|
            0 <= i < cats.len() && cats[i] == c && (forall|j: int|
                0 <= j < cats.len() && cats[j] != c ==> cat_beats(#[trigger] cats[j], c))
    }
}

/// The index of the category the table sorts lowest: the one every other
/// category sorts above.
fn min_index(v: &Vec<Category>) -> (r: usize)
    requires
        v@.len() >= 1,
        no_dup_keys(v.deep_view()),
    ensures
        r < v@.len(),
        forall|j: int|
            0 <= j < v.deep_view().len() && j != r ==> cat_beats(
                #[trigger] v.deep_view()[j],
                v.deep_view()[r as int],
            ),
{
    let ghost cats = v.deep_view();
    let n = v.len();
    let mut m: usize = 0;
    let mut i: usize = 1;
    while i < n
        invariant
            n == v@.len(),
            cats == v.deep_view(),
            no_dup_keys(cats),
            m < i <= n,
            forall|j: int| 0 <= j < i && j != m ==> cat_beats(#[trigger] cats[j], cats[m as int]),
        decreases n - i,
    {
        if beats(&v[m], &v[i]) {
            proof {
                assert forall|j: int| 0 <= j < i + 1 && j != i implies cat_beats(
                    #[trigger] cats[j],
                    cats[i as int],
                ) by {
                    if j != m {
                        lemma_cat_beats_trans(cats[j], cats[m as int], cats[i as int]);
                    }
                }
            }
            m = i;
        } else {
            proof {
                lemma_cat_trichotomy(cats[m as int], cats[i as int]);
            }
        }
        i += 1;
    }
    m
}

/// Supplies the category table at startup: a flat list of categories
/// from a file, a spreadsheet range, or a hard-coded table.
pub trait CategoryProvider {
    fn categories(&self) -> Vec<Category>;
}

/// Adding one category to the table: a duplicate of an existing
/// (priority, name) key changes nothing.
pub open spec fn add_one(cats: Seq<CategoryV>, c: CategoryV) -> Seq<CategoryV> {
    if exists|i: int| 0 <= i < cats.len() && same_key(#[trigger] cats[i], c) {
        cats
    } else {
        cats.push(c)
    }
}

/// Adding a list of categories to the table, in order.
pub open spec fn add_all(cats: Seq<CategoryV>, list: Seq<CategoryV>) -> Seq<CategoryV>
    decreases list.len(),
{
    if list.len() == 0 {
        cats
    } else {
        add_all(add_one(cats, list[0]), list.subrange(1, list.len() as int))
    }
}

/// The classifier: holds the category table once loaded, and scores
/// token streams against it.
pub struct Categorizer {
    categories: Option<Vec<Category>>,
}

impl Categorizer {
    /// The table has been loaded with at least one category.
    pub closed spec fn loaded(self) -> bool {
        self.categories is Some
    }

    /// The loaded categories, in the order they were added.
    pub closed spec fn cats(self) -> Seq<CategoryV> {
        match self.categories {
            Some(v) => v.deep_view(),
            None => Seq::empty(),
        }
    }

    /// The classifier invariant: a loaded table is non-empty, and no two
    /// categories share a (priority, name) key.
    pub closed spec fn wf(self) -> bool {
        (self.categories matches Some(v) ==> v@.len() >= 1) && no_dup_keys(self.cats())
    }

    /// An empty, unloaded classifier.
    pub fn new() -> (r: Categorizer)
        ensures
            r.wf(),
            !r.loaded(),
            r.cats() == Seq::<CategoryV>::empty(),
    {
        let r = Categorizer { categories: None };
        proof {
            assert(r.cats() =~= Seq::<CategoryV>::empty());
        }
        r
    }

    /// Whether the table has been loaded.
    pub fn is_loaded(&self) -> (r: bool)
        ensures
            r == self.loaded(),
    {
        self.categories.is_some()
    }

    /// Adds one category; a duplicate (priority, name) key is dropped
    /// silently.  Reports whether the category entered the table.
    pub fn add_category(&mut self, category: Category) -> (r: bool)
        requires
            old(self).wf(),
        ensures
            final(self).wf(),
            final(self).loaded(),
            final(self).cats() == add_one(old(self).cats(), category@),
            r == (final(self).cats() != old(self).cats()),
    {
        let ghost cs = old(self).cats();
        let mut v: Vec<Category> = match self.categories.take() {
            None => Vec::new(),
            Some(v0) => v0,
        };
        proof {
            assert(cs =~= v.deep_view());
        }
        let n = v.len();
        let mut i: usize = 0;
        while i < n
            invariant
                n == v@.len(),
                i <= n,
                cs == v.deep_view(),
                cs == old(self).cats(),
                no_dup_keys(cs),
                forall|j: int| 0 <= j < i ==> !same_key(#[trigger] cs[j], category@),
            decreases n - i,
        {
            if keys_equal(&v[i], &category) {
                assert(same_key(cs[i as int], category@));
                self.categories = Some(v);
                proof {
                    assert(self.cats() =~= cs);
                    assert(no_dup_keys(cs));
                    assert(add_one(cs, category@) == cs);
                }
                return false;
            }
            i += 1;
        }
        v.push(category);
        self.categories = Some(v);
        proof {
            assert(self.cats() =~= cs.push(category@));
            assert(self.cats().len() == cs.len() + 1);
            assert(self.cats() != cs);
            assert(no_dup_keys(self.cats())) by {
                assert forall|a: int, b: int|
                    0 <= a < b < self.cats().len() implies !same_key(
                    #[trigger] self.cats()[a],
                    #[trigger] self.cats()[b],
                ) by {
                    if b == cs.len() {
                        assert(!same_key(cs[a], category@));
                    }
                }
            }
        }
        true
    }

    /// Loads a whole list of categories, in order, with duplicate keys
    /// dropped.
    pub fn load_category_list(&mut self, list: Vec<Category>)
        requires
            old(self).wf(),
        ensures
            final(self).wf(),
            final(self).cats() == add_all(old(self).cats(), list.deep_view()),
            final(self).loaded() == (old(self).loaded() || list@.len() > 0),
    {
        let ghost whole = list.deep_view();
        let mut list = list;
        proof {
            assert(list.deep_view() =~= whole);
        }
        while list.len() > 0
            invariant
                self.wf(),
                add_all(old(self).cats(), whole) == add_all(self.cats(), list.deep_view()),
                old(self).loaded() || whole.len() > list@.len() ==> self.loaded(),
                whole.len() >= list@.len(),
            decreases list.len(),
        {
            let ghost before = list.deep_view();
            let c = list.remove(0);
            proof {
                assert(list.deep_view() =~= before.subrange(1, before.len() as int));
            }
            self.add_category(c);
        }
        proof {
            assert(list.deep_view() =~= Seq::<CategoryV>::empty());
        }
    }

    /// Loads the categories an external provider supplies.  Whatever the
    /// provider returns, the table stays well-formed, grows by that list,
    /// and never becomes unloaded.
    pub fn load_categories<P: CategoryProvider>(&mut self, provider: &P)
        requires
            old(self).wf(),
        ensures
            final(self).wf(),
            exists|l: Seq<CategoryV>|
                final(self).cats() == add_all(old(self).cats(), l) && final(self).loaded() == (
                old(self).loaded() || l.len() > 0),
    {
        let list = provider.categories();
        let ghost l = list.deep_view();
        self.load_category_list(list);
        proof {
            assert(final(self).cats() == add_all(old(self).cats(), l) && final(self).loaded()
                == (old(self).loaded() || l.len() > 0));
        }
    }

    /// Classifies a token stream.  With the table loaded this always
    /// selects a category: the highest-sorting match, or, when no word
    /// matches anything, the lowest-sorting category as the fallback.
    pub fn classify(&self, tokens: &MessageTokens) -> (r: Option<&Category>)
        requires
            self.wf(),
            self.loaded(),
        ensures
            r is Some,
            r matches Some(c) ==> spec_selected(self.cats(), tokens.deep_view(), c@),
    {
        let ghost cats = self.cats();
        let ghost toks = tokens.deep_view();
        let v = self.categories.as_ref().unwrap();
        let nt = tokens.len();
        let nc = v.len();
        proof {
            assert(cats.len() == nc);
            assert(toks.len() == nt);
        }
        let mut best: usize = nc;
        let mut ti: usize = 0;
        while ti < nt
            invariant
                nc == v@.len(),
                nt == tokens@.len(),
                cats == v.deep_view(),
                toks == tokens.deep_view(),
                no_dup_keys(cats),
                ti <= nt,
                best <= nc,
                best == nc ==> forall|i: int| !is_candidate_upto(cats, toks, i, ti as int),
                best < nc ==> is_candidate_upto(cats, toks, best as int, ti as int) && (forall|
                    j: int,
                |
                    is_candidate_upto(cats, toks, j, ti as int) && cats[j] != cats[best as int]
                        ==> cat_beats(cats[best as int], cats[j])),
            decreases nt - ti,
        {
            match &tokens[ti] {
                Token::Word(w) => {
                    let mut ci: usize = 0;
                    proof {
                        assert forall|i: int|
                            cand_step(cats, toks, i, ti as int, 0) implies is_candidate_upto(
                            cats,
                            toks,
                            i,
                            ti as int,
                        ) by {}
                    }
                    while ci < nc
                        invariant
                            nc == v@.len(),
                            nt == tokens@.len(),
                            ti < nt,
                            cats == v.deep_view(),
                            toks == tokens.deep_view(),
                            no_dup_keys(cats),
                            toks[ti as int] is Word,
                            toks[ti as int]->Word_0 == w@,
                            ci <= nc,
                            best <= nc,
                            best == nc ==> forall|i: int|
                                !cand_step(cats, toks, i, ti as int, ci as int),
                            best < nc ==> cand_step(cats, toks, best as int, ti as int, ci as int)
                                && (forall|j: int|
                                cand_step(cats, toks, j, ti as int, ci as int) && cats[j]
                                    != cats[best as int] ==> cat_beats(
                                    cats[best as int],
                                    cats[j],
                                )),
                        decreases nc - ci,
                    {
                        let matched = v[ci].match_word(w.as_str());
                        if matched {
                            assert(cand_step(cats, toks, ci as int, ti as int, ci as int + 1));
                            if best == nc {
                                best = ci;
                                proof {
                                    assert forall|j: int|
                                        cand_step(cats, toks, j, ti as int, ci as int + 1)
                                            && cats[j] != cats[ci as int] implies cat_beats(
                                        cats[ci as int],
                                        cats[j],
                                    ) by {
                                        if j != ci {
                                            assert(cand_step(cats, toks, j, ti as int, ci as int));
                                            assert(false);
                                        }
                                    }
                                }
                            } else if beats(&v[ci], &v[best]) {
                                proof {
                                    assert forall|j: int|
                                        cand_step(cats, toks, j, ti as int, ci as int + 1)
                                            && cats[j] != cats[ci as int] implies cat_beats(
                                        cats[ci as int],
                                        cats[j],
                                    ) by {
                                        if j != ci {
                                            assert(cand_step(cats, toks, j, ti as int, ci as int));
                                            if cats[j] != cats[best as int] {
                                                lemma_cat_beats_trans(
                                                    cats[ci as int],
                                                    cats[best as int],
                                                    cats[j],
                                                );
                                            }
                                        }
                                    }
                                }
                                best = ci;
                            } else {
                                proof {
                                    if cats[ci as int] != cats[best as int] {
                                        if same_key(cats[ci as int], cats[best as int]) {
                                            lemma_same_key_same_index(cats, ci as int, best as int);
                                        }
                                        lemma_cat_trichotomy(cats[best as int], cats[ci as int]);
                                    }
                                    assert forall|j: int|
                                        cand_step(cats, toks, j, ti as int, ci as int + 1)
                                            && cats[j] != cats[best as int] implies cat_beats(
                                        cats[best as int],
                                        cats[j],
                                    ) by {
                                        if j != ci {
                                            assert(cand_step(cats, toks, j, ti as int, ci as int));
                                        }
                                    }
                                }
                            }
                        } else {
                            proof {
                                if best == nc {
                                    assert forall|i: int|
                                        !(#[trigger] cand_step(
                                            cats,
                                            toks,
                                            i,
                                            ti as int,
                                            ci as int + 1,
                                        )) by {
                                        if cand_step(cats, toks, i, ti as int, ci as int + 1) {
                                            if i == ci {
                                                assert(!cat_match_text(
                                                    cats[ci as int],
                                                    toks[ti as int]->Word_0,
                                                ));
                                                assert(is_candidate_upto(
                                                    cats,
                                                    toks,
                                                    i,
                                                    ti as int,
                                                ));
                                            }
                                            assert(cand_step(cats, toks, i, ti as int, ci as int));
                                            assert(false);
                                        }
                                    }
                                } else {
                                    assert forall|j: int|
                                        cand_step(cats, toks, j, ti as int, ci as int + 1)
                                            && cats[j] != cats[best as int] implies cat_beats(
                                        cats[best as int],
                                        cats[j],
                                    ) by {
                                        if j == ci {
                                            assert(!cat_match_text(
                                                cats[ci as int],
                                                toks[ti as int]->Word_0,
                                            ));
                                            assert(is_candidate_upto(cats, toks, j, ti as int));
                                        }
                                        assert(cand_step(cats, toks, j, ti as int, ci as int));
                                    }
                                }
                            }
                        }
                        ci += 1;
                    }
                    proof {
                        lemma_cand_step_full(cats, toks, ti as int);
                        if best == nc {
                            assert forall|i: int|
                                !(#[trigger] is_candidate_upto(cats, toks, i, ti as int + 1)) by {
                                assert(!cand_step(cats, toks, i, ti as int, cats.len() as int));
                            }
                        } else {
                            assert(cand_step(cats, toks, best as int, ti as int, cats.len() as int));
                            assert(is_candidate_upto(cats, toks, best as int, ti as int + 1));
                            assert forall|j: int|
                                is_candidate_upto(cats, toks, j, ti as int + 1) && cats[j]
                                    != cats[best as int] implies cat_beats(
                                cats[best as int],
                                cats[j],
                            ) by {
                                assert(cand_step(cats, toks, j, ti as int, cats.len() as int));
                            }
                        }
                    }
                },
                _ => {
                    proof {
                        lemma_cand_step_full(cats, toks, ti as int);
                        if best == nc {
                            assert forall|i: int|
                                !(#[trigger] is_candidate_upto(cats, toks, i, ti as int + 1)) by {
                                assert(!cand_step(cats, toks, i, ti as int, cats.len() as int));
                            }
                        } else {
                            assert(is_candidate_upto(cats, toks, best as int, ti as int + 1));
                            assert forall|j: int|
                                is_candidate_upto(cats, toks, j, ti as int + 1) && cats[j]
                                    != cats[best as int] implies cat_beats(
                                cats[best as int],
                                cats[j],
                            ) by {
                                assert(cand_step(cats, toks, j, ti as int, cats.len() as int));
                                assert(is_candidate_upto(cats, toks, j, ti as int));
                            }
                        }
                    }
                },
            }
            ti += 1;
        }
        if best < nc {
            let c = &v[best];
            proof {
                assert(is_candidate_upto(cats, toks, best as int, toks.len() as int));
                assert(is_candidate(cats, toks, best as int));
                assert(c@ == cats[best as int]);
                assert forall|j: int|
                    is_candidate(cats, toks, j) && cats[j] != c@ implies cat_beats(
                    c@,
                    cats[j],
                ) by {
                    assert(is_candidate_upto(cats, toks, j, nt as int));
                }
                assert(spec_selected(cats, toks, c@));
            }
            Some(c)
        } else {
            let m = min_index(v);
            let c = &v[m];
            proof {
                assert forall|i: int| !(#[trigger] is_candidate(cats, toks, i)) by {
                    assert(!is_candidate_upto(cats, toks, i, nt as int));
                }
                assert(c@ == cats[m as int]);
                assert forall|j: int|
                    0 <= j < cats.len() && cats[j] != c@ implies cat_beats(
                    #[trigger] cats[j],
                    c@,
                ) by {
                    if j != m {
                        assert(cat_beats(v.deep_view()[j], v.deep_view()[m as int]));
                    }
                }
                assert(spec_selected(cats, toks, c@));
            }
            Some(c)
        }
    }

    /// Classifies a raw message: tokenizes it and classifies the tokens.
    pub fn classify_msg(&self, text: &str) -> (r: Option<&Category>)
        requires
            self.wf(),
            self.loaded(),
        ensures
            r is Some,
            r matches Some(c) ==> spec_selected(self.cats(), spec_tokenize(text@), c@),
    {
        self.classify(&tokenize(text))
    }

    /// The fallback category: the one the table sorts lowest.  Nothing
    /// is selected while the table is unloaded.
    pub fn default_category(&self) -> (r: Option<&Category>)
        requires
            self.wf(),
        ensures
            (r is Some) == self.loaded(),
            r matches Some(c) ==> (exists|i: int|
                0 <= i < self.cats().len() && self.cats()[i] == c@) && (forall|j: int|
                0 <= j < self.cats().len() && self.cats()[j] != c@ ==> cat_beats(
                    #[trigger] self.cats()[j],
                    c@,
                )),
    {
        match &self.categories {
            None => None,
            Some(v) => {
                let m = min_index(v);
                let c = &v[m];
                proof {
                    assert(self.cats() == v.deep_view());
                    assert(c@ == self.cats()[m as int]);
                    assert forall|j: int|
                        0 <= j < self.cats().len() && self.cats()[j] != c@ implies cat_beats(
                        #[trigger] self.cats()[j],
                        c@,
                    ) by {
                        if j != m {
                            assert(cat_beats(v.deep_view()[j], v.deep_view()[m as int]));
                        }
                    }
                }
                Some(c)
            },
        }
    }
}

/// A candidate seen while the scan stands at token `ti`, category `ci`:
/// a full match among the first `ti` tokens, or a match of a category
/// before `ci` against token `ti` itself.
pub open spec fn cand_step(
    cats: Seq<CategoryV>,
    toks: Seq<TokenV>,
    i: int,
    ti: int,
    ci: int,
) -> bool {
    is_candidate_upto(cats, toks, i, ti) || (0 <= i < ci && i < cats.len() && 0 <= ti
        < toks.len() && toks[ti] is Word && cat_match_text(cats[i], toks[ti]->Word_0))
}

proof fn lemma_cand_step_full(cats: Seq<CategoryV>, toks: Seq<TokenV>, ti: int)
    requires
        0 <= ti < toks.len(),
    ensures
        forall|i: int|
            is_candidate_upto(cats, toks, i, ti + 1) == cand_step(
                cats,
                toks,
                i,
                ti,
                cats.len() as int,
            ),
{
    assert forall|i: int|
        is_candidate_upto(cats, toks, i, ti + 1) == cand_step(
            cats,
            toks,
            i,
            ti,
            cats.len() as int,
        ) by {
        if is_candidate_upto(cats, toks, i, ti + 1) {
            let k = choose|k: int|
                0 <= k < ti + 1 <= toks.len() && toks[k] is Word && cat_match_text(
                    cats[i],
                    toks[k]->Word_0,
                );
            if k < ti {
                assert(is_candidate_upto(cats, toks, i, ti));
            }
        }
        if cand_step(cats, toks, i, ti, cats.len() as int) {
            if is_candidate_upto(cats, toks, i, ti) {
                let k = choose|k: int|
                    0 <= k < ti <= toks.len() && toks[k] is Word && cat_match_text(
                        cats[i],
                        toks[k]->Word_0,
                    );
                assert(0 <= k < ti + 1 <= toks.len() && toks[k] is Word && cat_match_text(
                    cats[i],
                    toks[k]->Word_0,
                ));
            } else {
                assert(0 <= ti < ti + 1 <= toks.len() && toks[ti] is Word && cat_match_text(
                    cats[i],
                    toks[ti]->Word_0,
                ));
            }
        }
    }
}

/// In a table without duplicate keys, equal keys name one index.
proof fn lemma_same_key_same_index(cats: Seq<CategoryV>, i: int, j: int)
    requires
        no_dup_keys(cats),
        0 <= i < cats.len(),
        0 <= j < cats.len(),
        same_key(cats[i], cats[j]),
    ensures
        i == j,
{
}

} // verus!
