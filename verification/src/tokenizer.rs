//! Lexical tokenization of a raw message: whitespace-separated chunks
//! become words or numeric amounts, with a trailing run of punctuation
//! split off into a token of its own.

use vstd::prelude::*;
use vstd::string::StrSliceExecFns;
use vstd::string::StringExecFns;

use crate::events::Amount;
use crate::events::amount_chars;
use crate::events::normalize_amount;
use crate::text::ascii_ieq;
use crate::text::is_sign;
use crate::text::is_sign_char;
use crate::text::is_space;
use crate::text::is_space_char;
use crate::text::str_ieq;

verus! {

/// One classified unit of a tokenized message.
#[derive(Debug)]
pub enum Token {
    /// A chunk that is not a valid amount, original case preserved.
    Word(String),
    /// A chunk that parsed as a numeric amount.
    Amount(Amount),
    /// The run of punctuation stripped from the end of the preceding
    /// word or amount.
    TrailingSigns(String),
}

/// The mathematical form of a token: its kind and its characters.
pub enum TokenV {
    Word(Seq<char>),
    Amount(Seq<char>),
    TrailingSigns(Seq<char>),
}

impl View for Token {
    type V = TokenV;

    open spec fn view(&self) -> TokenV {
        match self {
            Token::Word(s) => TokenV::Word(s@),
            Token::Amount(a) => TokenV::Amount(a@),
            Token::TrailingSigns(s) => TokenV::TrailingSigns(s@),
        }
    }
}

impl DeepView for Token {
    type V = TokenV;

    open spec fn deep_view(&self) -> TokenV {
        self.view()
    }
}

impl Clone for Token {
    fn clone(&self) -> (r: Self)
        ensures
            r@ == self@,
    {
        match self {
            Token::Word(s) => Token::Word(s.clone()),
            Token::Amount(a) => Token::Amount(a.clone()),
            Token::TrailingSigns(s) => Token::TrailingSigns(s.clone()),
        }
    }
}

impl PartialEq for Token {
    fn eq(&self, other: &Token) -> (r: bool) {
        match (self, other) {
            (Token::Word(a), Token::Word(b)) => a.eq(b),
            (Token::Amount(a), Token::Amount(b)) => a.eq(b),
            (Token::TrailingSigns(a), Token::TrailingSigns(b)) => a.eq(b),
            _ => false,
        }
    }
}

impl vstd::std_specs::cmp::PartialEqSpecImpl for Token {
    open spec fn obeys_eq_spec() -> bool {
        true
    }

    open spec fn eq_spec(&self, other: &Token) -> bool {
        self@ == other@
    }
}

/// The token sequence of one message.
pub type MessageTokens = Vec<Token>;

/// The token is a word equal to `w` up to ASCII case.
pub open spec fn tokv_is_word(t: TokenV, w: Seq<char>) -> bool {
    t matches TokenV::Word(x) && ascii_ieq(x, w)
}

impl Token {
    /// Whether this token is a word equal to `w` up to ASCII case.
    pub fn is_word(&self, w: &str) -> (r: bool)
        ensures
            r == tokv_is_word(self@, w@),
    {
        match self {
            Token::Word(x) => str_ieq(x.as_str(), w),
            _ => false,
        }
    }

    /// Whether this token is a word equal to one of `ws` up to ASCII
    /// case.
    pub fn any_of_words(&self, ws: &[&str]) -> (r: bool)
        ensures
            r == exists|i: int| 0 <= i < ws@.len() && tokv_is_word(self@, ws@[i]@),
    {
        let n = ws.len();
        let mut i: usize = 0;
        while i < n
            invariant
                n == ws@.len(),
                i <= n,
                forall|j: int| 0 <= j < i ==> !tokv_is_word(self@, ws@[j]@),
            decreases n - i,
        {
            if self.is_word(ws[i]) {
                return true;
            }
            i += 1;
        }
        false
    }
}

/// The length of the leading whitespace-free chunk of `s`.
pub open spec fn chunk_len(s: Seq<char>) -> int
    decreases s.len(),
{
    if s.len() == 0 {
        0
    } else if is_space_char(s[0]) {
        0
    } else {
        1 + chunk_len(s.subrange(1, s.len() as int))
    }
}

/// The leading chunk runs to the first whitespace character, or to the
/// end of the text.
proof fn lemma_chunk_len(s: Seq<char>)
    ensures
        0 <= chunk_len(s) <= s.len(),
        forall|i: int| 0 <= i < chunk_len(s) ==> !is_space_char(s[i]),
        chunk_len(s) < s.len() ==> is_space_char(s[chunk_len(s)]),
    decreases s.len(),
{
    if s.len() > 0 && !is_space_char(s[0]) {
        let t = s.subrange(1, s.len() as int);
        lemma_chunk_len(t);
        assert forall|i: int| 0 <= i < chunk_len(s) implies !is_space_char(s[i]) by {
            if i >= 1 {
                assert(t[i - 1] == s[i]);
            }
        }
        if chunk_len(s) < s.len() {
            assert(t[chunk_len(t)] == s[chunk_len(s)]);
        }
    }
}

/// A position before which no character is whitespace, and at which the
/// text ends or whitespace stands, is the chunk length.
proof fn lemma_chunk_len_at(s: Seq<char>, k: int)
    requires
        0 <= k <= s.len(),
        forall|i: int| 0 <= i < k ==> !is_space_char(s[i]),
        k == s.len() || is_space_char(s[k]),
    ensures
        chunk_len(s) == k,
    decreases k,
{
    if k == 0 {
    } else {
        let t = s.subrange(1, s.len() as int);
        assert(forall|i: int| 0 <= i < t.len() ==> t[i] == s[i + 1]);
        lemma_chunk_len_at(t, k - 1);
    }
}

/// `s` with its trailing run of punctuation removed.
pub open spec fn strip_signs(s: Seq<char>) -> Seq<char>
    decreases s.len(),
{
    if s.len() > 0 && is_sign_char(s[s.len() - 1]) {
        strip_signs(s.subrange(0, s.len() - 1))
    } else {
        s
    }
}

/// A position after which every character is punctuation, and before
/// which none stands or a non-punctuation character stands, marks the
/// stripped prefix.
proof fn lemma_strip_signs_at(s: Seq<char>, k: int)
    requires
        0 <= k <= s.len(),
        forall|i: int| k <= i < s.len() ==> is_sign_char(s[i]),
        k == 0 || !is_sign_char(s[k - 1]),
    ensures
        strip_signs(s) == s.subrange(0, k),
    decreases s.len() - k,
{
    if k == s.len() {
        if s.len() == 0 || !is_sign_char(s[s.len() - 1]) {
            assert(s =~= s.subrange(0, s.len() as int));
        }
    } else {
        let t = s.subrange(0, s.len() - 1);
        lemma_strip_signs_at(t, k);
        assert(t.subrange(0, k) =~= s.subrange(0, k));
    }
}

/// The tokens of one whitespace-free chunk: the chunk with its trailing
/// punctuation stripped, as an amount where it parses and a word where it
/// does not, followed by the stripped punctuation where there was any.
pub open spec fn chunk_tokens(chunk: Seq<char>) -> Seq<TokenV> {
    let stripped = strip_signs(chunk);
    let head = if amount_chars(stripped) {
        TokenV::Amount(normalize_amount(stripped))
    } else {
        TokenV::Word(stripped)
    };
    if stripped.len() < chunk.len() {
        seq![head, TokenV::TrailingSigns(chunk.subrange(stripped.len() as int, chunk.len() as int))]
    } else {
        seq![head]
    }
}

/// The tokens of a whole text: whitespace runs separate chunks, and each
/// chunk contributes its tokens in order.
pub open spec fn spec_tokenize(s: Seq<char>) -> Seq<TokenV>
    decreases s.len(),
    via spec_tokenize_decreases
{
    if s.len() == 0 {
        Seq::empty()
    } else if is_space_char(s[0]) {
        spec_tokenize(s.subrange(1, s.len() as int))
    } else {
        chunk_tokens(s.subrange(0, chunk_len(s))) + spec_tokenize(
            s.subrange(chunk_len(s), s.len() as int),
        )
    }
}

#[via_fn]
proof fn spec_tokenize_decreases(s: Seq<char>) {
    lemma_chunk_len(s);
}

/// The textual form of one token.
pub open spec fn tokv_text(t: TokenV) -> Seq<char> {
    match t {
        TokenV::Word(s) => s,
        TokenV::Amount(s) => s,
        TokenV::TrailingSigns(s) => s,
    }
}

/// The textual forms of the tokens at and after position `i`: each word
/// or amount preceded by a single space, trailing punctuation attached
/// directly.
pub open spec fn tokens_text_tail(toks: Seq<TokenV>, i: int) -> Seq<char>
    decreases toks.len() - i,
{
    if i < 0 || i >= toks.len() {
        Seq::empty()
    } else {
        (if toks[i] is TrailingSigns {
            Seq::<char>::empty()
        } else {
            seq![' ']
        }) + tokv_text(toks[i]) + tokens_text_tail(toks, i + 1)
    }
}

/// The reassembled text of a token sequence: the tokens' textual forms,
/// single-space separated, with each trailing-punctuation run attached
/// directly to the token before it.
pub open spec fn tokens_text(toks: Seq<TokenV>) -> Seq<char> {
    if toks.len() == 0 {
        Seq::empty()
    } else {
        tokv_text(toks[0]) + tokens_text_tail(toks, 1)
    }
}

/// What stripping leaves: a prefix that does not end in punctuation,
/// with the stripped suffix all punctuation.
proof fn lemma_strip_signs_props(s: Seq<char>)
    ensures
        strip_signs(s).len() <= s.len(),
        strip_signs(s) == s.subrange(0, strip_signs(s).len() as int),
        forall|j: int| strip_signs(s).len() <= j < s.len() ==> is_sign_char(s[j]),
        strip_signs(s).len() == 0 || !is_sign_char(s[strip_signs(s).len() - 1]),
    decreases s.len(),
{
    if s.len() > 0 && is_sign_char(s[s.len() - 1]) {
        let t = s.subrange(0, s.len() - 1);
        lemma_strip_signs_props(t);
        assert(forall|j: int| 0 <= j < t.len() ==> t[j] == s[j]);
        assert(t.subrange(0, strip_signs(t).len() as int) =~= s.subrange(
            0,
            strip_signs(t).len() as int,
        ));
    } else {
        assert(s.subrange(0, s.len() as int) =~= s);
    }
}

/// The first token of a tokenization is never a trailing-punctuation
/// run: punctuation always attaches to a word or amount before it.
proof fn lemma_tokenize_first_not_signs(s: Seq<char>)
    ensures
        spec_tokenize(s).len() > 0 ==> !(spec_tokenize(s)[0] is TrailingSigns),
    decreases s.len(),
{
    if s.len() == 0 {
    } else if is_space_char(s[0]) {
        lemma_tokenize_first_not_signs(s.subrange(1, s.len() as int));
    } else {
        lemma_chunk_len(s);
        let c = s.subrange(0, chunk_len(s));
        let g = chunk_tokens(c);
        assert(g.len() >= 1);
        assert(!(g[0] is TrailingSigns));
        assert(spec_tokenize(s)[0] == g[0]);
    }
}

proof fn lemma_tail_shift(a: Seq<TokenV>, b: Seq<TokenV>, j: int)
    requires
        0 <= j,
    ensures
        tokens_text_tail(a + b, a.len() + j) == tokens_text_tail(b, j),
    decreases b.len() - j,
{
    if j < b.len() {
        assert((a + b)[a.len() + j] == b[j]);
        lemma_tail_shift(a, b, j + 1);
        assert(a.len() + (j + 1) == (a.len() + j) + 1);
    }
}

proof fn lemma_tokenize_space_prefix(t: Seq<char>)
    ensures
        spec_tokenize(seq![' '] + t) == spec_tokenize(t),
{
    let s = seq![' '] + t;
    assert(s.len() > 0 && s[0] == ' ');
    assert(is_space_char(' '));
    assert(s.subrange(1, s.len() as int) =~= t);
}

proof fn lemma_tokenize_chunk_prefix(c: Seq<char>, x: Seq<char>)
    requires
        c.len() >= 1,
        forall|i: int| 0 <= i < c.len() ==> !is_space_char(c[i]),
        x.len() == 0 || is_space_char(x[0]),
    ensures
        spec_tokenize(c + x) == chunk_tokens(c) + spec_tokenize(x),
{
    let s = c + x;
    assert(forall|i: int| 0 <= i < c.len() ==> s[i] == c[i]);
    lemma_chunk_len_at(s, c.len() as int);
    assert(s.subrange(0, c.len() as int) =~= c);
    assert(s.subrange(c.len() as int, s.len() as int) =~= x);
    assert(!is_space_char(s[0]));
}

/// Tokenization is idempotent over already-tokenized text: reassemble
/// the tokens of any text — words and amounts single-space separated,
/// trailing punctuation attached to the token before it — and tokenizing
/// the reassembled text yields exactly the same token sequence.
#[verifier::rlimit(100)]
pub proof fn lemma_tokenize_idempotent(s: Seq<char>)
    ensures
        spec_tokenize(tokens_text(spec_tokenize(s))) == spec_tokenize(s),
    decreases s.len(),
{
    if s.len() == 0 {
        assert(tokens_text(spec_tokenize(s)) == Seq::<char>::empty());
    } else if is_space_char(s[0]) {
        lemma_tokenize_idempotent(s.subrange(1, s.len() as int));
    } else {
        lemma_chunk_len(s);
        let k = chunk_len(s);
        let c = s.subrange(0, k);
        let rest = s.subrange(k, s.len() as int);
        let g = chunk_tokens(c);
        let r = spec_tokenize(rest);
        assert(spec_tokenize(s) == g + r);
        assert(c.len() >= 1);
        assert(forall|i: int| 0 <= i < c.len() ==> c[i] == s[i]);
        assert(forall|i: int| 0 <= i < c.len() ==> !is_space_char(c[i]));
        lemma_strip_signs_props(c);
        let stripped = strip_signs(c);
        let m = stripped.len() as int;
        let signs = c.subrange(m, c.len() as int);
        let ht = if amount_chars(stripped) {
            normalize_amount(stripped)
        } else {
            stripped
        };
        let cp = ht + signs;
        assert(ht.len() == stripped.len());
        assert(forall|i: int| 0 <= i < stripped.len() ==> stripped[i] == c[i]);
        assert forall|i: int| 0 <= i < ht.len() implies !is_space_char(ht[i]) by {
            if amount_chars(stripped) {
                assert(ht[i] == '.' || ht[i] == stripped[i]);
                assert(!is_space_char('.'));
            }
        }
        assert(forall|i: int|
            0 <= i < signs.len() ==> is_sign_char(#[trigger] signs[i]) && !is_space_char(
                signs[i],
            ));
        assert(cp.len() == c.len());
        assert forall|i: int| 0 <= i < cp.len() implies !is_space_char(cp[i]) by {
            if i < ht.len() {
                assert(cp[i] == ht[i]);
            } else {
                assert(cp[i] == signs[i - ht.len()]);
            }
        }
        // stripping the reassembled chunk gives the head text back
        if amount_chars(stripped) {
            crate::events::lemma_amount_last_digit(stripped);
            assert(ht[ht.len() - 1] == '.' || ht[ht.len() - 1] == stripped[stripped.len() - 1]);
            assert(stripped[stripped.len() - 1] != ',');
            assert(ht[ht.len() - 1] == stripped[stripped.len() - 1]);
            assert(!is_sign_char(ht[ht.len() - 1]));
        }
        lemma_strip_signs_at(cp, ht.len() as int);
        assert(cp.subrange(0, ht.len() as int) =~= ht);
        assert(strip_signs(cp) == ht);
        // tokenizing the reassembled chunk gives the same token group
        assert(chunk_tokens(cp) == g) by {
            if amount_chars(stripped) {
                crate::events::lemma_normalize_amount_wf(stripped);
                assert(amount_chars(ht));
                assert(normalize_amount(ht) == ht);
            }
            if m < c.len() {
                assert(cp.subrange(ht.len() as int, cp.len() as int) =~= signs);
                assert(chunk_tokens(cp) =~= g);
            } else {
                assert(chunk_tokens(cp) =~= g);
            }
        }
        // the reassembled text of the whole output
        lemma_tokenize_first_not_signs(rest);
        let tail = tokens_text_tail(r, 0);
        lemma_tail_shift(g, r, 0);
        assert(tokens_text(g + r) == cp + tail) by {
            assert((g + r)[0] == g[0]);
            assert(!(g[0] is TrailingSigns));
            if g.len() == 2 {
                assert((g + r)[1] == g[1]);
                assert(g[1] is TrailingSigns);
                assert(tokv_text(g[1]) == signs);
                assert(tokens_text_tail(g + r, 2) == tokens_text_tail(r, 0));
                assert(tokens_text(g + r) =~= cp + tail);
            } else {
                assert(g.len() == 1);
                assert(tokens_text_tail(g + r, 1) == tokens_text_tail(r, 0));
                assert(cp =~= ht);
                assert(tokens_text(g + r) =~= cp + tail);
            }
        }
        if r.len() == 0 {
            assert(tail == Seq::<char>::empty());
            assert(cp + tail =~= cp);
            let e = Seq::<char>::empty();
            lemma_tokenize_chunk_prefix(cp, e);
            assert(cp + e =~= cp);
            assert(spec_tokenize(e) == Seq::<TokenV>::empty());
            assert(chunk_tokens(cp) + Seq::<TokenV>::empty() =~= g + r);
            assert(spec_tokenize(tokens_text(g + r)) == g + r);
        } else {
            assert(!(r[0] is TrailingSigns));
            assert(tail =~= seq![' '] + tokens_text(r)) by {
                assert(tail == seq![' '] + tokv_text(r[0]) + tokens_text_tail(r, 1));
            }
            assert(is_space_char(' '));
            assert(tail.len() > 0 && is_space_char(tail[0]));
            lemma_tokenize_chunk_prefix(cp, tail);
            lemma_tokenize_space_prefix(tokens_text(r));
            assert(spec_tokenize(tail) == spec_tokenize(tokens_text(r)));
            lemma_tokenize_idempotent(rest);
            assert(spec_tokenize(tokens_text(r)) == r);
            assert(spec_tokenize(tokens_text(g + r)) == g + r);
        }
        assert(tokens_text(spec_tokenize(s)) == tokens_text(g + r));
    }
}

/// Splits `text` into typed tokens.
pub fn tokenize(text: &str) -> (r: MessageTokens)
    ensures
        r.deep_view() == spec_tokenize(text@),
{
    let n = text.unicode_len();
    let mut result: Vec<Token> = Vec::new();
    let mut i: usize = 0;
    proof {
        assert(text@.subrange(0, n as int) =~= text@);
        assert(result.deep_view() =~= Seq::<TokenV>::empty());
    }
    while i < n
        invariant
            n == text@.len(),
            i <= n,
            spec_tokenize(text@) == result.deep_view() + spec_tokenize(
                text@.subrange(i as int, n as int),
            ),
        decreases n - i,
    {
        let ghost rest = text@.subrange(i as int, n as int);
        let c = text.get_char(i);
        if is_space(c) {
            proof {
                assert(rest.subrange(1, rest.len() as int) =~= text@.subrange(
                    i + 1,
                    n as int,
                ));
            }
            i += 1;
        } else {
            // scan to the end of the chunk
            let mut j: usize = i + 1;
            while j < n && !is_space(text.get_char(j))
                invariant
                    n == text@.len(),
                    i < j <= n,
                    forall|p: int| i <= p < j ==> !is_space_char(text@[p]),
                decreases n - j,
            {
                j += 1;
            }
            proof {
                assert(forall|p: int| 0 <= p < rest.len() ==> rest[p] == text@[i + p]);
                lemma_chunk_len_at(rest, j - i);
            }
            let ghost chunk = text@.subrange(i as int, j as int);
            proof {
                assert(chunk =~= rest.subrange(0, j - i));
                assert(rest.subrange(j - i, rest.len() as int) =~= text@.subrange(
                    j as int,
                    n as int,
                ));
            }
            // strip the trailing punctuation run
            let mut k: usize = j;
            while k > i && is_sign(text.get_char(k - 1))
                invariant
                    n == text@.len(),
                    i <= k <= j <= n,
                    forall|p: int| k <= p < j ==> is_sign_char(text@[p]),
                decreases k,
            {
                k -= 1;
            }
            proof {
                assert(forall|p: int| 0 <= p < chunk.len() ==> chunk[p] == text@[i + p]);
                lemma_strip_signs_at(chunk, k - i);
                assert(chunk.subrange(0, k - i) =~= text@.subrange(i as int, k as int));
            }
            let ghost dv0 = result.deep_view();
            let stripped = text.substring_char(i, k);
            assert(stripped@ == strip_signs(chunk));
            match Amount::from_str(stripped) {
                Ok(a) => {
                    result.push(Token::Amount(a));
                },
                Err(_) => {
                    result.push(Token::Word(String::from_str(stripped)));
                },
            }
            if k < j {
                let signs = text.substring_char(k, j);
                proof {
                    assert(signs@ =~= chunk.subrange(strip_signs(chunk).len() as int,
                        chunk.len() as int));
                }
                result.push(Token::TrailingSigns(String::from_str(signs)));
            }
            proof {
                assert(result.deep_view() =~= dv0 + chunk_tokens(chunk));
                assert(spec_tokenize(rest) == chunk_tokens(chunk) + spec_tokenize(
                    text@.subrange(j as int, n as int),
                ));
                assert((dv0 + chunk_tokens(chunk)) + spec_tokenize(
                    text@.subrange(j as int, n as int),
                ) =~= dv0 + (chunk_tokens(chunk) + spec_tokenize(
                    text@.subrange(j as int, n as int),
                )));
            }
            i = j;
        }
    }
    proof {
        assert(text@.subrange(n as int, n as int) =~= Seq::<char>::empty());
        assert(spec_tokenize(text@) =~= result.deep_view());
    }
    result
}

} // verus!
