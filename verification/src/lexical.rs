//! What lexing means: the tokens of a sequence of delivered symbols, defined
//! without reference to any cursor.

use vstd::prelude::*;
use crate::symbol::{Delivered, Symbol, text_of};
use crate::token::{Lexeme, TokenType, keyword_type};

verus! {

/// The runs that tokens are made of.
#[derive(Debug, Clone, Copy, PartialEq, Eq, Structural)]
pub enum Run {
    /// Symbols that are digits.
    Digits,
    /// Symbols that are letters.
    Letters,
    /// Symbols other than the quote: the inside of a string.
    Quoted,
}

impl Run {
    pub open spec fn spec_admits(self, g: Symbol) -> bool {
        match self {
            Run::Digits => g.is_digit(),
            Run::Letters => g.is_letter(),
            Run::Quoted => g.ch != '"',
        }
    }

    /// Whether `g` can stand in this run.
    #[verifier::when_used_as_spec(spec_admits)]
    pub fn admits(self, g: Symbol) -> (r: bool)
        ensures
            r == self.spec_admits(g),
    {
        match self {
            Run::Digits => g.is_digit(),
            Run::Letters => g.is_letter(),
            Run::Quoted => g.ch != '"',
        }
    }
}

/// The length of the longest prefix of `s` whose symbols all stand in `run`.
pub open spec fn run_len(s: Seq<Delivered>, run: Run) -> nat
    decreases s.len(),
{
    if s.len() > 0 && run.admits(s[0].symbol()) {
        1 + run_len(s.skip(1), run)
    } else {
        0
    }
}

/// The token class of a punctuation mark, if `c` is one.
pub open spec fn spec_punctuation(c: char) -> Option<TokenType> {
    if c == '{' {
        Some(TokenType::LeftBrace)
    } else if c == '}' {
        Some(TokenType::RightBrace)
    } else if c == '[' {
        Some(TokenType::LeftSquareBracket)
    } else if c == ']' {
        Some(TokenType::RightSquareBracket)
    } else if c == ':' {
        Some(TokenType::Colon)
    } else if c == ',' {
        Some(TokenType::Comma)
    } else {
        None
    }
}

#[verifier::when_used_as_spec(spec_punctuation)]
pub fn punctuation(c: char) -> (r: Option<TokenType>)
    ensures
        r == spec_punctuation(c),
{
    if c == '{' {
        Some(TokenType::LeftBrace)
    } else if c == '}' {
        Some(TokenType::RightBrace)
    } else if c == '[' {
        Some(TokenType::LeftSquareBracket)
    } else if c == ']' {
        Some(TokenType::RightSquareBracket)
    } else if c == ':' {
        Some(TokenType::Colon)
    } else if c == ',' {
        Some(TokenType::Comma)
    } else {
        None
    }
}

/// Whether `s` begins with a fraction: a point and at least one digit.
pub open spec fn fraction_follows(s: Seq<Delivered>) -> bool {
    s.len() >= 2 && s[0].symbol().ch == '.' && s[1].symbol().is_digit()
}

/// How much of `s` a number takes once its first digit is consumed: the
/// digits that follow and, where a fraction follows them, the point and the
/// digits of the fraction. No sign and no exponent belong to a number.
pub open spec fn number_tail(s: Seq<Delivered>) -> nat {
    let whole = run_len(s, Run::Digits);
    if fraction_follows(s.skip(whole as int)) {
        whole + 1 + run_len(s.skip(whole as int + 1), Run::Digits)
    } else {
        whole
    }
}

/// Whether a string whose opening quote was consumed is closed within `s`.
pub open spec fn string_closed(s: Seq<Delivered>) -> bool {
    run_len(s, Run::Quoted) < s.len()
}

/// How much of `s` a string takes once its opening quote is consumed:
/// everything up to the next quote and that quote, whatever stands before
/// it; all of `s` where no quote follows.
pub open spec fn string_tail(s: Seq<Delivered>) -> nat {
    if string_closed(s) {
        run_len(s, Run::Quoted) + 1
    } else {
        s.len()
    }
}

/// The number of symbols of the token at the head of `s`. `s` is not empty
/// and does not begin with a blank.
pub open spec fn token_len(s: Seq<Delivered>) -> nat {
    let head = s[0].symbol();
    let rest = s.skip(1);
    if head.ch == '"' {
        1 + string_tail(rest)
    } else if punctuation(head.ch) is Some {
        1
    } else if head.is_digit() {
        1 + number_tail(rest)
    } else if head.is_letter() {
        1 + run_len(rest, Run::Letters)
    } else {
        1
    }
}

/// The class of the token at the head of `s`, decided by its first symbol.
pub open spec fn token_type(s: Seq<Delivered>) -> TokenType {
    let head = s[0].symbol();
    if head.ch == '"' {
        if string_closed(s.skip(1)) {
            TokenType::String
        } else {
            TokenType::Other
        }
    } else if punctuation(head.ch) is Some {
        punctuation(head.ch)->0
    } else if head.is_digit() {
        TokenType::Number
    } else if head.is_letter() {
        keyword_type(text_of(s.take(token_len(s) as int)))
    } else {
        TokenType::Other
    }
}

/// The token at the head of `s`: its class, and as its text the text of the
/// input that its symbols stand for.
pub open spec fn first_token(s: Seq<Delivered>) -> Lexeme {
    Lexeme { token_type: token_type(s), text: text_of(s.take(token_len(s) as int)) }
}

/// The number of symbols that one scanning step takes from `s`: a blank, or
/// a whole token.
pub open spec fn scan_len(s: Seq<Delivered>) -> nat {
    if s.len() == 0 {
        0
    } else if s[0].symbol().is_blank() {
        1
    } else {
        token_len(s)
    }
}

/// The tokens that one scanning step yields: none for a blank, else one.
pub open spec fn scan_yield(s: Seq<Delivered>) -> Seq<Lexeme> {
    if s.len() == 0 || s[0].symbol().is_blank() {
        Seq::empty()
    } else {
        seq![first_token(s)]
    }
}

/// The tokens of `s`, in input order.
pub open spec fn lex(s: Seq<Delivered>) -> Seq<Lexeme>
    decreases s.len(),
{
    if 0 < scan_len(s) <= s.len() {
        scan_yield(s) + lex(s.skip(scan_len(s) as int))
    } else {
        Seq::empty()
    }
}

/// Where in `s` the token with index `k` begins: blanks are passed over,
/// and so are the tokens before it.
pub open spec fn token_start(s: Seq<Delivered>, k: nat) -> int
    decreases s.len(),
{
    if 0 < scan_len(s) <= s.len() {
        if s[0].symbol().is_blank() {
            1 + token_start(s.skip(1), k)
        } else if k == 0 {
            0
        } else {
            scan_len(s) + token_start(s.skip(scan_len(s) as int), (k - 1) as nat)
        }
    } else {
        0
    }
}

/// Where in `s` the token with index `k` ends: the index after its last
/// symbol.
pub open spec fn token_end(s: Seq<Delivered>, k: nat) -> int {
    token_start(s, k) + token_len(s.skip(token_start(s, k)))
}

/// A run is no longer than the sequence it is taken from, consists of
/// symbols of the run, and stops at a symbol that is none.
pub proof fn lemma_run_len(s: Seq<Delivered>, run: Run)
    ensures
        run_len(s, run) <= s.len(),
        forall|i: int| 0 <= i < run_len(s, run) ==> run.admits((#[trigger] s[i]).symbol()),
        run_len(s, run) < s.len() ==> !run.admits(s[run_len(s, run) as int].symbol()),
    decreases s.len(),
{
    if s.len() > 0 && run.admits(s[0].symbol()) {
        lemma_run_len(s.skip(1), run);
        let tail = s.skip(1);
        assert forall|i: int| 0 <= i < run_len(s, run) implies run.admits(
            (#[trigger] s[i]).symbol(),
        ) by {
            if i > 0 {
                assert(s[i] == tail[i - 1]);
            }
        }
        if run_len(s, run) < s.len() {
            assert(s[run_len(s, run) as int] == tail[run_len(tail, run) as int]);
        }
    }
}

/// A prefix of `n` symbols of the run, followed by the end or by a symbol
/// that is none, is the run.
pub proof fn lemma_run_len_is(s: Seq<Delivered>, run: Run, n: nat)
    requires
        n <= s.len(),
        forall|i: int| 0 <= i < n ==> run.admits((#[trigger] s[i]).symbol()),
        n < s.len() ==> !run.admits(s[n as int].symbol()),
    ensures
        run_len(s, run) == n,
    decreases n,
{
    if n > 0 {
        let tail = s.skip(1);
        assert forall|i: int| 0 <= i < n - 1 implies run.admits((#[trigger] tail[i]).symbol()) by {
            assert(tail[i] == s[i + 1]);
        }
        lemma_run_len_is(tail, run, (n - 1) as nat);
    }
}

/// A scanning step on a sequence that is not empty takes at least one symbol
/// and no more than there are.
pub proof fn lemma_scan_len(s: Seq<Delivered>)
    requires
        s.len() > 0,
    ensures
        0 < scan_len(s) <= s.len(),
{
    let rest = s.skip(1);
    lemma_run_len(rest, Run::Quoted);
    lemma_run_len(rest, Run::Letters);
    lemma_run_len(rest, Run::Digits);
    let whole = run_len(rest, Run::Digits);
    lemma_run_len(rest.skip(whole as int + 1), Run::Digits);
}

/// Every token is a stretch of what was delivered: it begins at a symbol
/// that is no blank, its class is decided there, and its text is the text of
/// the input that the stretch stands for, no more and no less.
pub proof fn lemma_token_span(s: Seq<Delivered>, k: nat)
    requires
        k < lex(s).len(),
    ensures
        0 <= token_start(s, k) < token_end(s, k) <= s.len(),
        !s[token_start(s, k)].symbol().is_blank(),
        lex(s)[k as int] == first_token(s.skip(token_start(s, k))),
        lex(s)[k as int].text == text_of(s.subrange(token_start(s, k), token_end(s, k))),
    decreases s.len(),
{
    let n = scan_len(s) as int;
    let rest = s.skip(n);
    lemma_scan_len(s);
    if s[0].symbol().is_blank() {
        assert(lex(s) =~= lex(rest));
        lemma_token_span(rest, k);
        let p = token_start(rest, k);
        assert(rest.skip(p) =~= s.skip(1 + p));
        assert(rest.subrange(p, token_end(rest, k)) =~= s.subrange(1 + p, 1 + token_end(rest, k)));
    } else if k == 0 {
        assert(s.skip(0) =~= s);
        assert(s.take(n) =~= s.subrange(0, n));
    } else {
        let j = (k - 1) as nat;
        assert(lex(s)[k as int] == lex(rest)[j as int]);
        lemma_token_span(rest, j);
        let p = token_start(rest, j);
        assert(rest.skip(p) =~= s.skip(n + p));
        assert(rest.subrange(p, token_end(rest, j)) =~= s.subrange(n + p, n + token_end(rest, j)));
    }
}

/// Tokens come in input order and do not overlap: a token begins where the
/// one before it ends, or after blanks that follow that end; before the
/// first token stand blanks only.
pub proof fn lemma_token_order(s: Seq<Delivered>, k: nat)
    requires
        k < lex(s).len(),
    ensures
        k == 0 ==> forall|j: int|
            0 <= j < token_start(s, k) ==> (#[trigger] s[j]).symbol().is_blank(),
        k > 0 ==> token_end(s, (k - 1) as nat) <= token_start(s, k),
        k > 0 ==> forall|j: int|
            token_end(s, (k - 1) as nat) <= j < token_start(s, k) ==> (#[trigger] s[j]).symbol()
                .is_blank(),
    decreases s.len(),
{
    let n = scan_len(s) as int;
    let rest = s.skip(n);
    lemma_scan_len(s);
    if s[0].symbol().is_blank() {
        assert(lex(s) =~= lex(rest));
        lemma_token_order(rest, k);
        lemma_token_span(rest, k);
        if k > 0 {
            let j = (k - 1) as nat;
            lemma_token_span(rest, j);
            assert(rest.skip(token_start(rest, j)) =~= s.skip(1 + token_start(rest, j)));
        }
        assert forall|j: int|
            (if k == 0 {
                0
            } else {
                token_end(s, (k - 1) as nat)
            }) <= j < token_start(s, k) implies (#[trigger] s[j]).symbol().is_blank() by {
            if j > 0 {
                assert(s[j] == rest[j - 1]);
            }
        }
    } else if k > 0 {
        let j = (k - 1) as nat;
        assert(lex(s)[k as int] == lex(rest)[j as int]);
        lemma_token_order(rest, j);
        lemma_token_span(rest, j);
        if j > 0 {
            let i = (j - 1) as nat;
            lemma_token_span(rest, i);
            assert(rest.skip(token_start(rest, i)) =~= s.skip(n + token_start(rest, i)));
        } else {
            assert(s.skip(0) =~= s);
        }
        assert forall|x: int| token_end(s, j) <= x < token_start(s, k) implies (#[trigger] s[x])
            .symbol().is_blank() by {
            assert(s[x] == rest[x - n]);
        }
    }
}

/// After the last token stand blanks only; where there is no token, all
/// that was delivered is blanks.
pub proof fn lemma_blanks_after_tokens(s: Seq<Delivered>)
    ensures
        forall|j: int|
            (if lex(s).len() == 0 {
                0
            } else {
                token_end(s, (lex(s).len() - 1) as nat)
            }) <= j < s.len() ==> (#[trigger] s[j]).symbol().is_blank(),
    decreases s.len(),
{
    if s.len() > 0 {
        let n = scan_len(s) as int;
        let rest = s.skip(n);
        lemma_scan_len(s);
        lemma_blanks_after_tokens(rest);
        let m = lex(rest).len();
        if s[0].symbol().is_blank() {
            assert(lex(s) =~= lex(rest));
        } else {
            assert(lex(s) =~= seq![first_token(s)] + lex(rest));
        }
        if m > 0 {
            let last = (m - 1) as nat;
            lemma_token_span(rest, last);
            assert(rest.skip(token_start(rest, last)) =~= s.skip(n + token_start(rest, last)));
        } else if !s[0].symbol().is_blank() {
            assert(s.skip(0) =~= s);
        }
        assert forall|j: int|
            (if lex(s).len() == 0 {
                0
            } else {
                token_end(s, (lex(s).len() - 1) as nat)
            }) <= j < s.len() implies (#[trigger] s[j]).symbol().is_blank() by {
            if j >= n {
                assert(s[j] == rest[j - n]);
            }
        }
    }
}

} // verus!
