//! What one more symbol does to the tokens. Between two tokens a blank adds
//! nothing, and a punctuation mark adds its own token and touches no other.
//! A brace or a square bracket outside the strings, be it between two tokens
//! or within a number or a word, adds its own token and no other brace or
//! bracket. From this follow the laws on texts: blanks between tokens change
//! no verdict, and one brace or bracket more or less outside the strings
//! turns a document into none.

use vstd::prelude::*;
use crate::balance::{
    is_bracket, lemma_document_balanced, lemma_extra_bracket_invalidates, lemma_surplus_concat,
    lemma_surplus_insert, lemma_surplus_one, surplus, weight,
};
use crate::grammar::is_document;
use crate::lexer::{stream, stream_from};
use crate::lexical::{
    Run, first_token, fraction_follows, lemma_run_len, lemma_run_len_is, lemma_scan_len, lex,
    punctuation, run_len, scan_len, scan_yield, string_closed, token_len, token_type,
};
use crate::symbol::{Delivered, Symbol, delivered};
use crate::token::{Lexeme, TokenType, token_types};

verus! {

/// A blank or a punctuation mark: a symbol that ends whatever number or word
/// stands before it and is complete by itself.
pub open spec fn is_separator(b: Symbol) -> bool {
    b.is_structural() && b.ch != '"'
}

/// A brace or a square bracket.
pub open spec fn is_bracket_mark(b: Symbol) -> bool {
    b.ch == '{' || b.ch == '}' || b.ch == '[' || b.ch == ']'
}

/// Whether the lexer, having taken `i` symbols of `s`, stands between two
/// tokens: at the start, or after a scanning step that began between tokens.
pub open spec fn between_tokens(s: Seq<Delivered>, i: int) -> bool
    decreases s.len(),
{
    if i == 0 {
        true
    } else if 0 < scan_len(s) <= i && scan_len(s) <= s.len() {
        between_tokens(s.skip(scan_len(s) as int), i - scan_len(s))
    } else {
        false
    }
}

/// The number of tokens that the lexer has found when it has taken `i`
/// symbols of `s` and stands between two tokens.
pub open spec fn tokens_before(s: Seq<Delivered>, i: int) -> nat
    decreases s.len(),
{
    if 0 < scan_len(s) <= i && scan_len(s) <= s.len() {
        scan_yield(s).len() + tokens_before(s.skip(scan_len(s) as int), i - scan_len(s))
    } else {
        0
    }
}

/// The token classes `types` with what the separator `b` adds at index `k`:
/// nothing where it is a blank, else the class of the mark.
pub open spec fn with_separator(types: Seq<TokenType>, k: int, b: Symbol) -> Seq<TokenType> {
    if b.is_blank() {
        types
    } else {
        types.insert(k, punctuation(b.ch)->0)
    }
}

/// A place between tokens is a place in the sequence.
pub proof fn lemma_between_tokens_bounds(s: Seq<Delivered>, i: int)
    requires
        between_tokens(s, i),
    ensures
        0 <= i <= s.len(),
    decreases s.len(),
{
    if i != 0 {
        lemma_between_tokens_bounds(s.skip(scan_len(s) as int), i - scan_len(s));
    }
}

/// A symbol put in after the end of a run, or at its end a symbol that does
/// not stand in the run, leaves the run as long as it was.
pub proof fn lemma_run_insert(r: Seq<Delivered>, run: Run, j: int, b: Delivered)
    requires
        run_len(r, run) <= j <= r.len(),
        j == run_len(r, run) ==> !run.admits(b.symbol()),
    ensures
        run_len(r.insert(j, b), run) == run_len(r, run),
{
    let k = run_len(r, run);
    lemma_run_len(r, run);
    r.insert_ensures(j, b);
    let t = r.insert(j, b);
    assert forall|x: int| 0 <= x < k implies run.admits((#[trigger] t[x]).symbol()) by {
        assert(t[x] == r[x]);
    }
    if k < j {
        assert(t[k as int] == r[k as int]);
    }
    lemma_run_len_is(t, run, k);
}

/// A separator put in after a token leaves the token as it was. A string
/// that the input does not close is no such token: it takes all that
/// follows.
pub proof fn lemma_token_insert(s: Seq<Delivered>, i: int, b: Delivered)
    requires
        s.len() > 0,
        !s[0].symbol().is_blank(),
        is_separator(b.symbol()),
        token_len(s) <= i <= s.len(),
        s[0].symbol().ch == '"' ==> string_closed(s.skip(1)),
    ensures
        token_len(s.insert(i, b)) == token_len(s),
        first_token(s.insert(i, b)) == first_token(s),
{
    let t = s.insert(i, b);
    let rest = s.skip(1);
    let rest_t = t.skip(1);
    let j = i - 1;
    s.insert_ensures(i, b);
    assert(t[0] == s[0]);
    assert(rest_t =~= rest.insert(j, b));
    rest.insert_ensures(j, b);
    if s[0].symbol().ch == '"' {
        lemma_run_insert(rest, Run::Quoted, j, b);
    } else if punctuation(s[0].symbol().ch) is Some {
    } else if s[0].symbol().is_digit() {
        let w = run_len(rest, Run::Digits) as int;
        lemma_run_len(rest, Run::Digits);
        lemma_run_insert(rest, Run::Digits, j, b);
        if fraction_follows(rest.skip(w)) {
            let frac = rest.skip(w + 1);
            assert(frac[0] == rest.skip(w)[1]);
            assert(run_len(frac, Run::Digits) >= 1);
            lemma_run_len(frac, Run::Digits);
            assert(rest_t.skip(w)[0] == rest.skip(w)[0]);
            assert(rest_t.skip(w)[1] == rest.skip(w)[1]);
            assert(rest_t.skip(w + 1) =~= frac.insert(j - w - 1, b));
            lemma_run_insert(frac, Run::Digits, j - w - 1, b);
        } else {
            let x = rest_t.skip(w);
            if x.len() >= 2 {
                if j == w {
                    assert(x[0] == b);
                } else if j == w + 1 {
                    assert(x[1] == b);
                } else {
                    assert(x[0] == rest.skip(w)[0]);
                    assert(x[1] == rest.skip(w)[1]);
                }
            }
        }
    } else if s[0].symbol().is_letter() {
        lemma_run_insert(rest, Run::Letters, j, b);
    }
    assert(t.take(token_len(s) as int) =~= s.take(token_len(s) as int));
}

/// The classes of a concatenation are the classes of its parts.
pub proof fn lemma_token_types_concat(a: Seq<Lexeme>, b: Seq<Lexeme>)
    ensures
        token_types(a + b) == token_types(a) + token_types(b),
{
    assert(token_types(a + b) =~= token_types(a) + token_types(b));
}

/// `after` is `before` with what the separator `b` adds at index `k`; or,
/// where `before` ends in a token of class `Other`, `after` may be `before`.
pub open spec fn separator_added(
    before: Seq<TokenType>,
    after: Seq<TokenType>,
    k: int,
    b: Symbol,
) -> bool {
    ||| 0 <= k <= before.len() && after == with_separator(before, k, b)
    ||| after == before && before.len() > 0 && before.last() == TokenType::Other
}

/// What holds of two sequences of classes holds of them behind a common
/// head, further back by the length of the head.
pub proof fn lemma_separator_added_behind(
    head: Seq<TokenType>,
    before: Seq<TokenType>,
    after: Seq<TokenType>,
    k: int,
    b: Symbol,
)
    requires
        separator_added(before, after, k, b),
    ensures
        separator_added(head + before, head + after, head.len() + k, b),
{
    if 0 <= k <= before.len() && after == with_separator(before, k, b) {
        if !b.is_blank() {
            assert(head + before.insert(k, punctuation(b.ch)->0) =~= (head + before).insert(
                head.len() + k,
                punctuation(b.ch)->0,
            ));
        }
    } else {
        assert((head + before).last() == before.last());
    }
}

/// A separator at the very start is scanned by itself before anything else.
pub proof fn lemma_separator_first(s: Seq<Delivered>, b: Delivered)
    requires
        is_separator(b.symbol()),
    ensures
        token_types(lex(s.insert(0, b))) == with_separator(token_types(lex(s)), 0, b.symbol()),
{
    let t = s.insert(0, b);
    s.insert_ensures(0, b);
    assert(t[0] == b);
    assert(t.skip(1) =~= s);
    if b.symbol().is_blank() {
        assert(lex(t) =~= lex(s));
    } else {
        assert(lex(t) =~= seq![first_token(t)] + lex(s));
        assert(token_types(lex(t)) =~= token_types(lex(s)).insert(
            0,
            punctuation(b.symbol().ch)->0,
        ));
    }
}

/// A separator at the very end after a string that the input does not close
/// becomes part of that token, whose class is `Other` as before.
pub proof fn lemma_separator_in_open_string(s: Seq<Delivered>, b: Delivered)
    requires
        is_separator(b.symbol()),
        s.len() > 0,
        s[0].symbol().ch == '"',
        !string_closed(s.skip(1)),
    ensures
        token_types(lex(s)) == seq![TokenType::Other],
        token_types(lex(s.insert(s.len() as int, b))) == seq![TokenType::Other],
        scan_len(s) == s.len(),
{
    let t = s.insert(s.len() as int, b);
    s.insert_ensures(s.len() as int, b);
    let rest = s.skip(1);
    let rest_t = t.skip(1);
    lemma_run_len(rest, Run::Quoted);
    assert(t[0] == s[0]);
    assert(rest_t =~= rest.push(b));
    assert forall|x: int| 0 <= x < rest_t.len() implies Run::Quoted.admits(
        (#[trigger] rest_t[x]).symbol(),
    ) by {
        if x < rest.len() {
            assert(rest_t[x] == rest[x]);
        }
    }
    lemma_run_len_is(rest_t, Run::Quoted, rest_t.len());
    assert(s.skip(s.len() as int) =~= Seq::<Delivered>::empty());
    assert(t.skip(t.len() as int) =~= Seq::<Delivered>::empty());
    assert(lex(Seq::<Delivered>::empty()) =~= Seq::<Lexeme>::empty());
    assert(lex(s) =~= seq![first_token(s)]);
    assert(lex(t) =~= seq![first_token(t)]);
    assert(token_types(lex(t)) =~= seq![TokenType::Other]);
    assert(token_types(lex(s)) =~= seq![TokenType::Other]);
}

/// A separator put in after a scanning step leaves the step as it was: it
/// takes as much and yields the same, and what is left holds the separator.
pub proof fn lemma_scan_insert(s: Seq<Delivered>, i: int, b: Delivered)
    requires
        is_separator(b.symbol()),
        0 < scan_len(s) <= i <= s.len(),
        s[0].symbol().ch == '"' ==> string_closed(s.skip(1)),
    ensures
        scan_len(s.insert(i, b)) == scan_len(s),
        scan_yield(s.insert(i, b)) == scan_yield(s),
        s.insert(i, b).skip(scan_len(s) as int) == s.skip(scan_len(s) as int).insert(
            i - scan_len(s),
            b,
        ),
{
    let t = s.insert(i, b);
    let n = scan_len(s) as int;
    s.insert_ensures(i, b);
    assert(t[0] == s[0]);
    if !s[0].symbol().is_blank() {
        lemma_token_insert(s, i, b);
    }
    assert(t.skip(n) =~= s.skip(n).insert(i - n, b));
}

/// A separator put in between two tokens adds what it stands for and changes
/// no other token class. The one exception is a separator put in at the very
/// end after a string that the input does not close: it becomes part of that
/// token, whose class is `Other` as before.
pub proof fn lemma_separator_between_tokens(s: Seq<Delivered>, i: int, b: Delivered)
    requires
        is_separator(b.symbol()),
        between_tokens(s, i),
    ensures
        separator_added(
            token_types(lex(s)),
            token_types(lex(s.insert(i, b))),
            tokens_before(s, i) as int,
            b.symbol(),
        ),
    decreases s.len(),
{
    let t = s.insert(i, b);
    lemma_between_tokens_bounds(s, i);
    if i == 0 {
        lemma_separator_first(s, b);
    } else if s[0].symbol().ch == '"' && !string_closed(s.skip(1)) {
        lemma_separator_in_open_string(s, b);
    } else {
        let n = scan_len(s) as int;
        lemma_scan_insert(s, i, b);
        lemma_separator_between_tokens(s.skip(n), i - n, b);
        s.insert_ensures(i, b);
        assert(lex(s) == scan_yield(s) + lex(s.skip(n)));
        assert(lex(t) == scan_yield(t) + lex(t.skip(n)));
        lemma_token_types_concat(scan_yield(s), lex(s.skip(n)));
        lemma_token_types_concat(scan_yield(t), lex(t.skip(n)));
        lemma_separator_added_behind(
            token_types(scan_yield(s)),
            token_types(lex(s.skip(n))),
            token_types(lex(t.skip(n))),
            tokens_before(s.skip(n), i - n) as int,
            b.symbol(),
        );
    }
}

/// A space or a line feed more between two tokens changes the class of no
/// token, and so not whether the input is a document.
pub proof fn lemma_blank_between_tokens(s: Seq<Delivered>, i: int, b: Delivered)
    requires
        b.symbol().is_blank(),
        between_tokens(s, i),
    ensures
        token_types(lex(s.insert(i, b))) == token_types(lex(s)),
        is_document(token_types(lex(s.insert(i, b)))) == is_document(token_types(lex(s))),
{
    lemma_separator_between_tokens(s, i, b);
}

/// A brace or a square bracket more between two tokens of a document leaves
/// no document.
pub proof fn lemma_bracket_between_tokens(s: Seq<Delivered>, i: int, b: Delivered)
    requires
        is_bracket_mark(b.symbol()),
        between_tokens(s, i),
        is_document(token_types(lex(s))),
    ensures
        !is_document(token_types(lex(s.insert(i, b)))),
{
    lemma_separator_between_tokens(s, i, b);
    lemma_extra_bracket_invalidates(
        token_types(lex(s)),
        tokens_before(s, i) as int,
        punctuation(b.symbol().ch)->0,
    );
}

/// Whether place `i` of `s` lies outside every string. On the way from the
/// start to `i` every quote opens a string; that string is closed, and `i`
/// is not before its closing quote. A string that the input does not close
/// takes all that follows, so no place after its quote is outside it.
pub open spec fn outside_strings(s: Seq<Delivered>, i: int) -> bool
    decreases s.len(),
{
    if i == 0 {
        true
    } else if i < 0 || s.len() == 0 {
        false
    } else if s[0].symbol().ch == '"' {
        &&& string_closed(s.skip(1))
        &&& token_len(s) <= i
        &&& outside_strings(s.skip(token_len(s) as int), i - token_len(s))
    } else {
        outside_strings(s.skip(1), i - 1)
    }
}

/// A place outside every string is a place in the sequence.
pub proof fn lemma_outside_strings_bounds(s: Seq<Delivered>, i: int)
    requires
        outside_strings(s, i),
    ensures
        0 <= i <= s.len(),
    decreases s.len(),
{
    if i != 0 {
        if s[0].symbol().ch == '"' {
            lemma_run_len(s.skip(1), Run::Quoted);
            lemma_outside_strings_bounds(s.skip(token_len(s) as int), i - token_len(s));
        } else {
            lemma_outside_strings_bounds(s.skip(1), i - 1);
        }
    }
}

/// A place that is outside every string is so too seen from a place before
/// it up to which no quote stands.
pub proof fn lemma_outside_strings_behind(s: Seq<Delivered>, i: int, m: int)
    requires
        outside_strings(s, i),
        0 <= m <= i,
        forall|j: int| 0 <= j < m ==> (#[trigger] s[j]).symbol().ch != '"',
    ensures
        outside_strings(s.skip(m), i - m),
    decreases m,
{
    lemma_outside_strings_bounds(s, i);
    if m == 0 {
        assert(s.skip(0) =~= s);
    } else {
        let rest = s.skip(1);
        assert forall|j: int| 0 <= j < m - 1 implies (#[trigger] rest[j]).symbol().ch != '"' by {
            assert(rest[j] == s[j + 1]);
        }
        lemma_outside_strings_behind(rest, i - 1, m - 1);
        assert(rest.skip(m - 1) =~= s.skip(m));
    }
}

/// A token that begins with a symbol that is not structural holds no
/// structural symbol, and is no brace and no bracket.
pub proof fn lemma_plain_token(s: Seq<Delivered>)
    requires
        s.len() > 0,
        !s[0].symbol().is_structural(),
    ensures
        0 < token_len(s) <= s.len(),
        forall|j: int| 0 <= j < token_len(s) ==> !(#[trigger] s[j]).symbol().is_structural(),
        !is_bracket(token_type(s)),
{
    let rest = s.skip(1);
    lemma_scan_len(s);
    if s[0].symbol().is_digit() {
        let w = run_len(rest, Run::Digits) as int;
        lemma_run_len(rest, Run::Digits);
        if fraction_follows(rest.skip(w)) {
            let frac = rest.skip(w + 1);
            lemma_run_len(frac, Run::Digits);
            assert forall|j: int| 0 <= j < token_len(s) implies !(#[trigger] s[j]).symbol()
                .is_structural() by {
                if j == 0 {
                } else if j - 1 < w {
                    assert(s[j] == rest[j - 1]);
                } else if j - 1 == w {
                    assert(s[j] == rest.skip(w)[0]);
                } else {
                    assert(s[j] == frac[j - 2 - w]);
                }
            }
        } else {
            assert forall|j: int| 0 <= j < token_len(s) implies !(#[trigger] s[j]).symbol()
                .is_structural() by {
                if j > 0 {
                    assert(s[j] == rest[j - 1]);
                }
            }
        }
    } else if s[0].symbol().is_letter() {
        lemma_run_len(rest, Run::Letters);
        assert forall|j: int| 0 <= j < token_len(s) implies !(#[trigger] s[j]).symbol()
            .is_structural() by {
            if j > 0 {
                assert(s[j] == rest[j - 1]);
            }
        }
    }
}

/// The first `m` symbols of `s` are not structural, and after them stands a
/// structural symbol or nothing.
pub open spec fn plain_stretch(s: Seq<Delivered>, m: int) -> bool {
    &&& 0 <= m <= s.len()
    &&& forall|j: int| 0 <= j < m ==> !(#[trigger] s[j]).symbol().is_structural()
    &&& m < s.len() ==> s[m].symbol().is_structural()
}

/// Every sequence begins with such a stretch, be it empty.
pub proof fn lemma_plain_stretch_end(s: Seq<Delivered>) -> (m: int)
    ensures
        plain_stretch(s, m),
    decreases s.len(),
{
    if s.len() == 0 || s[0].symbol().is_structural() {
        0
    } else {
        let rest = s.skip(1);
        let e = lemma_plain_stretch_end(rest);
        assert forall|j: int| 0 <= j < e + 1 implies !(#[trigger] s[j]).symbol()
            .is_structural() by {
            if j > 0 {
                assert(s[j] == rest[j - 1]);
            }
        }
        if e + 1 < s.len() {
            assert(s[e + 1] == rest[e]);
        }
        e + 1
    }
}

/// The tokens of a stretch without structural symbols end where the stretch
/// ends, and none of them is a brace or a bracket: they add nothing to the
/// surplus of what follows the stretch.
pub proof fn lemma_plain_stretch_surplus(
    s: Seq<Delivered>,
    m: int,
    open: TokenType,
    close: TokenType,
)
    requires
        plain_stretch(s, m),
        is_bracket(open),
        is_bracket(close),
    ensures
        surplus(token_types(lex(s)), open, close) == surplus(
            token_types(lex(s.skip(m))),
            open,
            close,
        ),
    decreases m,
{
    if m == 0 {
        assert(s.skip(0) =~= s);
    } else {
        lemma_plain_token(s);
        let n = token_len(s) as int;
        if n > m {
            assert(!s[m].symbol().is_structural());
        }
        let rest = s.skip(n);
        assert forall|j: int| 0 <= j < m - n implies !(#[trigger] rest[j]).symbol()
            .is_structural() by {
            assert(rest[j] == s[j + n]);
        }
        if m < s.len() {
            assert(rest[m - n] == s[m]);
        }
        lemma_plain_stretch_surplus(rest, m - n, open, close);
        assert(rest.skip(m - n) =~= s.skip(m));
        let one = token_types(scan_yield(s));
        assert(lex(s) == scan_yield(s) + lex(rest));
        lemma_token_types_concat(scan_yield(s), lex(rest));
        lemma_surplus_concat(one, token_types(lex(rest)), open, close);
        assert(one =~= seq![token_type(s)]);
        assert(one.subrange(0, 1) =~= one);
        lemma_surplus_one(one, 0, open, close);
    }
}

/// A brace or a square bracket put in within or right after a stretch
/// without structural symbols adds its weight to the surplus and nothing
/// else: whatever it makes of the number or the word that it parts, no brace
/// and no bracket comes of it.
pub proof fn lemma_bracket_in_plain_stretch(
    s: Seq<Delivered>,
    i: int,
    b: Delivered,
    open: TokenType,
    close: TokenType,
)
    requires
        is_bracket_mark(b.symbol()),
        0 <= i <= s.len(),
        forall|j: int| 0 <= j < i ==> !(#[trigger] s[j]).symbol().is_structural(),
        is_bracket(open),
        is_bracket(close),
    ensures
        surplus(token_types(lex(s.insert(i, b))), open, close) == surplus(
            token_types(lex(s)),
            open,
            close,
        ) + weight(punctuation(b.symbol().ch)->0, open, close),
{
    let t = s.insert(i, b);
    let tail = s.skip(i);
    let e = lemma_plain_stretch_end(tail);
    let m = i + e;
    s.insert_ensures(i, b);
    assert forall|j: int| 0 <= j < m implies !(#[trigger] s[j]).symbol().is_structural() by {
        if j >= i {
            assert(s[j] == tail[j - i]);
        }
    }
    if m < s.len() {
        assert(s[m] == tail[e]);
    }
    lemma_plain_stretch_surplus(s, m, open, close);
    lemma_plain_stretch_surplus(tail, e, open, close);
    assert(tail.skip(e) =~= s.skip(m));
    assert forall|j: int| 0 <= j < i implies !(#[trigger] t[j]).symbol().is_structural() by {
        assert(t[j] == s[j]);
    }
    assert(t[i] == b);
    lemma_plain_stretch_surplus(t, i, open, close);
    assert(t.skip(i) =~= tail.insert(0, b));
    lemma_separator_first(tail, b);
    lemma_surplus_insert(token_types(lex(tail)), 0, punctuation(b.symbol().ch)->0, open, close);
}

/// A brace or a square bracket put in outside every string adds its weight
/// to the surplus of braces and to that of brackets, and nothing else.
pub proof fn lemma_bracket_adds_weight(
    s: Seq<Delivered>,
    i: int,
    b: Delivered,
    open: TokenType,
    close: TokenType,
)
    requires
        is_bracket_mark(b.symbol()),
        outside_strings(s, i),
        is_bracket(open),
        is_bracket(close),
    ensures
        surplus(token_types(lex(s.insert(i, b))), open, close) == surplus(
            token_types(lex(s)),
            open,
            close,
        ) + weight(punctuation(b.symbol().ch)->0, open, close),
    decreases s.len(),
{
    let t = s.insert(i, b);
    lemma_outside_strings_bounds(s, i);
    s.insert_ensures(i, b);
    if i == 0 || !s[0].symbol().is_structural() {
        let m = lemma_plain_stretch_end(s);
        if i <= m {
            lemma_bracket_in_plain_stretch(s, i, b, open, close);
        } else {
            let rest = s.skip(m);
            lemma_outside_strings_behind(s, i, m);
            lemma_bracket_adds_weight(rest, i - m, b, open, close);
            assert forall|j: int| 0 <= j < m implies !(#[trigger] t[j]).symbol()
                .is_structural() by {
                assert(t[j] == s[j]);
            }
            assert(t[m] == s[m]);
            assert(t.skip(m) =~= rest.insert(i - m, b));
            lemma_plain_stretch_surplus(s, m, open, close);
            lemma_plain_stretch_surplus(t, m, open, close);
        }
    } else {
        let n = scan_len(s) as int;
        let rest = s.skip(n);
        lemma_scan_len(s);
        if s[0].symbol().ch == '"' {
            lemma_run_len(s.skip(1), Run::Quoted);
        }
        lemma_bracket_adds_weight(rest, i - n, b, open, close);
        lemma_scan_insert(s, i, b);
        assert(lex(s) == scan_yield(s) + lex(rest));
        assert(lex(t) == scan_yield(t) + lex(t.skip(n)));
        lemma_token_types_concat(scan_yield(s), lex(rest));
        lemma_token_types_concat(scan_yield(t), lex(t.skip(n)));
        lemma_surplus_concat(token_types(scan_yield(s)), token_types(lex(rest)), open, close);
        lemma_surplus_concat(
            token_types(scan_yield(t)),
            token_types(lex(t.skip(n))),
            open,
            close,
        );
    }
}

/// A brace or a square bracket more anywhere outside the strings of a
/// document, between two tokens or within a number or a word, leaves no
/// document.
pub proof fn lemma_bracket_outside_strings(s: Seq<Delivered>, i: int, b: Delivered)
    requires
        is_bracket_mark(b.symbol()),
        outside_strings(s, i),
        is_document(token_types(lex(s))),
    ensures
        !is_document(token_types(lex(s.insert(i, b)))),
{
    lemma_outside_strings_bounds(s, i);
    lemma_bracket_adds_weight(s, i, b, TokenType::LeftBrace, TokenType::RightBrace);
    lemma_bracket_adds_weight(
        s,
        i,
        b,
        TokenType::LeftSquareBracket,
        TokenType::RightSquareBracket,
    );
    lemma_document_balanced(token_types(lex(s)));
    if is_document(token_types(lex(s.insert(i, b)))) {
        lemma_document_balanced(token_types(lex(s.insert(i, b))));
    }
}

/// What is a document with a brace or a square bracket more, outside every
/// string, is none without it: where `s` with `b` at place `i` is a
/// document, `s` is not.
pub proof fn lemma_bracket_missing(s: Seq<Delivered>, i: int, b: Delivered)
    requires
        is_bracket_mark(b.symbol()),
        outside_strings(s, i),
        is_document(token_types(lex(s.insert(i, b)))),
    ensures
        !is_document(token_types(lex(s))),
{
    lemma_outside_strings_bounds(s, i);
    lemma_bracket_adds_weight(s, i, b, TokenType::LeftBrace, TokenType::RightBrace);
    lemma_bracket_adds_weight(
        s,
        i,
        b,
        TokenType::LeftSquareBracket,
        TokenType::RightSquareBracket,
    );
    lemma_document_balanced(token_types(lex(s.insert(i, b))));
    if is_document(token_types(lex(s))) {
        lemma_document_balanced(token_types(lex(s)));
    }
}


/// Whether a place is outside every string depends on what stands before
/// it alone: it stays so where the symbol at that place is taken away.
pub proof fn lemma_outside_strings_remove(d: Seq<Delivered>, i: int)
    requires
        0 <= i < d.len(),
        outside_strings(d, i),
    ensures
        outside_strings(d.remove(i), i),
    decreases d.len(),
{
    let s = d.remove(i);
    if i != 0 {
        assert(s[0] == d[0]);
        if d[0].symbol().ch == '"' {
            let n = token_len(d) as int;
            let rest_d = d.skip(1);
            let rest_s = s.skip(1);
            let k = run_len(rest_d, Run::Quoted);
            lemma_run_len(rest_d, Run::Quoted);
            assert forall|j: int| 0 <= j < k implies Run::Quoted.admits(
                (#[trigger] rest_s[j]).symbol(),
            ) by {
                assert(rest_s[j] == rest_d[j]);
            }
            assert(rest_s[k as int] == rest_d[k as int]);
            lemma_run_len_is(rest_s, Run::Quoted, k);
            assert(s.skip(n) =~= d.skip(n).remove(i - n));
            lemma_outside_strings_remove(d.skip(n), i - n);
        } else {
            assert(s.skip(1) =~= d.skip(1).remove(i - 1));
            lemma_outside_strings_remove(d.skip(1), i - 1);
        }
    }
}

/// A document from which one brace or square bracket is taken away that
/// stands outside its strings is no document.
pub proof fn lemma_bracket_removed(d: Seq<Delivered>, i: int)
    requires
        0 <= i < d.len(),
        is_bracket_mark(d[i].symbol()),
        outside_strings(d, i),
        is_document(token_types(lex(d))),
    ensures
        !is_document(token_types(lex(d.remove(i)))),
{
    lemma_outside_strings_remove(d, i);
    assert(d.remove(i).insert(i, d[i]) =~= d);
    lemma_bracket_missing(d.remove(i), i, d[i]);
}

/// Where line `k` begins in what the lexer delivers from line `from` on.
pub open spec fn line_start(lines: Seq<Seq<Symbol>>, from: int, k: int) -> int
    decreases k - from,
{
    if from < k {
        lines[from].len() + 1 + line_start(lines, from + 1, k)
    } else {
        0
    }
}

/// Lines that are the same from `from` on are delivered the same from there.
pub proof fn lemma_stream_from_same(a: Seq<Seq<Symbol>>, b: Seq<Seq<Symbol>>, from: int)
    requires
        a.len() == b.len(),
        forall|j: int| from <= j < a.len() ==> a[j] == b[j],
    ensures
        stream_from(a, from) == stream_from(b, from),
    decreases a.len() - from,
{
    if 0 <= from < a.len() && a[from].len() > 0 {
        lemma_stream_from_same(a, b, from + 1);
    }
}

/// A symbol put into line `k`, none of the lines up to which is empty, is
/// put into what the lexer delivers, at its place in that line.
pub proof fn lemma_stream_insert(lines: Seq<Seq<Symbol>>, from: int, k: int, o: int, b: Symbol)
    requires
        0 <= from <= k < lines.len(),
        0 <= o <= lines[k].len(),
        forall|j: int| from <= j <= k ==> lines[j].len() > 0,
    ensures
        0 <= line_start(lines, from, k) + o <= stream_from(lines, from).len(),
        stream_from(lines.update(k, lines[k].insert(o, b)), from) == stream_from(
            lines,
            from,
        ).insert(line_start(lines, from, k) + o, Delivered::FromLine(b)),
    decreases k - from,
{
    let changed = lines.update(k, lines[k].insert(o, b));
    lines[k].insert_ensures(o, b);
    if from == k {
        lemma_stream_from_same(lines, changed, k + 1);
        let rest = stream_from(lines, k + 1);
        assert(delivered(lines[k].insert(o, b)).push(Delivered::LineBreak) + rest =~= (delivered(
            lines[k],
        ).push(Delivered::LineBreak) + rest).insert(o, Delivered::FromLine(b)));
    } else {
        lemma_stream_insert(lines, from + 1, k, o, b);
        let head = delivered(lines[from]).push(Delivered::LineBreak);
        let rest = stream_from(lines, from + 1);
        let p = line_start(lines, from + 1, k) + o;
        assert(changed[from] == lines[from]);
        assert(head + rest.insert(p, Delivered::FromLine(b)) =~= (head + rest).insert(
            head.len() + p,
            Delivered::FromLine(b),
        ));
    }
}

/// A space or a line feed more in a line, between two tokens, changes the
/// class of no token, and so not whether the lines are a document.
pub proof fn lemma_blank_in_line(lines: Seq<Seq<Symbol>>, k: int, o: int, b: Symbol)
    requires
        b.is_blank(),
        0 <= k < lines.len(),
        0 <= o <= lines[k].len(),
        forall|j: int| 0 <= j <= k ==> lines[j].len() > 0,
        between_tokens(stream(lines), line_start(lines, 0, k) + o),
    ensures
        token_types(lex(stream(lines.update(k, lines[k].insert(o, b))))) == token_types(
            lex(stream(lines)),
        ),
        is_document(token_types(lex(stream(lines.update(k, lines[k].insert(o, b))))))
            == is_document(token_types(lex(stream(lines)))),
{
    lemma_stream_insert(lines, 0, k, o, b);
    lemma_blank_between_tokens(
        stream(lines),
        line_start(lines, 0, k) + o,
        Delivered::FromLine(b),
    );
}

/// A brace or a square bracket more in a line, between two tokens of a
/// document, leaves no document.
pub proof fn lemma_bracket_in_line(lines: Seq<Seq<Symbol>>, k: int, o: int, b: Symbol)
    requires
        is_bracket_mark(b),
        0 <= k < lines.len(),
        0 <= o <= lines[k].len(),
        forall|j: int| 0 <= j <= k ==> lines[j].len() > 0,
        between_tokens(stream(lines), line_start(lines, 0, k) + o),
        is_document(token_types(lex(stream(lines)))),
    ensures
        !is_document(token_types(lex(stream(lines.update(k, lines[k].insert(o, b)))))),
{
    lemma_stream_insert(lines, 0, k, o, b);
    lemma_bracket_between_tokens(
        stream(lines),
        line_start(lines, 0, k) + o,
        Delivered::FromLine(b),
    );
}

/// A brace or a square bracket more in a line of a document, anywhere
/// outside the strings, leaves no document.
pub proof fn lemma_bracket_outside_strings_in_line(
    lines: Seq<Seq<Symbol>>,
    k: int,
    o: int,
    b: Symbol,
)
    requires
        is_bracket_mark(b),
        0 <= k < lines.len(),
        0 <= o <= lines[k].len(),
        forall|j: int| 0 <= j <= k ==> lines[j].len() > 0,
        outside_strings(stream(lines), line_start(lines, 0, k) + o),
        is_document(token_types(lex(stream(lines)))),
    ensures
        !is_document(token_types(lex(stream(lines.update(k, lines[k].insert(o, b)))))),
{
    lemma_stream_insert(lines, 0, k, o, b);
    lemma_bracket_outside_strings(
        stream(lines),
        line_start(lines, 0, k) + o,
        Delivered::FromLine(b),
    );
}

/// Lines that are a document with a brace or a square bracket more in one
/// of them, outside every string, are none without it.
pub proof fn lemma_bracket_missing_in_line(lines: Seq<Seq<Symbol>>, k: int, o: int, b: Symbol)
    requires
        is_bracket_mark(b),
        0 <= k < lines.len(),
        0 <= o <= lines[k].len(),
        forall|j: int| 0 <= j <= k ==> lines[j].len() > 0,
        outside_strings(stream(lines), line_start(lines, 0, k) + o),
        is_document(token_types(lex(stream(lines.update(k, lines[k].insert(o, b)))))),
    ensures
        !is_document(token_types(lex(stream(lines)))),
{
    lemma_stream_insert(lines, 0, k, o, b);
    lemma_bracket_missing(stream(lines), line_start(lines, 0, k) + o, Delivered::FromLine(b));
}

} // verus!
