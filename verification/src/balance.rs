//! Braces and brackets in documents: every document holds as many opening
//! as closing ones, so that one more or one less of any of them leaves no
//! document.

use vstd::prelude::*;
use crate::grammar::{
    array_end, elements_end, is_document, lemma_document_is_object_end, lemma_value_end_sound,
    members_end, object_end, value_end,
};
use crate::token::TokenType;

verus! {

/// The two braces and the two square brackets.
pub open spec fn is_bracket(t: TokenType) -> bool {
    ||| t == TokenType::LeftBrace
    ||| t == TokenType::RightBrace
    ||| t == TokenType::LeftSquareBracket
    ||| t == TokenType::RightSquareBracket
}

/// What one token adds to the count of open pairs of `open` and `close`.
pub open spec fn weight(t: TokenType, open: TokenType, close: TokenType) -> int {
    if t == open {
        1
    } else if t == close {
        -1
    } else {
        0
    }
}

/// How many more tokens of class `open` than of class `close` stand in `s`.
pub open spec fn surplus(s: Seq<TokenType>, open: TokenType, close: TokenType) -> int
    decreases s.len(),
{
    if s.len() == 0 {
        0
    } else {
        surplus(s.drop_last(), open, close) + weight(s.last(), open, close)
    }
}

/// Braces with braces, or square brackets with square brackets.
pub open spec fn is_pair(open: TokenType, close: TokenType) -> bool {
    ||| open == TokenType::LeftBrace && close == TokenType::RightBrace
    ||| open == TokenType::LeftSquareBracket && close == TokenType::RightSquareBracket
}

/// The surplus of a concatenation is the sum of the surpluses.
pub proof fn lemma_surplus_concat(
    a: Seq<TokenType>,
    b: Seq<TokenType>,
    open: TokenType,
    close: TokenType,
)
    ensures
        surplus(a + b, open, close) == surplus(a, open, close) + surplus(b, open, close),
    decreases b.len(),
{
    if b.len() == 0 {
        assert(a + b =~= a);
    } else {
        assert((a + b).drop_last() =~= a + b.drop_last());
        lemma_surplus_concat(a, b.drop_last(), open, close);
    }
}

/// The surplus of a stretch is the sum of the surpluses of its two parts.
pub proof fn lemma_surplus_split(
    s: Seq<TokenType>,
    p: int,
    q: int,
    e: int,
    open: TokenType,
    close: TokenType,
)
    requires
        0 <= p <= q <= e <= s.len(),
    ensures
        surplus(s.subrange(p, e), open, close) == surplus(s.subrange(p, q), open, close) + surplus(
            s.subrange(q, e),
            open,
            close,
        ),
{
    assert(s.subrange(p, e) =~= s.subrange(p, q) + s.subrange(q, e));
    lemma_surplus_concat(s.subrange(p, q), s.subrange(q, e), open, close);
}

/// The surplus of a single token is its weight.
pub proof fn lemma_surplus_one(s: Seq<TokenType>, p: int, open: TokenType, close: TokenType)
    requires
        0 <= p < s.len(),
    ensures
        surplus(s.subrange(p, p + 1), open, close) == weight(s[p], open, close),
{
    let one = s.subrange(p, p + 1);
    assert(one.drop_last() =~= Seq::<TokenType>::empty());
    assert(one.last() == s[p]);
    reveal_with_fuel(surplus, 2);
}

/// A value holds as many opening as closing tokens of a pair.
pub proof fn lemma_value_surplus(s: Seq<TokenType>, p: int, open: TokenType, close: TokenType)
    requires
        value_end(s, p) is Some,
        is_pair(open, close),
    ensures
        surplus(s.subrange(p, value_end(s, p)->0), open, close) == 0,
    decreases s.len() - p, 2int,
{
    if s[p] == TokenType::LeftBrace {
        lemma_object_surplus(s, p, open, close);
    } else if s[p] == TokenType::LeftSquareBracket {
        lemma_array_surplus(s, p, open, close);
    } else {
        lemma_surplus_one(s, p, open, close);
    }
}

/// An object holds as many opening as closing tokens of a pair.
pub proof fn lemma_object_surplus(s: Seq<TokenType>, p: int, open: TokenType, close: TokenType)
    requires
        object_end(s, p) is Some,
        is_pair(open, close),
    ensures
        surplus(s.subrange(p, object_end(s, p)->0), open, close) == 0,
    decreases s.len() - p, 1int,
{
    let e = object_end(s, p)->0;
    lemma_surplus_one(s, p, open, close);
    if p + 1 < s.len() && s[p + 1] == TokenType::RightBrace {
        lemma_surplus_one(s, p + 1, open, close);
    } else {
        lemma_members_surplus(s, p + 1, open, close);
    }
    lemma_surplus_split(s, p, p + 1, e, open, close);
}

/// Members with the brace that closes them hold one closing brace more than
/// opening ones, and as many opening as closing brackets.
pub proof fn lemma_members_surplus(s: Seq<TokenType>, p: int, open: TokenType, close: TokenType)
    requires
        members_end(s, p) is Some,
        is_pair(open, close),
    ensures
        0 <= p < members_end(s, p)->0 <= s.len(),
        surplus(s.subrange(p, members_end(s, p)->0), open, close) == weight(
            TokenType::RightBrace,
            open,
            close,
        ),
    decreases s.len() - p, 3int,
{
    let e = members_end(s, p)->0;
    let q = value_end(s, p + 2)->0;
    lemma_value_end_sound(s, p + 2);
    lemma_value_surplus(s, p + 2, open, close);
    lemma_surplus_one(s, p, open, close);
    lemma_surplus_one(s, p + 1, open, close);
    lemma_surplus_one(s, q, open, close);
    if s[q] == TokenType::Comma {
        lemma_members_surplus(s, q + 1, open, close);
    }
    lemma_surplus_split(s, p, p + 1, e, open, close);
    lemma_surplus_split(s, p + 1, p + 2, e, open, close);
    lemma_surplus_split(s, p + 2, q, e, open, close);
    lemma_surplus_split(s, q, q + 1, e, open, close);
    if q + 1 == e {
        assert(s.subrange(e, e) =~= Seq::<TokenType>::empty());
    }
}

/// An array holds as many opening as closing tokens of a pair.
pub proof fn lemma_array_surplus(s: Seq<TokenType>, p: int, open: TokenType, close: TokenType)
    requires
        array_end(s, p) is Some,
        is_pair(open, close),
    ensures
        surplus(s.subrange(p, array_end(s, p)->0), open, close) == 0,
    decreases s.len() - p, 1int,
{
    let e = array_end(s, p)->0;
    lemma_surplus_one(s, p, open, close);
    if p + 1 < s.len() && s[p + 1] == TokenType::RightSquareBracket {
        lemma_surplus_one(s, p + 1, open, close);
    } else {
        lemma_elements_surplus(s, p + 1, open, close);
    }
    lemma_surplus_split(s, p, p + 1, e, open, close);
}

/// Elements with the bracket that closes them hold one closing bracket more
/// than opening ones, and as many opening as closing braces.
pub proof fn lemma_elements_surplus(s: Seq<TokenType>, p: int, open: TokenType, close: TokenType)
    requires
        elements_end(s, p) is Some,
        is_pair(open, close),
    ensures
        0 <= p < elements_end(s, p)->0 <= s.len(),
        surplus(s.subrange(p, elements_end(s, p)->0), open, close) == weight(
            TokenType::RightSquareBracket,
            open,
            close,
        ),
    decreases s.len() - p, 3int,
{
    let e = elements_end(s, p)->0;
    let q = value_end(s, p)->0;
    lemma_value_end_sound(s, p);
    lemma_value_surplus(s, p, open, close);
    lemma_surplus_one(s, q, open, close);
    if s[q] == TokenType::Comma {
        lemma_elements_surplus(s, q + 1, open, close);
    }
    lemma_surplus_split(s, p, q, e, open, close);
    lemma_surplus_split(s, q, q + 1, e, open, close);
    if q + 1 == e {
        assert(s.subrange(e, e) =~= Seq::<TokenType>::empty());
    }
}

/// A document holds as many left as right braces, and as many left as right
/// square brackets.
pub proof fn lemma_document_balanced(s: Seq<TokenType>)
    requires
        is_document(s),
    ensures
        surplus(s, TokenType::LeftBrace, TokenType::RightBrace) == 0,
        surplus(s, TokenType::LeftSquareBracket, TokenType::RightSquareBracket) == 0,
{
    lemma_document_is_object_end(s);
    assert(s.subrange(0, s.len() as int) =~= s);
    lemma_object_surplus(s, 0, TokenType::LeftBrace, TokenType::RightBrace);
    lemma_object_surplus(s, 0, TokenType::LeftSquareBracket, TokenType::RightSquareBracket);
}

/// One token more adds its weight to the surplus.
pub proof fn lemma_surplus_insert(
    s: Seq<TokenType>,
    i: int,
    t: TokenType,
    open: TokenType,
    close: TokenType,
)
    requires
        0 <= i <= s.len(),
    ensures
        surplus(s.insert(i, t), open, close) == surplus(s, open, close) + weight(t, open, close),
{
    let head = s.subrange(0, i);
    let tail = s.subrange(i, s.len() as int);
    assert(s =~= head + tail);
    assert(head.push(t).drop_last() =~= head);
    lemma_surplus_concat(head, tail, open, close);
    lemma_surplus_concat(head.push(t), tail, open, close);
}

/// One token less takes its weight from the surplus.
pub proof fn lemma_surplus_remove(s: Seq<TokenType>, i: int, open: TokenType, close: TokenType)
    requires
        0 <= i < s.len(),
    ensures
        surplus(s.remove(i), open, close) == surplus(s, open, close) - weight(s[i], open, close),
{
    let rest = s.remove(i);
    assert(rest.insert(i, s[i]) =~= s);
    lemma_surplus_insert(rest, i, s[i], open, close);
}

/// A brace or a square bracket put anywhere into a document leaves no
/// document.
pub proof fn lemma_extra_bracket_invalidates(s: Seq<TokenType>, i: int, bracket: TokenType)
    requires
        is_document(s),
        0 <= i <= s.len(),
        is_bracket(bracket),
    ensures
        !is_document(s.insert(i, bracket)),
{
    lemma_document_balanced(s);
    lemma_surplus_insert(s, i, bracket, TokenType::LeftBrace, TokenType::RightBrace);
    lemma_surplus_insert(
        s,
        i,
        bracket,
        TokenType::LeftSquareBracket,
        TokenType::RightSquareBracket,
    );
    if is_document(s.insert(i, bracket)) {
        lemma_document_balanced(s.insert(i, bracket));
    }
}

/// A document from which one brace or square bracket is taken away is
/// no document.
pub proof fn lemma_missing_bracket_invalidates(s: Seq<TokenType>, i: int)
    requires
        is_document(s),
        0 <= i < s.len(),
        is_bracket(s[i]),
    ensures
        !is_document(s.remove(i)),
{
    lemma_document_balanced(s);
    lemma_surplus_remove(s, i, TokenType::LeftBrace, TokenType::RightBrace);
    lemma_surplus_remove(s, i, TokenType::LeftSquareBracket, TokenType::RightSquareBracket);
    if is_document(s.remove(i)) {
        lemma_document_balanced(s.remove(i));
    }
}

} // verus!
