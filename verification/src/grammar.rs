//! The grammar of documents over token classes, and where in a sequence of
//! classes a rule of the grammar ends.
//!
//! ```text
//! object  := '{' [ member (',' member)* ] '}'
//! member  := String ':' value
//! value   := String | Number | True | False | Null | object | array
//! array   := '[' [ value (',' value)* ] ']'
//! ```

use vstd::prelude::*;
use crate::token::TokenType;

verus! {

/// The classes that are a value by themselves.
pub open spec fn is_scalar(t: TokenType) -> bool {
    ||| t == TokenType::String
    ||| t == TokenType::Number
    ||| t == TokenType::True
    ||| t == TokenType::False
    ||| t == TokenType::Null
}

/// `s` is a value: a scalar, an object or an array.
pub open spec fn is_value(s: Seq<TokenType>) -> bool
    decreases s.len(), 2int,
{
    ||| s.len() == 1 && is_scalar(s[0])
    ||| is_object(s)
    ||| is_array(s)
}

/// `s` is an object: braces around nothing or around members.
pub open spec fn is_object(s: Seq<TokenType>) -> bool
    decreases s.len(), 1int,
{
    &&& s.len() >= 2
    &&& s[0] == TokenType::LeftBrace
    &&& s.last() == TokenType::RightBrace
    &&& (s.len() == 2 || is_members(s.subrange(1, s.len() - 1)))
}

/// `s` is one member or several with a comma between each two. A member is a
/// string, a colon and a value.
pub open spec fn is_members(s: Seq<TokenType>) -> bool
    decreases s.len(), 3int,
{
    &&& s.len() >= 3
    &&& s[0] == TokenType::String
    &&& s[1] == TokenType::Colon
    &&& exists|k: int|
        #![trigger s.subrange(2, k)]
        3 <= k <= s.len() && is_value(s.subrange(2, k)) && (k == s.len() || (s[k]
            == TokenType::Comma && is_members(s.subrange(k + 1, s.len() as int))))
}

/// `s` is an array: square brackets around nothing or around elements.
pub open spec fn is_array(s: Seq<TokenType>) -> bool
    decreases s.len(), 1int,
{
    &&& s.len() >= 2
    &&& s[0] == TokenType::LeftSquareBracket
    &&& s.last() == TokenType::RightSquareBracket
    &&& (s.len() == 2 || is_elements(s.subrange(1, s.len() - 1)))
}

/// `s` is one value or several with a comma between each two.
pub open spec fn is_elements(s: Seq<TokenType>) -> bool
    decreases s.len(), 3int,
{
    exists|k: int|
        #![trigger s.subrange(0, k)]
        1 <= k <= s.len() && is_value(s.subrange(0, k)) && (k == s.len() || (s[k]
            == TokenType::Comma && is_elements(s.subrange(k + 1, s.len() as int))))
}

/// `s` is a document: one object and nothing after it.
pub open spec fn is_document(s: Seq<TokenType>) -> bool {
    is_object(s)
}

/// Where the value ends that begins at `p`: the index after its last token,
/// or `None` where no value begins at `p`.
pub open spec fn value_end(s: Seq<TokenType>, p: int) -> Option<int>
    decreases s.len() - p, 2int,
{
    if 0 <= p < s.len() {
        if is_scalar(s[p]) {
            Some(p + 1)
        } else if s[p] == TokenType::LeftBrace {
            object_end(s, p)
        } else if s[p] == TokenType::LeftSquareBracket {
            array_end(s, p)
        } else {
            None
        }
    } else {
        None
    }
}

/// Where the object ends that begins at `p`.
pub open spec fn object_end(s: Seq<TokenType>, p: int) -> Option<int>
    decreases s.len() - p, 1int,
{
    if 0 <= p < s.len() && s[p] == TokenType::LeftBrace {
        if p + 1 < s.len() && s[p + 1] == TokenType::RightBrace {
            Some(p + 2)
        } else {
            members_end(s, p + 1)
        }
    } else {
        None
    }
}

/// Where the object ends whose next member begins at `p`: after a member
/// comes a comma and another member, or the closing brace.
pub open spec fn members_end(s: Seq<TokenType>, p: int) -> Option<int>
    decreases s.len() - p, 3int,
{
    if 0 <= p && p + 2 < s.len() && s[p] == TokenType::String && s[p + 1] == TokenType::Colon {
        match value_end(s, p + 2) {
            Some(q) => if p + 2 < q < s.len() {
                if s[q] == TokenType::Comma {
                    members_end(s, q + 1)
                } else if s[q] == TokenType::RightBrace {
                    Some(q + 1)
                } else {
                    None
                }
            } else {
                None
            },
            None => None,
        }
    } else {
        None
    }
}

/// Where the array ends that begins at `p`.
pub open spec fn array_end(s: Seq<TokenType>, p: int) -> Option<int>
    decreases s.len() - p, 1int,
{
    if 0 <= p < s.len() && s[p] == TokenType::LeftSquareBracket {
        if p + 1 < s.len() && s[p + 1] == TokenType::RightSquareBracket {
            Some(p + 2)
        } else {
            elements_end(s, p + 1)
        }
    } else {
        None
    }
}

/// Where the array ends whose next element begins at `p`: after an element
/// comes a comma and another element, or the closing bracket.
pub open spec fn elements_end(s: Seq<TokenType>, p: int) -> Option<int>
    decreases s.len() - p, 3int,
{
    if 0 <= p < s.len() {
        match value_end(s, p) {
            Some(q) => if p < q < s.len() {
                if s[q] == TokenType::Comma {
                    elements_end(s, q + 1)
                } else if s[q] == TokenType::RightSquareBracket {
                    Some(q + 1)
                } else {
                    None
                }
            } else {
                None
            },
            None => None,
        }
    } else {
        None
    }
}

/// Where a value is found at `p`, the tokens from `p` to its end are a value.
pub proof fn lemma_value_end_sound(s: Seq<TokenType>, p: int)
    requires
        value_end(s, p) is Some,
    ensures
        0 <= p < value_end(s, p)->0 <= s.len(),
        is_value(s.subrange(p, value_end(s, p)->0)),
    decreases s.len() - p, 2int,
{
    if is_scalar(s[p]) {
        assert(s.subrange(p, p + 1)[0] == s[p]);
    } else if s[p] == TokenType::LeftBrace {
        lemma_object_end_sound(s, p);
    } else {
        lemma_array_end_sound(s, p);
    }
}

/// Where an object is found at `p`, the tokens from `p` to its end are an
/// object.
pub proof fn lemma_object_end_sound(s: Seq<TokenType>, p: int)
    requires
        object_end(s, p) is Some,
    ensures
        0 <= p,
        p + 2 <= object_end(s, p)->0 <= s.len(),
        is_object(s.subrange(p, object_end(s, p)->0)),
    decreases s.len() - p, 1int,
{
    let e = object_end(s, p)->0;
    if p + 1 < s.len() && s[p + 1] == TokenType::RightBrace {
        let o = s.subrange(p, e);
        assert(o[0] == s[p] && o.last() == s[p + 1]);
    } else {
        lemma_members_end_sound(s, p + 1);
        let o = s.subrange(p, e);
        assert(o[0] == s[p] && o.last() == s[e - 1]);
        assert(o.subrange(1, o.len() - 1) =~= s.subrange(p + 1, e - 1));
    }
}

/// Where members and a closing brace are found at `p`, the tokens from `p`
/// to the brace are members.
pub proof fn lemma_members_end_sound(s: Seq<TokenType>, p: int)
    requires
        members_end(s, p) is Some,
    ensures
        0 <= p,
        p + 4 <= members_end(s, p)->0 <= s.len(),
        s[members_end(s, p)->0 - 1] == TokenType::RightBrace,
        is_members(s.subrange(p, members_end(s, p)->0 - 1)),
    decreases s.len() - p, 3int,
{
    let e = members_end(s, p)->0;
    let q = value_end(s, p + 2)->0;
    lemma_value_end_sound(s, p + 2);
    if s[q] == TokenType::Comma {
        lemma_members_end_sound(s, q + 1);
    }
    let m = s.subrange(p, e - 1);
    let k = q - p;
    assert(m[0] == s[p] && m[1] == s[p + 1]);
    assert(m.subrange(2, k) =~= s.subrange(p + 2, q));
    if s[q] == TokenType::Comma {
        assert(m[k] == s[q]);
        assert(m.subrange(k + 1, m.len() as int) =~= s.subrange(q + 1, e - 1));
    }
    assert(is_value(m.subrange(2, k)));
}

/// Where an array is found at `p`, the tokens from `p` to its end are an
/// array.
pub proof fn lemma_array_end_sound(s: Seq<TokenType>, p: int)
    requires
        array_end(s, p) is Some,
    ensures
        0 <= p,
        p + 2 <= array_end(s, p)->0 <= s.len(),
        is_array(s.subrange(p, array_end(s, p)->0)),
    decreases s.len() - p, 1int,
{
    let e = array_end(s, p)->0;
    if p + 1 < s.len() && s[p + 1] == TokenType::RightSquareBracket {
        let a = s.subrange(p, e);
        assert(a[0] == s[p] && a.last() == s[p + 1]);
    } else {
        lemma_elements_end_sound(s, p + 1);
        let a = s.subrange(p, e);
        assert(a[0] == s[p] && a.last() == s[e - 1]);
        assert(a.subrange(1, a.len() - 1) =~= s.subrange(p + 1, e - 1));
    }
}

/// Where elements and a closing bracket are found at `p`, the tokens from
/// `p` to the bracket are elements.
pub proof fn lemma_elements_end_sound(s: Seq<TokenType>, p: int)
    requires
        elements_end(s, p) is Some,
    ensures
        0 <= p,
        p + 2 <= elements_end(s, p)->0 <= s.len(),
        s[elements_end(s, p)->0 - 1] == TokenType::RightSquareBracket,
        is_elements(s.subrange(p, elements_end(s, p)->0 - 1)),
    decreases s.len() - p, 3int,
{
    let e = elements_end(s, p)->0;
    let q = value_end(s, p)->0;
    lemma_value_end_sound(s, p);
    if s[q] == TokenType::Comma {
        lemma_elements_end_sound(s, q + 1);
    }
    let m = s.subrange(p, e - 1);
    let k = q - p;
    assert(m.subrange(0, k) =~= s.subrange(p, q));
    if s[q] == TokenType::Comma {
        assert(m[k] == s[q]);
        assert(m.subrange(k + 1, m.len() as int) =~= s.subrange(q + 1, e - 1));
    }
    assert(is_value(m.subrange(0, k)));
}

/// Where the tokens from `p` to `e` are a value, a value is found at `p`
/// and ends at `e`.
pub proof fn lemma_value_end_complete(s: Seq<TokenType>, p: int, e: int)
    requires
        0 <= p <= e <= s.len(),
        is_value(s.subrange(p, e)),
    ensures
        value_end(s, p) == Some(e),
    decreases e - p, 2int,
{
    let v = s.subrange(p, e);
    assert(v.len() >= 1);
    assert(v[0] == s[p]);
    if is_object(v) {
        lemma_object_end_complete(s, p, e);
    } else if is_array(v) {
        lemma_array_end_complete(s, p, e);
    }
}

/// Where the tokens from `p` to `e` are an object, an object is found at
/// `p` and ends at `e`.
pub proof fn lemma_object_end_complete(s: Seq<TokenType>, p: int, e: int)
    requires
        0 <= p <= e <= s.len(),
        is_object(s.subrange(p, e)),
    ensures
        object_end(s, p) == Some(e),
    decreases e - p, 1int,
{
    let o = s.subrange(p, e);
    assert(o[0] == s[p] && o.last() == s[e - 1]);
    if o.len() == 2 {
        assert(o[1] == s[p + 1]);
    } else {
        let m = o.subrange(1, o.len() - 1);
        assert(m =~= s.subrange(p + 1, e - 1));
        assert(m[0] == s[p + 1]);
        lemma_members_end_complete(s, p + 1, e - 1);
    }
}

/// Where the tokens from `p` to `e` are members and a closing brace stands
/// at `e`, the members are found at `p` and the object ends after `e`.
pub proof fn lemma_members_end_complete(s: Seq<TokenType>, p: int, e: int)
    requires
        0 <= p <= e < s.len(),
        is_members(s.subrange(p, e)),
        s[e] == TokenType::RightBrace,
    ensures
        members_end(s, p) == Some(e + 1),
    decreases e - p, 3int,
{
    let m = s.subrange(p, e);
    assert(m[0] == s[p] && m[1] == s[p + 1]);
    let k = choose|k: int|
        #![trigger m.subrange(2, k)]
        3 <= k <= m.len() && is_value(m.subrange(2, k)) && (k == m.len() || (m[k]
            == TokenType::Comma && is_members(m.subrange(k + 1, m.len() as int))));
    assert(m.subrange(2, k) =~= s.subrange(p + 2, p + k));
    lemma_value_end_complete(s, p + 2, p + k);
    if k < m.len() {
        assert(m[k] == s[p + k]);
        assert(m.subrange(k + 1, m.len() as int) =~= s.subrange(p + k + 1, e));
        lemma_members_end_complete(s, p + k + 1, e);
    }
}

/// Where the tokens from `p` to `e` are an array, an array is found at `p`
/// and ends at `e`.
pub proof fn lemma_array_end_complete(s: Seq<TokenType>, p: int, e: int)
    requires
        0 <= p <= e <= s.len(),
        is_array(s.subrange(p, e)),
    ensures
        array_end(s, p) == Some(e),
    decreases e - p, 1int,
{
    let a = s.subrange(p, e);
    assert(a[0] == s[p] && a.last() == s[e - 1]);
    if a.len() == 2 {
        assert(a[1] == s[p + 1]);
    } else {
        let m = a.subrange(1, a.len() - 1);
        assert(m =~= s.subrange(p + 1, e - 1));
        let k = choose|k: int|
            #![trigger m.subrange(0, k)]
        1 <= k <= m.len() && is_value(m.subrange(0, k)) && (k == m.len() || (m[k]
                == TokenType::Comma && is_elements(m.subrange(k + 1, m.len() as int))));
        let v = m.subrange(0, k);
        assert(v[0] == m[0] && m[0] == s[p + 1]);
        lemma_elements_end_complete(s, p + 1, e - 1);
    }
}

/// Where the tokens from `p` to `e` are elements and a closing bracket
/// stands at `e`, the elements are found at `p` and the array ends after
/// `e`.
pub proof fn lemma_elements_end_complete(s: Seq<TokenType>, p: int, e: int)
    requires
        0 <= p <= e < s.len(),
        is_elements(s.subrange(p, e)),
        s[e] == TokenType::RightSquareBracket,
    ensures
        elements_end(s, p) == Some(e + 1),
    decreases e - p, 3int,
{
    let m = s.subrange(p, e);
    let k = choose|k: int|
        #![trigger m.subrange(0, k)]
        1 <= k <= m.len() && is_value(m.subrange(0, k)) && (k == m.len() || (m[k]
            == TokenType::Comma && is_elements(m.subrange(k + 1, m.len() as int))));
    assert(m.subrange(0, k) =~= s.subrange(p, p + k));
    lemma_value_end_complete(s, p, p + k);
    if k < m.len() {
        assert(m[k] == s[p + k]);
        assert(m.subrange(k + 1, m.len() as int) =~= s.subrange(p + k + 1, e));
        lemma_elements_end_complete(s, p + k + 1, e);
    }
}

/// A sequence of token classes is a document exactly where an object begins
/// at its first token and ends with its last.
pub proof fn lemma_document_is_object_end(s: Seq<TokenType>)
    ensures
        is_document(s) <==> object_end(s, 0) == Some(s.len() as int),
{
    assert(s.subrange(0, s.len() as int) =~= s);
    if is_document(s) {
        lemma_object_end_complete(s, 0, s.len() as int);
    }
    if object_end(s, 0) == Some(s.len() as int) {
        lemma_object_end_sound(s, 0);
    }
}

/// The tokens from `p` to `e` are a value exactly where the value that
/// begins at `p` ends at `e`: no other stretch from `p` on is one.
pub proof fn lemma_value_end_is_grammar(s: Seq<TokenType>, p: int)
    ensures
        forall|e: int|
            0 <= p <= e <= s.len() ==> (is_value(#[trigger] s.subrange(p, e)) <==> value_end(s, p)
                == Some(e)),
        value_end(s, p) matches Some(e) ==> 0 <= p < e <= s.len(),
{
    if value_end(s, p) is Some {
        lemma_value_end_sound(s, p);
    }
    assert forall|e: int| 0 <= p <= e <= s.len() && is_value(#[trigger] s.subrange(p, e)) implies value_end(
        s,
        p,
    ) == Some(e) by {
        lemma_value_end_complete(s, p, e);
    }
}

/// The tokens from `p` to `e` are an object exactly where the object that
/// begins at `p` ends at `e`.
pub proof fn lemma_object_end_is_grammar(s: Seq<TokenType>, p: int)
    ensures
        forall|e: int|
            0 <= p <= e <= s.len() ==> (is_object(#[trigger] s.subrange(p, e)) <==> object_end(
                s,
                p,
            ) == Some(e)),
        object_end(s, p) matches Some(e) ==> 0 <= p < e <= s.len(),
{
    if object_end(s, p) is Some {
        lemma_object_end_sound(s, p);
    }
    assert forall|e: int| 0 <= p <= e <= s.len() && is_object(#[trigger] s.subrange(p, e)) implies object_end(
        s,
        p,
    ) == Some(e) by {
        lemma_object_end_complete(s, p, e);
    }
}

/// The tokens from `p` to `e` are an array exactly where the array that
/// begins at `p` ends at `e`.
pub proof fn lemma_array_end_is_grammar(s: Seq<TokenType>, p: int)
    ensures
        forall|e: int|
            0 <= p <= e <= s.len() ==> (is_array(#[trigger] s.subrange(p, e)) <==> array_end(s, p)
                == Some(e)),
        array_end(s, p) matches Some(e) ==> 0 <= p < e <= s.len(),
{
    if array_end(s, p) is Some {
        lemma_array_end_sound(s, p);
    }
    assert forall|e: int| 0 <= p <= e <= s.len() && is_array(#[trigger] s.subrange(p, e)) implies array_end(
        s,
        p,
    ) == Some(e) by {
        lemma_array_end_complete(s, p, e);
    }
}

} // verus!
