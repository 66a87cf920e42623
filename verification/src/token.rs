//! Tokens: what the lexer hands to the recognizer.

use vstd::prelude::*;
use vstd::string::*;

verus! {

/// The class of a token. `Other` stands for input that no lexical rule
/// matches; the grammar accepts it nowhere.
#[derive(Debug, Clone, Copy, PartialEq, Eq, Structural)]
pub enum TokenType {
    LeftBrace,
    RightBrace,
    String,
    Number,
    True,
    False,
    Null,
    Colon,
    Comma,
    LeftSquareBracket,
    RightSquareBracket,
    Other,
}

/// A token as a mathematical value: its class and the text of the input that
/// it spans.
pub struct Lexeme {
    pub token_type: TokenType,
    pub text: Seq<char>,
}

/// A classified span of the input, with the characters of that span as they
/// stand in the input. The text serves diagnostics only; the recognizer
/// reads the class.
#[derive(Debug, PartialEq, Eq)]
pub struct Token {
    pub token_type: TokenType,
    pub original_text: std::string::String,
}

impl View for Token {
    type V = Lexeme;

    open spec fn view(&self) -> Lexeme {
        Lexeme { token_type: self.token_type, text: self.original_text@ }
    }
}

impl Clone for Token {
    fn clone(&self) -> (t: Token)
        ensures
            t == *self,
    {
        Token { token_type: self.token_type, original_text: self.original_text.clone() }
    }
}

impl Token {
    pub fn new(token_type: TokenType, original_text: std::string::String) -> (t: Token)
        ensures
            t.token_type == token_type,
            t.original_text == original_text,
    {
        Token { token_type, original_text }
    }
}

/// The tokens of a list as mathematical values.
pub open spec fn lexemes(tokens: Seq<Token>) -> Seq<Lexeme> {
    tokens.map_values(|t: Token| t@)
}

/// The classes of a sequence of tokens, in order.
pub open spec fn token_types(tokens: Seq<Lexeme>) -> Seq<TokenType> {
    tokens.map_values(|t: Lexeme| t.token_type)
}

/// The keyword table: the class of a word. A word that is none of the three
/// keywords, letter for letter, is `Other`.
pub open spec fn keyword_type(word: Seq<char>) -> TokenType {
    if word == "true"@ {
        TokenType::True
    } else if word == "false"@ {
        TokenType::False
    } else if word == "null"@ {
        TokenType::Null
    } else {
        TokenType::Other
    }
}

/// Whether two texts are the same, character by character.
pub fn same_text(a: &str, b: &str) -> (r: bool)
    ensures
        r == (a@ == b@),
{
    let n = a.unicode_len();
    if n != b.unicode_len() {
        return false;
    }
    let mut i: usize = 0;
    while i < n
        invariant
            n == a@.len(),
            n == b@.len(),
            i <= n,
            forall|j: int| 0 <= j < i ==> a@[j] == b@[j],
        decreases n - i,
    {
        if a.get_char(i) != b.get_char(i) {
            return false;
        }
        i += 1;
    }
    assert(a@ =~= b@);
    true
}

/// Looks a word up in the keyword table.
pub fn lookup_keyword(word: &str) -> (t: TokenType)
    ensures
        t == keyword_type(word@),
{
    if same_text(word, "true") {
        TokenType::True
    } else if same_text(word, "false") {
        TokenType::False
    } else if same_text(word, "null") {
        TokenType::Null
    } else {
        TokenType::Other
    }
}

} // verus!
