//! The recognizer: a recursive descent over the lexer's tokens with one
//! token of lookahead.

use vstd::prelude::*;
use crate::grammar::{
    array_end, elements_end, is_array, is_document, is_object, is_value,
    lemma_array_end_is_grammar, lemma_document_is_object_end, lemma_object_end_is_grammar,
    lemma_value_end_is_grammar, lemma_value_end_sound, members_end, object_end, value_end,
};
use crate::lexer::{Lexer, scanned_out};
use crate::lexical::lex;
use crate::symbol::Delivered;
use crate::token::{Token, TokenType, lexemes, token_types};

verus! {

/// The recognizer's state: the lexer, whose token cursor it moves, and the
/// lookahead slot, which holds the next token that is not consumed yet.
pub struct SyntaxAnalyser {
    pub lexer: Lexer,
    /// The lookahead; `None` stands for the end of the tokens.
    pub next_token: Option<Token>,
}

/// `after` holds the input and the tokens of `before`; only the token cursor
/// may differ.
pub open spec fn same_tokens(before: SyntaxAnalyser, after: SyntaxAnalyser) -> bool {
    after.lexer == (Lexer { current_token: after.lexer.current_token, ..before.lexer })
}

/// `after` is `before` after a rule was tried that ends at `end`, if it
/// matches: where it matches the lookahead stands at `end`, where it does
/// not nothing has changed.
pub open spec fn rule_applied(
    before: SyntaxAnalyser,
    after: SyntaxAnalyser,
    ok: bool,
    end: Option<int>,
) -> bool {
    &&& ok == end is Some
    &&& ok ==> same_tokens(before, after) && after.stands_at(end->0)
    &&& !ok ==> after == before
}

impl SyntaxAnalyser {
    /// The lexer's cursors are within bounds, and the lookahead is the token
    /// before the lexer's token cursor.
    pub open spec fn wf(&self) -> bool {
        &&& self.lexer.wf()
        &&& self.next_token matches Some(token) ==> 1 <= self.lexer.current_token && token
            == self.lexer.tokens[self.lexer.current_token - 1]
    }

    /// The classes of the lexer's tokens.
    pub open spec fn types(&self) -> Seq<TokenType> {
        token_types(self.lexer.lexemes())
    }

    /// The index of the token in the lookahead; the number of tokens where
    /// the lookahead is empty.
    pub open spec fn position(&self) -> int {
        if self.next_token is Some {
            self.lexer.current_token - 1
        } else {
            self.lexer.tokens.len() as int
        }
    }

    /// The lookahead holds the token at index `p`, or nothing where `p` is
    /// the number of tokens, and the lexer's token cursor stands after it.
    pub open spec fn stands_at(&self, p: int) -> bool {
        &&& self.wf()
        &&& self.position() == p
        &&& self.lexer.current_token == if p < self.lexer.tokens.len() {
            p + 1
        } else {
            p
        }
    }

    /// What `parse` answers: whether the tokens found so far, with those of
    /// the input that is left, are a document.
    pub open spec fn verdict(&self) -> bool {
        is_document(token_types(self.lexer.lexemes() + lex(self.lexer.remaining())))
    }

    /// A recognizer on `lexer` with an empty lookahead.
    pub fn new(lexer: Lexer) -> (analyser: SyntaxAnalyser)
        ensures
            analyser.lexer == lexer,
            analyser.next_token is None,
            lexer.wf() ==> analyser.wf(),
    {
        SyntaxAnalyser { lexer, next_token: None }
    }

    /// The index of the token in the lookahead.
    pub fn cursor(&self) -> (p: usize)
        requires
            self.wf(),
        ensures
            p == self.position(),
    {
        match &self.next_token {
            Some(_) => self.lexer.current_token - 1,
            None => self.lexer.tokens.len(),
        }
    }

    /// Puts the token at index `mark` into the lookahead.
    pub fn rewind(&mut self, mark: usize)
        requires
            old(self).lexer.wf(),
            mark <= old(self).lexer.tokens.len(),
        ensures
            same_tokens(*old(self), *final(self)),
            final(self).stands_at(mark as int),
    {
        self.lexer.current_token = mark;
        self.next_token = self.lexer.next_token();
    }

    /// Consumes the lookahead if it is of the given class.
    pub fn match_token(&mut self, token_type: TokenType) -> (ok: bool)
        requires
            old(self).wf(),
        ensures
            ok == (old(self).position() < old(self).types().len()
                && old(self).types()[old(self).position()] == token_type),
            ok ==> same_tokens(*old(self), *final(self)),
            ok ==> final(self).stands_at(old(self).position() + 1),
            !ok ==> *final(self) == *old(self),
    {
        let found = match &self.next_token {
            None => false,
            Some(token) => token.token_type == token_type,
        };
        if found {
            self.next_token = self.lexer.next_token();
        }
        found
    }

    /// Matches a value at the lookahead: a scalar, an object or an array.
    pub fn value(&mut self) -> (ok: bool)
        requires
            old(self).wf(),
        ensures
            rule_applied(
                *old(self),
                *final(self),
                ok,
                value_end(old(self).types(), old(self).position()),
            ),
            forall|e: int|
                old(self).position() <= e <= old(self).types().len() ==> (is_value(
                    #[trigger] old(self).types().subrange(old(self).position(), e),
                ) <==> ok && e == final(self).position()),
        decreases old(self).types().len() - old(self).position(), 2int,
    {
        proof {
            lemma_value_end_is_grammar(self.types(), self.position());
        }
        if self.match_token(TokenType::String) {
            return true;
        }
        if self.match_token(TokenType::Number) {
            return true;
        }
        if self.match_token(TokenType::True) {
            return true;
        }
        if self.match_token(TokenType::False) {
            return true;
        }
        if self.match_token(TokenType::Null) {
            return true;
        }
        if self.object() {
            return true;
        }
        if self.array() {
            return true;
        }
        false
    }

    /// Matches an object at the lookahead: a left brace, members with a
    /// comma between each two or none at all, and a right brace.
    #[verifier::loop_isolation(false)]
    pub fn object(&mut self) -> (ok: bool)
        requires
            old(self).wf(),
        ensures
            rule_applied(
                *old(self),
                *final(self),
                ok,
                object_end(old(self).types(), old(self).position()),
            ),
            forall|e: int|
                old(self).position() <= e <= old(self).types().len() ==> (is_object(
                    #[trigger] old(self).types().subrange(old(self).position(), e),
                ) <==> ok && e == final(self).position()),
        decreases old(self).types().len() - old(self).position(), 1int,
    {
        let ghost s = self.types();
        let ghost p = self.position();
        proof {
            lemma_object_end_is_grammar(s, p);
        }
        let mark = self.cursor();
        if !self.match_token(TokenType::LeftBrace) {
            return false;
        }
        if self.match_token(TokenType::RightBrace) {
            return true;
        }
        loop
            invariant
                self.wf(),
                same_tokens(*old(self), *self),
                p < self.position() <= s.len(),
                members_end(s, self.position()) == object_end(s, p),
            decreases s.len() - self.position(),
        {
            let ghost member = self.position();
            if !self.match_token(TokenType::String) {
                self.rewind(mark);
                return false;
            }
            if !self.match_token(TokenType::Colon) {
                self.rewind(mark);
                return false;
            }
            if !self.value() {
                self.rewind(mark);
                return false;
            }
            proof {
                lemma_value_end_sound(s, member + 2);
            }
            if self.match_token(TokenType::Comma) {
            } else if self.match_token(TokenType::RightBrace) {
                return true;
            } else {
                self.rewind(mark);
                return false;
            }
        }
    }

    /// Matches an array at the lookahead: a left bracket, values with a
    /// comma between each two or none at all, and a right bracket.
    #[verifier::loop_isolation(false)]
    pub fn array(&mut self) -> (ok: bool)
        requires
            old(self).wf(),
        ensures
            rule_applied(
                *old(self),
                *final(self),
                ok,
                array_end(old(self).types(), old(self).position()),
            ),
            forall|e: int|
                old(self).position() <= e <= old(self).types().len() ==> (is_array(
                    #[trigger] old(self).types().subrange(old(self).position(), e),
                ) <==> ok && e == final(self).position()),
        decreases old(self).types().len() - old(self).position(), 1int,
    {
        let ghost s = self.types();
        let ghost p = self.position();
        proof {
            lemma_array_end_is_grammar(s, p);
        }
        let mark = self.cursor();
        if !self.match_token(TokenType::LeftSquareBracket) {
            return false;
        }
        if self.match_token(TokenType::RightSquareBracket) {
            return true;
        }
        loop
            invariant
                self.wf(),
                same_tokens(*old(self), *self),
                p < self.position() <= s.len(),
                elements_end(s, self.position()) == array_end(s, p),
            decreases s.len() - self.position(),
        {
            let ghost element = self.position();
            if !self.value() {
                self.rewind(mark);
                return false;
            }
            proof {
                lemma_value_end_sound(s, element);
            }
            if self.match_token(TokenType::Comma) {
            } else if self.match_token(TokenType::RightSquareBracket) {
                return true;
            } else {
                self.rewind(mark);
                return false;
            }
        }
    }

    /// Validates the input: runs the lexer to the end, then matches one
    /// object from the first token on and accepts where no token is left
    /// after it. Whatever was consumed before, every call starts at the
    /// first token, so that a second call answers as the first did.
    pub fn parse(&mut self) -> (ok: bool)
        requires
            old(self).lexer.wf(),
        ensures
            scanned_out(
                old(self).lexer,
                Lexer { current_token: old(self).lexer.current_token, ..final(self).lexer },
            ),
            ok == is_document(final(self).types()),
            ok == old(self).verdict(),
            final(self).verdict() == old(self).verdict(),
            final(self).stands_at(
                match object_end(final(self).types(), 0) {
                    Some(e) => e,
                    None => 0,
                },
            ),
    {
        self.lexer.scan_tokens();
        self.rewind(0);
        proof {
            lemma_document_is_object_end(self.types());
            assert(self.lexer.lexemes() + lex(self.lexer.remaining()) =~= self.lexer.lexemes());
        }
        let matched = self.object();
        matched && self.next_token.is_none()
    }
}

/// Whether the tokens are a document: one object, with nothing after it.
pub fn validate(tokens: Vec<Token>) -> (ok: bool)
    ensures
        ok == is_document(token_types(lexemes(tokens@))),
{
    let lexer = Lexer {
        lines: Vec::new(),
        tokens,
        current_char: None,
        current_offset: 0,
        current_line_number: 0,
        lexeme: std::string::String::new(),
        current_token: 0,
    };
    let mut analyser = SyntaxAnalyser::new(lexer);
    proof {
        assert(analyser.lexer.remaining() =~= Seq::<Delivered>::empty());
        assert(lexemes(tokens@) + lex(Seq::<Delivered>::empty()) =~= lexemes(tokens@));
    }
    analyser.parse()
}

} // verus!
