//! The lexer: a cursor over lines of symbols that collects tokens.

use vstd::prelude::*;
use crate::lexical::{
    Run, first_token, fraction_follows, lemma_scan_len, lex, number_tail, punctuation, run_len,
    scan_len, scan_yield, string_closed, string_tail, token_len,
};
use crate::symbol::{
    Delivered, Symbol, classify, delivered, lemma_spelling_of_text, lemma_text_of_concat,
    lemma_text_of_line, lemma_text_of_one, spelling, symbols_of, text_of,
};
use crate::token::{Lexeme, Token, TokenType, keyword_type, lexemes, lookup_keyword};

verus! {

/// The lines of a buffer as sequences.
pub open spec fn line_seqs(lines: Seq<Vec<Symbol>>) -> Seq<Seq<Symbol>> {
    lines.map_values(|l: Vec<Symbol>| l@)
}

/// The lines of a text, classified.
pub open spec fn symbol_lines(lines: Seq<std::string::String>) -> Seq<Seq<Symbol>> {
    lines.map_values(|l: std::string::String| symbols_of(l@))
}

/// What the lexer delivers from line `from` on: the symbols of every line,
/// each line followed by a line break of the lexer's own, which is marked as
/// such. The input ends before the first empty line, as it does where a
/// reader yields nothing.
pub open spec fn stream_from(lines: Seq<Seq<Symbol>>, from: int) -> Seq<Delivered>
    decreases lines.len() - from,
{
    if 0 <= from < lines.len() && lines[from].len() > 0 {
        delivered(lines[from]).push(Delivered::LineBreak) + stream_from(lines, from + 1)
    } else {
        Seq::empty()
    }
}

/// The text of the input from line `from` on: the characters of every line,
/// terminators included, up to the first empty line.
pub open spec fn input_text(lines: Seq<Seq<Symbol>>, from: int) -> Seq<char>
    decreases lines.len() - from,
{
    if 0 <= from < lines.len() && lines[from].len() > 0 {
        spelling(lines[from]) + input_text(lines, from + 1)
    } else {
        Seq::empty()
    }
}

/// The text of lines of characters from line `from` on, up to the first
/// empty line.
pub open spec fn lines_text(lines: Seq<std::string::String>, from: int) -> Seq<char>
    decreases lines.len() - from,
{
    if 0 <= from < lines.len() && lines[from]@.len() > 0 {
        lines[from]@ + lines_text(lines, from + 1)
    } else {
        Seq::empty()
    }
}

/// Classifying the lines changes no character of the input.
pub proof fn lemma_input_text_of_lines(lines: Seq<std::string::String>, from: int)
    ensures
        input_text(symbol_lines(lines), from) == lines_text(lines, from),
    decreases lines.len() - from,
{
    if 0 <= from < lines.len() && lines[from]@.len() > 0 {
        lemma_input_text_of_lines(lines, from + 1);
        lemma_spelling_of_text(lines[from]@);
    }
}

/// What the lexer delivers stands for the text of the input, character by
/// character: the line breaks that it supplies add nothing to it. So the
/// text of every stretch of what is delivered is a stretch of the input.
pub proof fn lemma_stream_text(lines: Seq<Seq<Symbol>>, from: int)
    ensures
        text_of(stream_from(lines, from)) == input_text(lines, from),
    decreases lines.len() - from,
{
    if 0 <= from < lines.len() && lines[from].len() > 0 {
        let line = delivered(lines[from]);
        let rest = stream_from(lines, from + 1);
        lemma_stream_text(lines, from + 1);
        lemma_text_of_line(lines[from]);
        lemma_text_of_one(Delivered::LineBreak);
        assert(line.push(Delivered::LineBreak) =~= line + seq![Delivered::LineBreak]);
        lemma_text_of_concat(line, seq![Delivered::LineBreak]);
        lemma_text_of_concat(line.push(Delivered::LineBreak), rest);
        assert(spelling(lines[from]) + Seq::<char>::empty() =~= spelling(lines[from]));
    }
}

/// The whole input as the lexer delivers it.
pub open spec fn stream(lines: Seq<Seq<Symbol>>) -> Seq<Delivered> {
    stream_from(lines, 0)
}

/// What is still to be delivered when the cursor stands at `offset` in line
/// `line`.
pub open spec fn unread(lines: Seq<Seq<Symbol>>, line: int, offset: int) -> Seq<Delivered> {
    if 0 <= line < lines.len() && 0 <= offset <= lines[line].len() {
        stream_from(lines, line).skip(offset)
    } else {
        Seq::empty()
    }
}

/// Where the cursor stands after `n` more symbols were delivered from `line`
/// and `offset`: it moves along the line, and over the line break to the
/// start of the next line.
pub open spec fn cursor_after(lines: Seq<Seq<Symbol>>, line: int, offset: int, n: nat) -> (int, int)
    decreases n,
{
    if n == 0 {
        (line, offset)
    } else if 0 <= line < lines.len() && offset < lines[line].len() {
        cursor_after(lines, line, offset + 1, (n - 1) as nat)
    } else {
        cursor_after(lines, line + 1, 0, (n - 1) as nat)
    }
}

/// Moving on by `n` symbols and then by `m` is moving on by `n + m`.
pub proof fn lemma_cursor_after_twice(
    lines: Seq<Seq<Symbol>>,
    line: int,
    offset: int,
    n: nat,
    m: nat,
)
    ensures
        ({
            let mid = cursor_after(lines, line, offset, n);
            cursor_after(lines, mid.0, mid.1, m) == cursor_after(lines, line, offset, n + m)
        }),
    decreases n,
{
    if n > 0 {
        if 0 <= line < lines.len() && offset < lines[line].len() {
            lemma_cursor_after_twice(lines, line, offset + 1, (n - 1) as nat, m);
        } else {
            lemma_cursor_after_twice(lines, line + 1, 0, (n - 1) as nat, m);
        }
    }
}

/// The lexer's state: the input, a cursor into it, the text of the input
/// consumed since the last token boundary, the tokens found so far, and a
/// cursor into those for the recognizer.
pub struct Lexer {
    /// The input, line by line, as the reader yielded it.
    pub lines: Vec<Vec<Symbol>>,
    /// The tokens found so far, in input order.
    pub tokens: Vec<Token>,
    /// The symbol delivered last; `None` before the first and at the end of
    /// the input.
    pub current_char: Option<Symbol>,
    /// The offset of the next symbol within the current line.
    pub current_offset: usize,
    /// The index of the current line.
    pub current_line_number: usize,
    /// The text of the input consumed since the last token boundary: the
    /// characters of the lines, without the line breaks that were supplied.
    pub lexeme: std::string::String,
    /// The index of the token that `next_token` hands out next.
    pub current_token: usize,
}

/// `after` is `before` with its cursor moved over the next `n` symbols: they
/// were delivered, and the text of the input that they stand for was added
/// to the end of the lexeme.
pub open spec fn moved(before: Lexer, after: Lexer, n: nat) -> bool {
    &&& after.wf()
    &&& after.lines == before.lines
    &&& after.current_token == before.current_token
    &&& n <= before.remaining().len()
    &&& after.remaining() == before.remaining().skip(n as int)
    &&& after.cursor() == cursor_after(before.source(), before.cursor().0, before.cursor().1, n)
    &&& after.lexeme@ == before.lexeme@ + text_of(before.remaining().take(n as int))
    &&& after.current_char == if n == 0 {
        before.current_char
    } else {
        Some(before.remaining()[n - 1].symbol())
    }
}

/// The cursor moved over `n` symbols and no token was added.
pub open spec fn advanced(before: Lexer, after: Lexer, n: nat) -> bool {
    moved(before, after, n) && after.tokens == before.tokens
}

/// The cursor moved over `n` symbols, and a token of class `token_type` was
/// added whose text is the lexeme.
pub open spec fn emitted(before: Lexer, after: Lexer, n: nat, token_type: TokenType) -> bool {
    &&& moved(before, after, n)
    &&& after.lexemes() == before.lexemes().push(Lexeme { token_type, text: after.lexeme@ })
}

/// `after` is `before` after one scanning step: the lexeme was started
/// afresh, a blank or a whole token was delivered, and the token, if it was
/// one, was added.
pub open spec fn scanned(before: Lexer, after: Lexer) -> bool {
    let s = before.remaining();
    let n = scan_len(s);
    &&& after.wf()
    &&& after.lines == before.lines
    &&& after.current_token == before.current_token
    &&& after.remaining() == s.skip(n as int)
    &&& after.cursor() == cursor_after(before.source(), before.cursor().0, before.cursor().1, n)
    &&& after.lexeme@ == text_of(s.take(n as int))
    &&& after.current_char == if n == 0 {
        None::<Symbol>
    } else {
        Some(s[n - 1].symbol())
    }
    &&& after.lexemes() == before.lexemes() + scan_yield(s)
}

/// `after` is `before` run to the end of the input: every token that was
/// left in it was added, in input order, and no current character and no
/// lexeme are left behind.
pub open spec fn scanned_out(before: Lexer, after: Lexer) -> bool {
    &&& after.wf()
    &&& after.lines == before.lines
    &&& after.current_token == before.current_token
    &&& after.remaining().len() == 0
    &&& after.cursor() == cursor_after(
        before.source(),
        before.cursor().0,
        before.cursor().1,
        before.remaining().len(),
    )
    &&& after.lexemes() == before.lexemes() + lex(before.remaining())
    &&& after.current_char is None
    &&& after.lexeme@.len() == 0
}

/// Moving over `n` symbols and then over `m` is moving over `n + m`.
pub proof fn lemma_moved_twice(a: Lexer, b: Lexer, c: Lexer, n: nat, m: nat)
    requires
        moved(a, b, n),
        moved(b, c, m),
    ensures
        moved(a, c, n + m),
{
    let s = a.remaining();
    lemma_cursor_after_twice(a.source(), a.cursor().0, a.cursor().1, n, m);
    assert(s.skip(n as int).skip(m as int) =~= s.skip((n + m) as int));
    assert(s.take((n + m) as int) =~= s.take(n as int) + s.skip(n as int).take(m as int));
    lemma_text_of_concat(s.take(n as int), s.skip(n as int).take(m as int));
    assert(c.lexeme@ =~= a.lexeme@ + text_of(s.take((n + m) as int)));
}

impl Lexer {
    /// The input as sequences of symbols.
    pub open spec fn source(&self) -> Seq<Seq<Symbol>> {
        line_seqs(self.lines@)
    }

    /// The cursors are within bounds.
    pub open spec fn wf(&self) -> bool {
        &&& self.current_token <= self.tokens.len()
        &&& self.current_line_number <= self.lines.len()
        &&& if self.current_line_number < self.lines.len() {
            self.current_offset <= self.lines[self.current_line_number as int].len()
        } else {
            self.current_offset == 0
        }
    }

    /// Where the cursor stands: the index of the current line and the
    /// offset within it.
    pub open spec fn cursor(&self) -> (int, int) {
        (self.current_line_number as int, self.current_offset as int)
    }

    /// What is still to be delivered.
    pub open spec fn remaining(&self) -> Seq<Delivered> {
        unread(self.source(), self.current_line_number as int, self.current_offset as int)
    }

    /// The tokens found so far, as mathematical values.
    pub open spec fn lexemes(&self) -> Seq<Lexeme> {
        lexemes(self.tokens@)
    }

    /// A lexer at the start of lines that are classified already.
    pub fn from_symbols(lines: Vec<Vec<Symbol>>) -> (lexer: Lexer)
        ensures
            lexer.wf(),
            lexer.lines == lines,
            lexer.tokens@.len() == 0,
            lexer.current_char is None,
            lexer.current_offset == 0,
            lexer.current_line_number == 0,
            lexer.lexeme@.len() == 0,
            lexer.current_token == 0,
            lexer.remaining() == stream(line_seqs(lines@)),
    {
        let lexer = Lexer {
            lines,
            tokens: Vec::new(),
            current_char: None,
            current_offset: 0,
            current_line_number: 0,
            lexeme: std::string::String::new(),
            current_token: 0,
        };
        assert(lexer.remaining() =~= stream(lexer.source()));
        lexer
    }

    /// A lexer at the start of the given lines. A line is what one read of
    /// the input yielded, its terminator included; an empty line stands for
    /// the end of the input.
    pub fn new(lines: Vec<std::string::String>) -> (lexer: Lexer)
        ensures
            lexer.wf(),
            lexer.source() == symbol_lines(lines@),
            lexer.tokens@.len() == 0,
            lexer.current_char is None,
            lexer.current_offset == 0,
            lexer.current_line_number == 0,
            lexer.lexeme@.len() == 0,
            lexer.current_token == 0,
            lexer.remaining() == stream(symbol_lines(lines@)),
    {
        let mut symbols: Vec<Vec<Symbol>> = Vec::new();
        let mut i: usize = 0;
        while i < lines.len()
            invariant
                i <= lines.len(),
                symbols.len() == i,
                forall|j: int| 0 <= j < i ==> (#[trigger] symbols[j])@ == symbols_of(lines[j]@),
            decreases lines.len() - i,
        {
            symbols.push(classify(lines[i].as_str()));
            i += 1;
        }
        assert(line_seqs(symbols@) =~= symbol_lines(lines@));
        Lexer::from_symbols(symbols)
    }

    /// Whether the input is exhausted: the current line is empty.
    pub fn at_end(&self) -> (r: bool)
        requires
            self.wf(),
        ensures
            r == (self.remaining().len() == 0),
    {
        if self.current_line_number < self.lines.len() {
            self.lines[self.current_line_number].len() == 0
        } else {
            true
        }
    }

    /// The symbol that `next_character` would deliver, if any is left.
    pub fn peek(&self) -> (r: Option<Symbol>)
        requires
            self.wf(),
        ensures
            r == if self.remaining().len() > 0 {
                Some(self.remaining()[0].symbol())
            } else {
                None
            },
    {
        if self.at_end() {
            None
        } else if self.current_offset >= self.lines[self.current_line_number].len() {
            Some(Symbol::newline())
        } else {
            Some(self.lines[self.current_line_number][self.current_offset])
        }
    }

    /// Whether a fraction is next: a point and a digit after it.
    pub fn fraction_ahead(&self) -> (r: bool)
        requires
            self.wf(),
        ensures
            r == fraction_follows(self.remaining()),
    {
        if self.at_end() {
            return false;
        }
        let line = &self.lines[self.current_line_number];
        if self.current_offset >= line.len() || line[self.current_offset].ch != '.' {
            return false;
        }
        if self.current_offset + 1 < line.len() {
            line[self.current_offset + 1].is_digit()
        } else {
            false
        }
    }

    /// Delivers the next symbol: it becomes the current character, and where
    /// it was taken from a line its character is appended to the lexeme.
    /// After the last symbol of a line a line break is delivered that is in
    /// no line: the next line becomes current and the lexeme stays as it is.
    /// At the end of the input there is no current character.
    pub fn next_character(&mut self)
        requires
            old(self).wf(),
        ensures
            old(self).remaining().len() > 0 ==> advanced(*old(self), *final(self), 1),
            old(self).remaining().len() == 0 ==> *final(self) == (Lexer {
                current_char: None,
                ..*old(self)
            }),
    {
        if self.at_end() {
            self.current_char = None;
            return ;
        }
        let ghost before = self.remaining();
        if self.current_offset >= self.lines[self.current_line_number].len() {
            self.current_line_number += 1;
            self.current_offset = 0;
            self.current_char = Some(Symbol::newline());
        } else {
            let symbol = self.lines[self.current_line_number][self.current_offset];
            self.current_offset += 1;
            self.current_char = Some(symbol);
            self.lexeme.push(symbol.ch);
        }
        proof {
            reveal_with_fuel(cursor_after, 2);
            assert(self.remaining() =~= before.skip(1));
            assert(before.take(1) =~= seq![before[0]]);
            lemma_text_of_one(before[0]);
            assert(self.lexeme@ =~= old(self).lexeme@ + text_of(before.take(1)));
        }
    }

    /// Adds a token of the given class whose text is the lexeme.
    pub fn add_token(&mut self, token_type: TokenType)
        ensures
            *final(self) == (Lexer { tokens: final(self).tokens, ..*old(self) }),
            final(self).lexemes() == old(self).lexemes().push(
                Lexeme { token_type, text: old(self).lexeme@ },
            ),
            old(self).wf() ==> final(self).wf(),
    {
        let token = Token::new(token_type, self.lexeme.clone());
        self.tokens.push(token);
        proof {
            assert(final(self).lexemes() =~= old(self).lexemes().push(
                Lexeme { token_type, text: old(self).lexeme@ },
            ));
        }
    }

    /// Hands out the next token for the recognizer and moves on, or `None`
    /// where every token was handed out.
    pub fn next_token(&mut self) -> (r: Option<Token>)
        ensures
            old(self).current_token < old(self).tokens.len() ==> r == Some(
                old(self).tokens[old(self).current_token as int],
            ) && *final(self) == (Lexer {
                current_token: (old(self).current_token + 1) as usize,
                ..*old(self)
            }),
            old(self).current_token >= old(self).tokens.len() ==> r is None && *final(self)
                == *old(self),
    {
        if self.current_token >= self.tokens.len() {
            return None;
        }
        let token = self.tokens[self.current_token].clone();
        self.current_token += 1;
        Some(token)
    }
    /// Whether the next symbol stands in `run`.
    pub fn run_continues(&self, run: Run) -> (r: bool)
        requires
            self.wf(),
        ensures
            r == (self.remaining().len() > 0 && run.admits(self.remaining()[0].symbol())),
    {
        match self.peek() {
            Some(symbol) => run.admits(symbol),
            None => false,
        }
    }

    /// Delivers symbols as long as the next one stands in `run`.
    pub fn consume_run(&mut self, run: Run)
        requires
            old(self).wf(),
        ensures
            advanced(*old(self), *final(self), run_len(old(self).remaining(), run)),
    {
        let ghost start = *self;
        let ghost mut n: nat = 0;
        proof {
            assert(start.remaining().skip(0) =~= start.remaining());
            assert(start.lexeme@ + text_of(start.remaining().take(0)) =~= start.lexeme@);
        }
        while self.run_continues(run)
            invariant
                advanced(start, *self, n),
                run_len(start.remaining(), run) == n + run_len(self.remaining(), run),
            decreases self.remaining().len(),
        {
            let ghost mid = *self;
            self.next_character();
            proof {
                lemma_moved_twice(start, mid, *self, n, 1);
                n = n + 1;
            }
        }
    }

    /// Delivers the digits that follow.
    pub fn next_num(&mut self)
        requires
            old(self).wf(),
        ensures
            advanced(*old(self), *final(self), run_len(old(self).remaining(), Run::Digits)),
    {
        self.consume_run(Run::Digits);
    }

    /// Finishes a number whose first digit was delivered: takes the digits
    /// that follow and a fraction, if one follows them, and adds the token.
    pub fn number(&mut self)
        requires
            old(self).wf(),
        ensures
            emitted(
                *old(self),
                *final(self),
                number_tail(old(self).remaining()),
                TokenType::Number,
            ),
    {
        let ghost start = *self;
        self.next_num();
        let ghost whole = *self;
        if self.fraction_ahead() {
            self.next_character();
            let ghost point = *self;
            self.next_num();
            proof {
                let w = run_len(start.remaining(), Run::Digits);
                let f = run_len(point.remaining(), Run::Digits);
                assert(start.remaining().skip(w as int).skip(1) =~= start.remaining().skip(
                    w as int + 1,
                ));
                lemma_moved_twice(whole, point, *self, 1, f);
                lemma_moved_twice(start, whole, *self, w, 1 + f);
            }
        }
        self.add_token(TokenType::Number);
    }

    /// Finishes a word whose first letter was delivered: takes the letters
    /// that follow and adds the token that the keyword table gives the word.
    pub fn keyword(&mut self)
        requires
            old(self).wf(),
        ensures
            emitted(
                *old(self),
                *final(self),
                run_len(old(self).remaining(), Run::Letters),
                keyword_type(final(self).lexeme@),
            ),
    {
        self.consume_run(Run::Letters);
        let token_type = lookup_keyword(self.lexeme.as_str());
        self.add_token(token_type);
    }

    /// Finishes a string whose opening quote was delivered: takes everything
    /// up to the next quote and that quote. Where the input ends first, what
    /// was taken is no string.
    pub fn string(&mut self)
        requires
            old(self).wf(),
        ensures
            emitted(
                *old(self),
                *final(self),
                string_tail(old(self).remaining()),
                if string_closed(old(self).remaining()) {
                    TokenType::String
                } else {
                    TokenType::Other
                },
            ),
    {
        let ghost start = *self;
        self.consume_run(Run::Quoted);
        if self.at_end() {
            self.add_token(TokenType::Other);
        } else {
            let ghost body = *self;
            self.next_character();
            proof {
                lemma_moved_twice(start, body, *self, run_len(start.remaining(), Run::Quoted), 1);
            }
            self.add_token(TokenType::String);
        }
    }

    /// One scanning step: starts the lexeme afresh, delivers a symbol and,
    /// unless it is a blank, the rest of the token that it begins, and adds
    /// that token. At the end of the input nothing is delivered.
    pub fn scan_token(&mut self)
        requires
            old(self).wf(),
        ensures
            scanned(*old(self), *final(self)),
    {
        self.lexeme = std::string::String::new();
        let ghost start = *self;
        let ghost s = self.remaining();
        self.next_character();
        let ghost first = *self;
        proof {
            assert(start.lexeme@ =~= Seq::<char>::empty());
            assert(self.lexemes() + Seq::<Lexeme>::empty() =~= self.lexemes());
            if s.len() > 0 {
                assert(Seq::<char>::empty() + text_of(s.take(1)) =~= text_of(s.take(1)));
            } else {
                assert(text_of(s.take(0)) =~= Seq::<char>::empty());
                assert(s.skip(0) =~= s);
            }
        }
        match self.current_char {
            None => {},
            Some(symbol) => {
                if symbol.is_blank() {
                } else {
                    if symbol.ch == '"' {
                        self.string();
                    } else if let Some(token_type) = punctuation(symbol.ch) {
                        self.add_token(token_type);
                    } else if symbol.is_digit() {
                        self.number();
                    } else if symbol.is_letter() {
                        self.keyword();
                    } else {
                        self.add_token(TokenType::Other);
                    }
                    proof {
                        let n = token_len(s);
                        assert(first.remaining().skip(0) =~= first.remaining());
                        assert(first.lexeme@ + text_of(first.remaining().take(0))
                            =~= first.lexeme@);
                        lemma_moved_twice(start, first, *self, 1, (n - 1) as nat);
                        assert(Seq::<char>::empty() + text_of(s.take(n as int)) =~= text_of(
                            s.take(n as int),
                        ));
                        assert(old(self).lexemes().push(first_token(s)) =~= old(self).lexemes()
                            + seq![first_token(s)]);
                    }
                }
            },
        }
    }

    /// Runs the lexer to the end of the input: every token that is left in
    /// it is added, in input order. No current character and no lexeme are
    /// left behind.
    pub fn scan_tokens(&mut self)
        requires
            old(self).wf(),
        ensures
            scanned_out(*old(self), *final(self)),
    {
        let ghost mut taken: nat = 0;
        while !self.at_end()
            invariant
                self.wf(),
                self.lines == old(self).lines,
                self.current_token == old(self).current_token,
                taken + self.remaining().len() == old(self).remaining().len(),
                self.cursor() == cursor_after(
                    old(self).source(),
                    old(self).cursor().0,
                    old(self).cursor().1,
                    taken,
                ),
                self.lexemes() + lex(self.remaining()) == old(self).lexemes() + lex(
                    old(self).remaining(),
                ),
            decreases self.remaining().len(),
        {
            let ghost mid = *self;
            proof {
                lemma_scan_len(mid.remaining());
            }
            self.scan_token();
            proof {
                let s = mid.remaining();
                lemma_cursor_after_twice(
                    old(self).source(),
                    old(self).cursor().0,
                    old(self).cursor().1,
                    taken,
                    scan_len(s),
                );
                taken = taken + scan_len(s);
                assert((mid.lexemes() + scan_yield(s)) + lex(s.skip(scan_len(s) as int))
                    =~= mid.lexemes() + (scan_yield(s) + lex(s.skip(scan_len(s) as int))));
            }
        }
        proof {
            assert(self.lexemes() + lex(self.remaining()) =~= self.lexemes());
        }
        self.current_char = None;
        self.lexeme = std::string::String::new();
    }
}

/// The tokens of a text, given line by line: a line is what one read of the
/// input yielded, its terminator included.
pub fn tokenize(lines: Vec<std::string::String>) -> (tokens: Vec<Token>)
    ensures
        lexemes(tokens@) == lex(stream(symbol_lines(lines@))),
{
    let mut lexer = Lexer::new(lines);
    lexer.scan_tokens();
    proof {
        assert(Seq::<Lexeme>::empty() + lex(stream(symbol_lines(lines@))) =~= lex(
            stream(symbol_lines(lines@)),
        ));
        assert(lexemes(Seq::<Token>::empty()) =~= Seq::<Lexeme>::empty());
    }
    lexer.tokens
}

} // verus!
