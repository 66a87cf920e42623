//! The lexer's alphabet: characters together with the two Unicode properties
//! that decide how a character is lexed, and the symbols as the lexer
//! delivers them, where the line breaks that it supplies are marked.

use vstd::prelude::*;

verus! {

/// Whether `c` is a numeric character in the sense of Unicode: the answer of
/// `char::is_numeric`. The Unicode tables are not restated here.
pub uninterp spec fn unicode_numeric(c: char) -> bool;

/// Whether `c` has the Unicode property Alphabetic: the answer of
/// `char::is_alphabetic`. The Unicode tables are not restated here.
pub uninterp spec fn unicode_alphabetic(c: char) -> bool;

/// Trusted: `char::is_numeric` depends on the character alone; its answer is
/// what `unicode_numeric` names. Nothing more is claimed of it.
pub assume_specification[ char::is_numeric ](c: char) -> (r: bool)
    ensures
        r == unicode_numeric(c),
;

/// Trusted: `char::is_alphabetic` depends on the character alone; its answer
/// is what `unicode_alphabetic` names. Nothing more is claimed of it.
pub assume_specification[ char::is_alphabetic ](c: char) -> (r: bool)
    ensures
        r == unicode_alphabetic(c),
;

/// Trusted: `String::push` appends the character to the end of the string and
/// leaves what was there in place.
pub assume_specification[ std::string::String::push ](s: &mut std::string::String, c: char)
    ensures
        final(s)@ == old(s)@.push(c),
;

/// One character of input, with what Unicode says of it. The lexer reads
/// nothing else of a character, so everything it does is determined by a
/// sequence of symbols.
#[derive(Debug, Clone, Copy, PartialEq, Eq, Structural)]
pub struct Symbol {
    pub ch: char,
    pub numeric: bool,
    pub alphabetic: bool,
}

/// The symbol that classification makes of `c`.
pub open spec fn symbol_of(c: char) -> Symbol {
    Symbol { ch: c, numeric: unicode_numeric(c), alphabetic: unicode_alphabetic(c) }
}

/// The symbols of a text, character by character.
pub open spec fn symbols_of(text: Seq<char>) -> Seq<Symbol> {
    text.map_values(|c: char| symbol_of(c))
}

/// The characters that a sequence of symbols spells.
pub open spec fn spelling(line: Seq<Symbol>) -> Seq<char> {
    line.map_values(|g: Symbol| g.ch)
}

/// The symbol as which a supplied line break is lexed: a line feed.
pub open spec fn line_break() -> Symbol {
    Symbol { ch: '\n', numeric: false, alphabetic: false }
}

/// What the lexer delivers: a symbol that it took from a line, or the line
/// break that it supplies itself at the end of every line. The break is
/// lexed like a line feed and stands for no character of the input.
pub enum Delivered {
    FromLine(Symbol),
    LineBreak,
}

impl Delivered {
    /// The symbol as which it is lexed.
    pub open spec fn symbol(self) -> Symbol {
        match self {
            Delivered::FromLine(g) => g,
            Delivered::LineBreak => line_break(),
        }
    }

    /// The characters of the input that it stands for: its own, or none.
    pub open spec fn text(self) -> Seq<char> {
        match self {
            Delivered::FromLine(g) => seq![g.ch],
            Delivered::LineBreak => Seq::empty(),
        }
    }
}

/// The symbols of a line as the lexer delivers them.
pub open spec fn delivered(line: Seq<Symbol>) -> Seq<Delivered> {
    line.map_values(|g: Symbol| Delivered::FromLine(g))
}

/// The text of the input that a stretch of delivered symbols stands for: the
/// characters of those that were taken from a line, in order. A supplied
/// line break adds nothing.
pub open spec fn text_of(s: Seq<Delivered>) -> Seq<char>
    decreases s.len(),
{
    if s.len() == 0 {
        Seq::empty()
    } else {
        s[0].text() + text_of(s.skip(1))
    }
}

/// The text of two stretches, one after the other, is the text of the first
/// followed by the text of the second.
pub proof fn lemma_text_of_concat(a: Seq<Delivered>, b: Seq<Delivered>)
    ensures
        text_of(a + b) == text_of(a) + text_of(b),
    decreases a.len(),
{
    if a.len() == 0 {
        assert(a + b =~= b);
        assert(text_of(a) + text_of(b) =~= text_of(b));
    } else {
        assert((a + b).skip(1) =~= a.skip(1) + b);
        lemma_text_of_concat(a.skip(1), b);
        assert(text_of(a + b) =~= text_of(a) + text_of(b));
    }
}

/// The text of a single delivered symbol is its own.
pub proof fn lemma_text_of_one(d: Delivered)
    ensures
        text_of(seq![d]) == d.text(),
{
    assert(seq![d].skip(1) =~= Seq::<Delivered>::empty());
    assert(d.text() + text_of(Seq::<Delivered>::empty()) =~= d.text());
}

/// The symbols of a line stand for the characters of the line, all of them.
pub proof fn lemma_text_of_line(line: Seq<Symbol>)
    ensures
        text_of(delivered(line)) == spelling(line),
    decreases line.len(),
{
    if line.len() == 0 {
        assert(spelling(line) =~= Seq::<char>::empty());
    } else {
        assert(delivered(line).skip(1) =~= delivered(line.skip(1)));
        lemma_text_of_line(line.skip(1));
        assert(seq![line[0].ch] + spelling(line.skip(1)) =~= spelling(line));
    }
}

/// Classifying a text changes no character of it.
pub proof fn lemma_spelling_of_text(text: Seq<char>)
    ensures
        spelling(symbols_of(text)) == text,
{
    assert(spelling(symbols_of(text)) =~= text);
}

impl Symbol {
    /// Classifies a character.
    pub fn new(ch: char) -> (g: Symbol)
        ensures
            g == symbol_of(ch),
    {
        Symbol { ch, numeric: ch.is_numeric(), alphabetic: ch.is_alphabetic() }
    }

    /// The symbol as which a supplied line break is lexed.
    pub fn newline() -> (g: Symbol)
        ensures
            g == line_break(),
    {
        Symbol { ch: '\n', numeric: false, alphabetic: false }
    }

    /// Space and line feed separate tokens and belong to none.
    pub open spec fn spec_is_blank(self) -> bool {
        self.ch == ' ' || self.ch == '\n'
    }

    /// Blanks, the quote and the six punctuation marks have a fixed reading
    /// whatever their Unicode properties say.
    pub open spec fn spec_is_structural(self) -> bool {
        ||| self.spec_is_blank()
        ||| self.ch == '"'
        ||| self.ch == '{'
        ||| self.ch == '}'
        ||| self.ch == '['
        ||| self.ch == ']'
        ||| self.ch == ':'
        ||| self.ch == ','
    }

    /// A symbol that starts or continues a number.
    pub open spec fn spec_is_digit(self) -> bool {
        !self.spec_is_structural() && self.numeric
    }

    /// A symbol that continues a word; one that is no digit also starts one.
    pub open spec fn spec_is_letter(self) -> bool {
        !self.spec_is_structural() && self.alphabetic
    }

    #[verifier::when_used_as_spec(spec_is_blank)]
    pub fn is_blank(self) -> (r: bool)
        ensures
            r == self.spec_is_blank(),
    {
        self.ch == ' ' || self.ch == '\n'
    }

    #[verifier::when_used_as_spec(spec_is_structural)]
    pub fn is_structural(self) -> (r: bool)
        ensures
            r == self.spec_is_structural(),
    {
        self.is_blank() || self.ch == '"' || self.ch == '{' || self.ch == '}' || self.ch == '['
            || self.ch == ']' || self.ch == ':' || self.ch == ','
    }

    #[verifier::when_used_as_spec(spec_is_digit)]
    pub fn is_digit(self) -> (r: bool)
        ensures
            r == self.spec_is_digit(),
    {
        !self.is_structural() && self.numeric
    }

    #[verifier::when_used_as_spec(spec_is_letter)]
    pub fn is_letter(self) -> (r: bool)
        ensures
            r == self.spec_is_letter(),
    {
        !self.is_structural() && self.alphabetic
    }
}

/// Classifies a text, character by character.
pub fn classify(text: &str) -> (symbols: Vec<Symbol>)
    ensures
        symbols@ == symbols_of(text@),
{
    let mut symbols: Vec<Symbol> = Vec::new();
    for c in it: text.chars()
        invariant
            symbols@ == symbols_of(it.seq().take(it.index() as int)),
    {
        proof {
            let done = it.seq().take(it.index() as int);
            assert(it.seq().take(it.index() + 1) == done.push(c));
            assert(symbols_of(done.push(c)) == symbols_of(done).push(symbol_of(c)));
        }
        symbols.push(Symbol::new(c));
    }
    symbols
}

} // verus!
