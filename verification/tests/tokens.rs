use json_validator::lexer::{tokenize, Lexer};
use json_validator::lexical::{punctuation, Run};
use json_validator::symbol::{classify, Symbol};
use json_validator::token::{lookup_keyword, same_text, Token, TokenType};

fn lines(text: &str) -> Vec<String> {
    text.split_inclusive('\n').map(String::from).collect()
}

fn pairs(text: &str) -> Vec<(TokenType, String)> {
    tokenize(lines(text)).into_iter().map(|t| (t.token_type, t.original_text)).collect()
}

fn pair(token_type: TokenType, text: &str) -> (TokenType, String) {
    (token_type, text.to_string())
}

#[test]
fn no_input_no_tokens() {
    assert!(tokenize(Vec::new()).is_empty());
    assert!(tokenize(vec![String::new()]).is_empty());
    assert!(pairs("").is_empty());
    assert!(pairs(" \n\n   \n ").is_empty());
}

#[test]
fn punctuation_tokens() {
    assert_eq!(
        pairs("{}[]:,"),
        vec![
            pair(TokenType::LeftBrace, "{"),
            pair(TokenType::RightBrace, "}"),
            pair(TokenType::LeftSquareBracket, "["),
            pair(TokenType::RightSquareBracket, "]"),
            pair(TokenType::Colon, ":"),
            pair(TokenType::Comma, ","),
        ]
    );
}

#[test]
fn tokens_come_in_input_order_with_their_text() {
    assert_eq!(
        pairs("{\"key\": [12, 3.5, true, false, null, nil]}\n"),
        vec![
            pair(TokenType::LeftBrace, "{"),
            pair(TokenType::String, "\"key\""),
            pair(TokenType::Colon, ":"),
            pair(TokenType::LeftSquareBracket, "["),
            pair(TokenType::Number, "12"),
            pair(TokenType::Comma, ","),
            pair(TokenType::Number, "3.5"),
            pair(TokenType::Comma, ","),
            pair(TokenType::True, "true"),
            pair(TokenType::Comma, ","),
            pair(TokenType::False, "false"),
            pair(TokenType::Comma, ","),
            pair(TokenType::Null, "null"),
            pair(TokenType::Comma, ","),
            pair(TokenType::Other, "nil"),
            pair(TokenType::RightSquareBracket, "]"),
            pair(TokenType::RightBrace, "}"),
        ]
    );
}

#[test]
fn string_runs_to_the_next_quote() {
    assert_eq!(pairs("\"\""), vec![pair(TokenType::String, "\"\"")]);
    assert_eq!(pairs("\"a b{}[]:,1\""), vec![pair(TokenType::String, "\"a b{}[]:,1\"")]);
    assert_eq!(
        pairs("\"a\\\"b\""),
        vec![
            pair(TokenType::String, "\"a\\\""),
            pair(TokenType::Other, "b"),
            pair(TokenType::Other, "\""),
        ]
    );
}

#[test]
fn unterminated_string_is_other_and_takes_the_rest() {
    assert_eq!(pairs("\"abc"), vec![pair(TokenType::Other, "\"abc")]);
    assert_eq!(pairs("\"abc\n"), vec![pair(TokenType::Other, "\"abc\n")]);
    assert_eq!(
        pairs("{\"abc}\n12\n"),
        vec![pair(TokenType::LeftBrace, "{"), pair(TokenType::Other, "\"abc}\n12\n")]
    );
    assert_eq!(pairs("\""), vec![pair(TokenType::Other, "\"")]);
}

#[test]
fn string_over_several_lines() {
    assert_eq!(
        pairs("\"a\nb\" 1"),
        vec![pair(TokenType::String, "\"a\nb\""), pair(TokenType::Number, "1")]
    );
    assert_eq!(
        tokenize(vec!["\"a".to_string(), "b\"".to_string()])
            .into_iter()
            .map(|t| (t.token_type, t.original_text))
            .collect::<Vec<_>>(),
        vec![pair(TokenType::String, "\"ab\"")]
    );
}

#[test]
fn number_rules() {
    assert_eq!(pairs("0"), vec![pair(TokenType::Number, "0")]);
    assert_eq!(pairs("12345"), vec![pair(TokenType::Number, "12345")]);
    assert_eq!(pairs("12.50"), vec![pair(TokenType::Number, "12.50")]);
    assert_eq!(pairs("1."), vec![pair(TokenType::Number, "1"), pair(TokenType::Other, ".")]);
    assert_eq!(
        pairs("1.}"),
        vec![
            pair(TokenType::Number, "1"),
            pair(TokenType::Other, "."),
            pair(TokenType::RightBrace, "}"),
        ]
    );
    assert_eq!(
        pairs("1.2.3"),
        vec![
            pair(TokenType::Number, "1.2"),
            pair(TokenType::Other, "."),
            pair(TokenType::Number, "3"),
        ]
    );
    assert_eq!(pairs(".5"), vec![pair(TokenType::Other, "."), pair(TokenType::Number, "5")]);
    assert_eq!(pairs("-1"), vec![pair(TokenType::Other, "-"), pair(TokenType::Number, "1")]);
    assert_eq!(
        pairs("1e5"),
        vec![
            pair(TokenType::Number, "1"),
            pair(TokenType::Other, "e"),
            pair(TokenType::Number, "5"),
        ]
    );
    assert_eq!(pairs("1 2"), vec![pair(TokenType::Number, "1"), pair(TokenType::Number, "2")]);
}

#[test]
fn a_fraction_does_not_reach_over_a_line_end() {
    let split = vec!["1.".to_string(), "5".to_string()];
    let found: Vec<(TokenType, String)> =
        tokenize(split).into_iter().map(|t| (t.token_type, t.original_text)).collect();
    assert_eq!(
        found,
        vec![
            pair(TokenType::Number, "1"),
            pair(TokenType::Other, "."),
            pair(TokenType::Number, "5"),
        ]
    );
}

#[test]
fn word_rules() {
    assert_eq!(pairs("true"), vec![pair(TokenType::True, "true")]);
    assert_eq!(pairs("false"), vec![pair(TokenType::False, "false")]);
    assert_eq!(pairs("null"), vec![pair(TokenType::Null, "null")]);
    assert_eq!(pairs("tru"), vec![pair(TokenType::Other, "tru")]);
    assert_eq!(pairs("truex"), vec![pair(TokenType::Other, "truex")]);
    assert_eq!(pairs("TRUE"), vec![pair(TokenType::Other, "TRUE")]);
    assert_eq!(pairs("nulltrue"), vec![pair(TokenType::Other, "nulltrue")]);
    assert_eq!(pairs("true1"), vec![pair(TokenType::True, "true"), pair(TokenType::Number, "1")]);
    assert_eq!(
        pairs("true,null"),
        vec![
            pair(TokenType::True, "true"),
            pair(TokenType::Comma, ","),
            pair(TokenType::Null, "null"),
        ]
    );
    let split = vec!["tr".to_string(), "ue".to_string()];
    let found: Vec<TokenType> = tokenize(split).into_iter().map(|t| t.token_type).collect();
    assert_eq!(found, vec![TokenType::Other, TokenType::Other]);
}

#[test]
fn anything_else_is_other_one_character_each() {
    assert_eq!(
        pairs("@#\t"),
        vec![
            pair(TokenType::Other, "@"),
            pair(TokenType::Other, "#"),
            pair(TokenType::Other, "\t"),
        ]
    );
    assert_eq!(pairs("\r\n"), vec![pair(TokenType::Other, "\r")]);
}

#[test]
fn unicode_classes_come_from_the_character_tables() {
    assert_eq!(pairs("\u{0663}\u{0664}"), vec![pair(TokenType::Number, "\u{0663}\u{0664}")]);
    assert_eq!(pairs("\u{00e9}t\u{00e9}"), vec![pair(TokenType::Other, "\u{00e9}t\u{00e9}")]);
    assert_eq!(pairs("true\u{00e9}"), vec![pair(TokenType::Other, "true\u{00e9}")]);
    assert_eq!(pairs("a\u{2167}"), vec![pair(TokenType::Other, "a\u{2167}")]);
    assert_eq!(pairs("\u{20ac}"), vec![pair(TokenType::Other, "\u{20ac}")]);
}

#[test]
fn symbol_new_classifies() {
    assert_eq!(Symbol::new('7'), Symbol { ch: '7', numeric: true, alphabetic: false });
    assert_eq!(Symbol::new('a'), Symbol { ch: 'a', numeric: false, alphabetic: true });
    assert_eq!(Symbol::new('Z'), Symbol { ch: 'Z', numeric: false, alphabetic: true });
    assert_eq!(Symbol::new('{'), Symbol { ch: '{', numeric: false, alphabetic: false });
    assert_eq!(Symbol::new(' '), Symbol { ch: ' ', numeric: false, alphabetic: false });
    assert_eq!(Symbol::new('\u{0663}'), Symbol { ch: '\u{0663}', numeric: true, alphabetic: false });
    assert_eq!(Symbol::new('\u{2167}'), Symbol { ch: '\u{2167}', numeric: true, alphabetic: true });
    assert_eq!(Symbol::newline(), Symbol { ch: '\n', numeric: false, alphabetic: false });
    assert_eq!(Symbol::newline(), Symbol::new('\n'));
}

#[test]
fn classify_keeps_order_and_length() {
    let symbols = classify("a1 \u{00e9}");
    assert_eq!(
        symbols,
        vec![Symbol::new('a'), Symbol::new('1'), Symbol::new(' '), Symbol::new('\u{00e9}')]
    );
    assert!(classify("").is_empty());
}

#[test]
fn structural_symbols_are_neither_digits_nor_letters() {
    for ch in [' ', '\n', '"', '{', '}', '[', ']', ':', ','] {
        let forged = Symbol { ch, numeric: true, alphabetic: true };
        assert!(forged.is_structural());
        assert!(!forged.is_digit());
        assert!(!forged.is_letter());
        assert_eq!(forged.is_blank(), ch == ' ' || ch == '\n');
    }
    let plain = Symbol { ch: 'x', numeric: true, alphabetic: false };
    assert!(!plain.is_structural() && plain.is_digit() && !plain.is_letter() && !plain.is_blank());
    let plain = Symbol { ch: '1', numeric: false, alphabetic: true };
    assert!(!plain.is_structural() && !plain.is_digit() && plain.is_letter());
    assert!(!Symbol::new('.').is_digit() && !Symbol::new('.').is_letter());
}

#[test]
fn the_lexer_goes_by_the_given_properties() {
    let line = vec![
        Symbol { ch: 'x', numeric: true, alphabetic: false },
        Symbol { ch: 'y', numeric: true, alphabetic: false },
        Symbol { ch: '1', numeric: false, alphabetic: true },
        Symbol { ch: '?', numeric: false, alphabetic: false },
        Symbol { ch: ' ', numeric: true, alphabetic: true },
        Symbol { ch: '{', numeric: true, alphabetic: true },
    ];
    let mut lexer = Lexer::from_symbols(vec![line]);
    lexer.scan_tokens();
    let found: Vec<(TokenType, String)> =
        lexer.tokens.into_iter().map(|t| (t.token_type, t.original_text)).collect();
    assert_eq!(
        found,
        vec![
            pair(TokenType::Number, "xy"),
            pair(TokenType::Other, "1"),
            pair(TokenType::Other, "?"),
            pair(TokenType::LeftBrace, "{"),
        ]
    );
}

#[test]
fn runs_admit_their_symbols() {
    assert!(Run::Digits.admits(Symbol::new('5')));
    assert!(!Run::Digits.admits(Symbol::new('a')));
    assert!(!Run::Digits.admits(Symbol::new('.')));
    assert!(Run::Letters.admits(Symbol::new('a')));
    assert!(!Run::Letters.admits(Symbol::new('5')));
    assert!(!Run::Letters.admits(Symbol::new(' ')));
    assert!(Run::Quoted.admits(Symbol::new('a')));
    assert!(Run::Quoted.admits(Symbol::new('\n')));
    assert!(Run::Quoted.admits(Symbol::new('\\')));
    assert!(!Run::Quoted.admits(Symbol::new('"')));
}

#[test]
fn punctuation_table() {
    assert_eq!(punctuation('{'), Some(TokenType::LeftBrace));
    assert_eq!(punctuation('}'), Some(TokenType::RightBrace));
    assert_eq!(punctuation('['), Some(TokenType::LeftSquareBracket));
    assert_eq!(punctuation(']'), Some(TokenType::RightSquareBracket));
    assert_eq!(punctuation(':'), Some(TokenType::Colon));
    assert_eq!(punctuation(','), Some(TokenType::Comma));
    assert_eq!(punctuation('"'), None);
    assert_eq!(punctuation(' '), None);
    assert_eq!(punctuation('a'), None);
}

#[test]
fn keyword_table() {
    assert_eq!(lookup_keyword("true"), TokenType::True);
    assert_eq!(lookup_keyword("false"), TokenType::False);
    assert_eq!(lookup_keyword("null"), TokenType::Null);
    assert_eq!(lookup_keyword(""), TokenType::Other);
    assert_eq!(lookup_keyword("tru"), TokenType::Other);
    assert_eq!(lookup_keyword("trues"), TokenType::Other);
    assert_eq!(lookup_keyword("True"), TokenType::Other);
    assert_eq!(lookup_keyword("nul\u{00ec}"), TokenType::Other);
}

#[test]
fn same_text_compares_characters() {
    assert!(same_text("", ""));
    assert!(same_text("abc", "abc"));
    assert!(same_text("\u{00e9}\u{20ac}", "\u{00e9}\u{20ac}"));
    assert!(!same_text("abc", "abd"));
    assert!(!same_text("abc", "ab"));
    assert!(!same_text("", "a"));
    assert!(!same_text("\u{00e9}", "e"));
}

#[test]
fn token_new_and_clone() {
    let token = Token::new(TokenType::String, "\"a\"".to_string());
    assert_eq!(token.token_type, TokenType::String);
    assert_eq!(token.original_text, "\"a\"");
    let copy = token.clone();
    assert_eq!(copy, token);
    assert_ne!(Token::new(TokenType::Other, "\"a\"".to_string()), token);
}

#[test]
fn token_texts_are_stretches_of_the_input_in_order() {
    let input = " {\"k e\ny\" :\n[12.5 ,tru,\n\n \"x\"]\n}  \"open\n end";
    let tokens = pairs(input);
    assert_eq!(
        tokens,
        vec![
            pair(TokenType::LeftBrace, "{"),
            pair(TokenType::String, "\"k e\ny\""),
            pair(TokenType::Colon, ":"),
            pair(TokenType::LeftSquareBracket, "["),
            pair(TokenType::Number, "12.5"),
            pair(TokenType::Comma, ","),
            pair(TokenType::Other, "tru"),
            pair(TokenType::Comma, ","),
            pair(TokenType::String, "\"x\""),
            pair(TokenType::RightSquareBracket, "]"),
            pair(TokenType::RightBrace, "}"),
            pair(TokenType::Other, "\"open\n end"),
        ]
    );
    let mut at = 0;
    for (_, text) in &tokens {
        let gap = input[at..].find(text.as_str()).unwrap();
        assert!(input[at..at + gap].chars().all(|c| c == ' ' || c == '\n'));
        at += gap + text.len();
    }
    assert_eq!(at, input.len());
    let joined: String = tokens.iter().map(|(_, text)| text.as_str()).collect();
    assert_eq!(joined.len() + 10, input.len());
}

#[test]
fn token_text_holds_no_line_break_that_is_not_in_the_input() {
    let texts = |lines: Vec<&str>| -> Vec<String> {
        tokenize(lines.into_iter().map(String::from).collect())
            .into_iter()
            .map(|t| t.original_text)
            .collect()
    };
    assert_eq!(texts(vec!["\"a\n", "b\""]), vec!["\"a\nb\""]);
    assert_eq!(texts(vec!["\"a", "b\""]), vec!["\"ab\""]);
    assert_eq!(texts(vec!["\"abc"]), vec!["\"abc"]);
    assert_eq!(texts(vec!["\"abc\n"]), vec!["\"abc\n"]);
    assert_eq!(texts(vec!["\"a\n", "\n", "b"]), vec!["\"a\n\nb"]);
    assert_eq!(texts(vec!["12", "34"]), vec!["12", "34"]);
    assert_eq!(texts(vec!["tr", "ue"]), vec!["tr", "ue"]);
}
