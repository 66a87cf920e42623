use json_validator::analyser::SyntaxAnalyser;
use json_validator::lexer::Lexer;
use json_validator::lexical::Run;
use json_validator::symbol::Symbol;
use json_validator::token::{Token, TokenType};

fn lines(text: &str) -> Vec<String> {
    text.split_inclusive('\n').map(String::from).collect()
}

fn scanned(text: &str) -> SyntaxAnalyser {
    let mut lexer = Lexer::new(lines(text));
    lexer.scan_tokens();
    let mut analyser = SyntaxAnalyser::new(lexer);
    analyser.rewind(0);
    analyser
}

fn delivered(lexer: &mut Lexer) -> Vec<char> {
    let mut out = Vec::new();
    loop {
        lexer.next_character();
        match lexer.current_char {
            Some(symbol) => out.push(symbol.ch),
            None => return out,
        }
    }
}

#[test]
fn new_lexer_is_at_the_start() {
    let lexer = Lexer::new(lines("ab\ncd"));
    assert_eq!(lexer.lines.len(), 2);
    assert_eq!(lexer.lines[0], vec![Symbol::new('a'), Symbol::new('b'), Symbol::new('\n')]);
    assert_eq!(lexer.lines[1], vec![Symbol::new('c'), Symbol::new('d')]);
    assert!(lexer.tokens.is_empty());
    assert_eq!(lexer.current_char, None);
    assert_eq!(lexer.current_offset, 0);
    assert_eq!(lexer.current_line_number, 0);
    assert_eq!(lexer.lexeme, "");
    assert_eq!(lexer.current_token, 0);
    assert!(!lexer.at_end());
}

#[test]
fn every_line_is_followed_by_a_line_break() {
    let mut lexer = Lexer::new(lines("ab\nc"));
    assert_eq!(delivered(&mut lexer), vec!['a', 'b', '\n', '\n', 'c', '\n']);
    assert!(lexer.at_end());
    let mut lexer = Lexer::new(vec!["a".to_string(), "b".to_string()]);
    assert_eq!(delivered(&mut lexer), vec!['a', '\n', 'b', '\n']);
}

#[test]
fn a_supplied_line_break_adds_nothing_to_the_lexeme() {
    let mut lexer = Lexer::new(lines("ab\nc"));
    delivered(&mut lexer);
    assert_eq!(lexer.lexeme, "ab\nc");
    let mut lexer = Lexer::new(vec!["a".to_string(), "b".to_string()]);
    delivered(&mut lexer);
    assert_eq!(lexer.lexeme, "ab");

    let mut lexer = Lexer::new(lines("a\nb"));
    lexer.next_character();
    assert_eq!(lexer.lexeme, "a");
    lexer.next_character();
    assert_eq!(lexer.current_char, Some(Symbol::new('\n')));
    assert_eq!(lexer.lexeme, "a\n");
    assert_eq!((lexer.current_line_number, lexer.current_offset), (0, 2));
    lexer.next_character();
    assert_eq!(lexer.current_char, Some(Symbol::newline()));
    assert_eq!(lexer.lexeme, "a\n");
    assert_eq!((lexer.current_line_number, lexer.current_offset), (1, 0));
    lexer.next_character();
    assert_eq!(lexer.lexeme, "a\nb");
}

#[test]
fn nothing_is_delivered_at_the_end() {
    let mut lexer = Lexer::new(Vec::new());
    assert!(lexer.at_end());
    assert_eq!(lexer.peek(), None);
    lexer.next_character();
    assert_eq!(lexer.current_char, None);
    assert_eq!(lexer.lexeme, "");
    assert!(lexer.at_end());

    let mut lexer = Lexer::new(lines("a"));
    lexer.next_character();
    lexer.next_character();
    assert_eq!(lexer.current_char, Some(Symbol::newline()));
    assert!(lexer.at_end());
    lexer.next_character();
    assert_eq!(lexer.current_char, None);
    assert_eq!(lexer.lexeme, "a");
    assert_eq!(lexer.current_line_number, 1);
    assert_eq!(lexer.current_offset, 0);
}

#[test]
fn the_input_ends_at_an_empty_line() {
    let mut lexer = Lexer::new(vec!["a".to_string(), String::new(), "b".to_string()]);
    assert_eq!(delivered(&mut lexer), vec!['a', '\n']);
    assert!(lexer.at_end());
    let mut lexer = Lexer::new(vec![String::new(), "b".to_string()]);
    assert!(lexer.at_end());
    assert_eq!(delivered(&mut lexer), Vec::<char>::new());
}

#[test]
fn peek_shows_what_comes_next_and_takes_nothing() {
    let mut lexer = Lexer::new(lines("a\nb"));
    assert_eq!(lexer.peek(), Some(Symbol::new('a')));
    assert_eq!(lexer.peek(), Some(Symbol::new('a')));
    assert_eq!(lexer.current_char, None);
    lexer.next_character();
    assert_eq!(lexer.current_char, Some(Symbol::new('a')));
    assert_eq!(lexer.peek(), Some(Symbol::new('\n')));
    lexer.next_character();
    assert_eq!(lexer.peek(), Some(Symbol::newline()));
    lexer.next_character();
    assert_eq!(lexer.peek(), Some(Symbol::new('b')));
    lexer.next_character();
    assert_eq!(lexer.peek(), Some(Symbol::newline()));
    lexer.next_character();
    assert_eq!(lexer.peek(), None);
}

#[test]
fn fraction_ahead_needs_point_and_digit() {
    assert!(Lexer::new(lines(".5")).fraction_ahead());
    assert!(Lexer::new(lines(".5\n")).fraction_ahead());
    assert!(!Lexer::new(lines(".")).fraction_ahead());
    assert!(!Lexer::new(lines(".\n5")).fraction_ahead());
    assert!(!Lexer::new(lines(".x")).fraction_ahead());
    assert!(!Lexer::new(lines("5.")).fraction_ahead());
    assert!(!Lexer::new(lines("")).fraction_ahead());
    let mut lexer = Lexer::new(lines("1.5"));
    lexer.next_character();
    assert!(lexer.fraction_ahead());
    let mut lexer = Lexer::new(vec!["a".to_string(), ".5".to_string()]);
    lexer.next_character();
    assert!(!lexer.fraction_ahead());
}

#[test]
fn run_continues_and_consume_run() {
    let mut lexer = Lexer::new(lines("123abc 9"));
    assert!(lexer.run_continues(Run::Digits));
    assert!(!lexer.run_continues(Run::Letters));
    lexer.consume_run(Run::Letters);
    assert_eq!(lexer.lexeme, "");
    assert_eq!(lexer.current_char, None);
    lexer.consume_run(Run::Digits);
    assert_eq!(lexer.lexeme, "123");
    assert_eq!(lexer.current_char, Some(Symbol::new('3')));
    assert_eq!(lexer.current_offset, 3);
    lexer.consume_run(Run::Letters);
    assert_eq!(lexer.lexeme, "123abc");
    assert_eq!(lexer.peek(), Some(Symbol::new(' ')));
    lexer.consume_run(Run::Quoted);
    assert_eq!(lexer.lexeme, "123abc 9");
    assert_eq!(lexer.current_char, Some(Symbol::newline()));
    assert!(lexer.at_end());
    assert!(!lexer.run_continues(Run::Quoted));
    assert!(lexer.tokens.is_empty());
}

#[test]
fn next_num_takes_digits_only() {
    let mut lexer = Lexer::new(lines("2024.5"));
    lexer.next_num();
    assert_eq!(lexer.lexeme, "2024");
    assert_eq!(lexer.peek(), Some(Symbol::new('.')));
    lexer.next_num();
    assert_eq!(lexer.lexeme, "2024");
    let mut lexer = Lexer::new(vec!["12".to_string(), "34".to_string()]);
    lexer.next_num();
    assert_eq!(lexer.lexeme, "12");
}

#[test]
fn number_finishes_a_number() {
    let mut lexer = Lexer::new(lines("12.75,"));
    lexer.next_character();
    lexer.number();
    assert_eq!(lexer.tokens, vec![Token::new(TokenType::Number, "12.75".to_string())]);
    assert_eq!(lexer.peek(), Some(Symbol::new(',')));
    assert_eq!(lexer.lexeme, "12.75");

    let mut lexer = Lexer::new(lines("7.]"));
    lexer.next_character();
    lexer.number();
    assert_eq!(lexer.tokens, vec![Token::new(TokenType::Number, "7".to_string())]);
    assert_eq!(lexer.peek(), Some(Symbol::new('.')));

    let mut lexer = Lexer::new(lines(".5"));
    lexer.number();
    assert_eq!(lexer.tokens, vec![Token::new(TokenType::Number, ".5".to_string())]);
}

#[test]
fn keyword_finishes_a_word() {
    let mut lexer = Lexer::new(lines("null,"));
    lexer.next_character();
    lexer.keyword();
    assert_eq!(lexer.tokens, vec![Token::new(TokenType::Null, "null".to_string())]);
    assert_eq!(lexer.peek(), Some(Symbol::new(',')));

    let mut lexer = Lexer::new(lines("rue"));
    lexer.lexeme.push('t');
    lexer.keyword();
    assert_eq!(lexer.tokens, vec![Token::new(TokenType::True, "true".to_string())]);

    let mut lexer = Lexer::new(lines("nulls"));
    lexer.keyword();
    assert_eq!(lexer.tokens, vec![Token::new(TokenType::Other, "nulls".to_string())]);
}

#[test]
fn string_finishes_a_string() {
    let mut lexer = Lexer::new(lines("\"ab\" 1"));
    lexer.next_character();
    lexer.string();
    assert_eq!(lexer.tokens, vec![Token::new(TokenType::String, "\"ab\"".to_string())]);
    assert_eq!(lexer.peek(), Some(Symbol::new(' ')));

    let mut lexer = Lexer::new(lines("\"ab"));
    lexer.next_character();
    lexer.string();
    assert_eq!(lexer.tokens, vec![Token::new(TokenType::Other, "\"ab".to_string())]);
    assert!(lexer.at_end());

    let mut lexer = Lexer::new(lines("\"a\nb\"c"));
    lexer.next_character();
    lexer.string();
    assert_eq!(lexer.tokens, vec![Token::new(TokenType::String, "\"a\nb\"".to_string())]);
    assert_eq!(lexer.peek(), Some(Symbol::new('c')));
}

#[test]
fn add_token_takes_the_lexeme() {
    let mut lexer = Lexer::new(lines("abc"));
    lexer.next_character();
    lexer.next_character();
    lexer.add_token(TokenType::Comma);
    lexer.add_token(TokenType::Other);
    assert_eq!(
        lexer.tokens,
        vec![
            Token::new(TokenType::Comma, "ab".to_string()),
            Token::new(TokenType::Other, "ab".to_string()),
        ]
    );
    assert_eq!(lexer.lexeme, "ab");
    assert_eq!(lexer.current_offset, 2);
    assert_eq!(lexer.current_token, 0);
}

#[test]
fn scan_token_takes_a_blank_or_a_token() {
    let mut lexer = Lexer::new(lines(" 12 x"));
    lexer.scan_token();
    assert!(lexer.tokens.is_empty());
    assert_eq!(lexer.lexeme, " ");
    assert_eq!(lexer.current_char, Some(Symbol::new(' ')));
    lexer.scan_token();
    assert_eq!(lexer.tokens, vec![Token::new(TokenType::Number, "12".to_string())]);
    assert_eq!(lexer.lexeme, "12");
    assert_eq!(lexer.current_char, Some(Symbol::new('2')));
    lexer.scan_token();
    assert_eq!(lexer.tokens.len(), 1);
    lexer.scan_token();
    assert_eq!(lexer.tokens.len(), 2);
    assert_eq!(lexer.tokens[1], Token::new(TokenType::Other, "x".to_string()));
    lexer.scan_token();
    assert_eq!(lexer.lexeme, "");
    assert_eq!(lexer.current_char, Some(Symbol::newline()));
    assert!(lexer.at_end());
    lexer.scan_token();
    assert_eq!(lexer.lexeme, "");
    assert_eq!(lexer.current_char, None);
    assert_eq!(lexer.tokens.len(), 2);
}

#[test]
fn scan_tokens_goes_on_from_where_the_lexer_stands() {
    let mut lexer = Lexer::new(lines("{\"a\": 1}"));
    lexer.scan_token();
    lexer.next_character();
    lexer.scan_tokens();
    assert_eq!(
        lexer.tokens,
        vec![
            Token::new(TokenType::LeftBrace, "{".to_string()),
            Token::new(TokenType::Other, "a".to_string()),
            Token::new(TokenType::Other, "\": 1}".to_string()),
        ]
    );
    assert!(lexer.at_end());
    assert_eq!(lexer.current_char, None);
    assert_eq!(lexer.lexeme, "");
    assert_eq!(lexer.current_token, 0);
    lexer.scan_tokens();
    assert_eq!(lexer.tokens.len(), 3);
}

#[test]
fn next_token_hands_out_each_token_once() {
    let mut lexer = Lexer::new(lines("{ 1"));
    assert_eq!(lexer.next_token(), None);
    lexer.scan_tokens();
    assert_eq!(lexer.next_token(), Some(Token::new(TokenType::LeftBrace, "{".to_string())));
    assert_eq!(lexer.current_token, 1);
    assert_eq!(lexer.next_token(), Some(Token::new(TokenType::Number, "1".to_string())));
    assert_eq!(lexer.next_token(), None);
    assert_eq!(lexer.next_token(), None);
    assert_eq!(lexer.current_token, 2);
    assert_eq!(lexer.tokens.len(), 2);
}

#[test]
fn new_analyser_has_an_empty_lookahead() {
    let mut lexer = Lexer::new(lines("{}"));
    lexer.scan_tokens();
    let mut analyser = SyntaxAnalyser::new(lexer);
    assert_eq!(analyser.next_token, None);
    assert_eq!(analyser.cursor(), 2);
    assert!(!analyser.match_token(TokenType::LeftBrace));
    assert!(!analyser.object());
    assert!(!analyser.value());
    assert_eq!(analyser.lexer.current_token, 0);
}

#[test]
fn match_token_takes_the_lookahead_if_it_fits() {
    let mut analyser = scanned("{ 1");
    assert_eq!(analyser.cursor(), 0);
    assert!(!analyser.match_token(TokenType::Number));
    assert_eq!(analyser.cursor(), 0);
    assert!(analyser.match_token(TokenType::LeftBrace));
    assert_eq!(analyser.cursor(), 1);
    assert_eq!(analyser.next_token, Some(Token::new(TokenType::Number, "1".to_string())));
    assert!(!analyser.match_token(TokenType::LeftBrace));
    assert!(analyser.match_token(TokenType::Number));
    assert_eq!(analyser.cursor(), 2);
    assert_eq!(analyser.next_token, None);
    assert!(!analyser.match_token(TokenType::Number));
    assert_eq!(analyser.cursor(), 2);
}

#[test]
fn rewind_sets_the_lookahead() {
    let mut analyser = scanned("[ 1 ]");
    analyser.rewind(2);
    assert_eq!(analyser.cursor(), 2);
    assert_eq!(
        analyser.next_token,
        Some(Token::new(TokenType::RightSquareBracket, "]".to_string()))
    );
    analyser.rewind(3);
    assert_eq!(analyser.cursor(), 3);
    assert_eq!(analyser.next_token, None);
    analyser.rewind(0);
    assert_eq!(analyser.cursor(), 0);
}

#[test]
fn value_takes_one_value() {
    for (text, end) in [
        ("\"s\" 1", 1),
        ("12 ,", 1),
        ("true true", 1),
        ("false", 1),
        ("null }", 1),
        ("{} {}", 2),
        ("[] 1", 2),
        ("[1, [2, 3], {\"a\": []}] ]", 16),
        ("{\"a\": {\"b\": 1}, \"c\": [true]} ,", 15),
    ] {
        let mut analyser = scanned(text);
        assert!(analyser.value(), "{}", text);
        assert_eq!(analyser.cursor(), end, "{}", text);
    }
}

#[test]
fn a_rule_that_fails_takes_nothing() {
    for text in ["", ", 1", ": 1", "} {", "] [", "nil", "{\"a\": 1", "[1, 2", "[1 2]", "{\"a\" 1}", "{\"a\": [1,]}"] {
        let mut analyser = scanned(text);
        assert!(!analyser.value(), "{}", text);
        assert_eq!(analyser.cursor(), 0, "{}", text);
        assert!(!analyser.object(), "{}", text);
        assert_eq!(analyser.cursor(), 0, "{}", text);
        assert!(!analyser.array(), "{}", text);
        assert_eq!(analyser.cursor(), 0, "{}", text);
    }
    let mut analyser = scanned("[ {\"a\": } ]");
    assert!(analyser.match_token(TokenType::LeftSquareBracket));
    let before = analyser.next_token.clone();
    assert!(!analyser.value());
    assert_eq!(analyser.cursor(), 1);
    assert_eq!(analyser.next_token, before);
    assert_eq!(analyser.lexer.current_token, 2);
}

#[test]
fn object_and_array_take_their_own_kind_only() {
    let mut analyser = scanned("{\"a\": 1, \"b\": []} x");
    assert!(!analyser.array());
    assert!(analyser.object());
    assert_eq!(analyser.cursor(), 10);
    let mut analyser = scanned("[{}, 1] x");
    assert!(!analyser.object());
    assert!(analyser.array());
    assert_eq!(analyser.cursor(), 6);
    let mut analyser = scanned("1");
    assert!(!analyser.object());
    assert!(!analyser.array());
    assert!(analyser.value());
}
