use n2v::scanner::{chars_of, Scanner, Token, TokenType};

fn tokens(source: &str) -> Vec<Token> {
    let mut scanner = Scanner::new(source, "t.hdl");
    let mut all = Vec::new();
    while let Some(t) = scanner.next() {
        all.push(t);
    }
    assert!(scanner.next().is_none());
    all
}

fn kinds(source: &str) -> Vec<TokenType> {
    tokens(source).iter().map(|t| t.token_type).collect()
}

#[test]
fn every_kind_of_token_is_scanned() {
    assert_eq!(
        kinds("CHIP IN OUT PARTS FOR TO GENERATE foo 42 { } ( ) [ ] < > , ; : = + - ."),
        vec![
            TokenType::Chip, TokenType::In, TokenType::Out, TokenType::Parts, TokenType::For, TokenType::To, TokenType::Generate, TokenType::Identifier, TokenType::Number, TokenType::LeftCurly, TokenType::RightCurly,
            TokenType::LeftParen, TokenType::RightParen, TokenType::LeftBracket, TokenType::RightBracket, TokenType::LeftAngle, TokenType::RightAngle, TokenType::Comma,
            TokenType::Semicolon, TokenType::Colon, TokenType::Equal, TokenType::Plus, TokenType::Minus, TokenType::Dot,
        ]
    );
}

#[test]
fn keywords_are_case_sensitive() {
    assert_eq!(kinds("chip Chip CHIP in IN CHIPS"), vec![TokenType::Identifier, TokenType::Identifier, TokenType::Chip, TokenType::Identifier, TokenType::In, TokenType::Identifier]);
}

#[test]
fn tokens_need_no_blanks_between_them() {
    assert_eq!(
        kinds("a[0..7]=b_2;"),
        vec![TokenType::Identifier, TokenType::LeftBracket, TokenType::Number, TokenType::Dot, TokenType::Dot, TokenType::Number, TokenType::RightBracket, TokenType::Equal, TokenType::Identifier, TokenType::Semicolon]
    );
    let t = tokens("16abc");
    assert_eq!(t[0].lexeme, "16");
    assert_eq!(t[0].token_type, TokenType::Number);
    assert_eq!(t[1].lexeme, "abc");
    assert_eq!(t[1].token_type, TokenType::Identifier);
}

#[test]
fn comments_and_blanks_are_skipped() {
    assert_eq!(kinds("// only a comment"), vec![]);
    assert_eq!(kinds("/* a\n b */ x // y\n/* z */"), vec![TokenType::Identifier]);
    assert_eq!(kinds("a /* never closed"), vec![TokenType::Identifier]);
    assert_eq!(kinds(" \t\r\n "), vec![]);
    assert_eq!(kinds(""), vec![]);
    // a star inside a block comment, and a slash that starts no comment
    assert_eq!(kinds("/* ** / */ a / b"), vec![TokenType::Identifier, TokenType::Unknown, TokenType::Identifier]);
}

#[test]
fn tokens_carry_path_line_and_column() {
    let t = tokens("CHIP Foo {\n  IN a;\r\n\n    // c\n /* x\n y */ OUT b;");
    let at: Vec<(&str, u32, u32)> = t.iter().map(|t| (t.lexeme.as_str(), t.line, t.start)).collect();
    assert_eq!(
        at,
        vec![
            ("CHIP", 1, 1),
            ("Foo", 1, 6),
            ("{", 1, 10),
            ("IN", 2, 3),
            ("a", 2, 6),
            (";", 2, 7),
            ("OUT", 6, 7),
            ("b", 6, 11),
            (";", 6, 12),
        ]
    );
    assert!(t.iter().all(|t| t.path == "t.hdl"));
}

#[test]
fn peek_leaves_the_token_in_place() {
    let mut scanner = Scanner::new("a b", "t.hdl");
    assert_eq!(scanner.peek().unwrap().lexeme, "a");
    assert_eq!(scanner.peek().unwrap().lexeme, "a");
    assert_eq!(scanner.next().unwrap().lexeme, "a");
    assert_eq!(scanner.peek().unwrap().lexeme, "b");
    assert_eq!(scanner.next().unwrap().lexeme, "b");
    assert!(scanner.peek().is_none());
    assert!(scanner.next().is_none());
    assert_eq!(scanner.path(), "t.hdl");
}

#[test]
fn end_of_text_token_stands_at_the_end() {
    let scanner = Scanner::new("a\nbc", "t.hdl");
    let eof = scanner.eof();
    assert_eq!(eof.token_type, TokenType::Eof);
    assert_eq!(eof.lexeme, "");
    assert_eq!((eof.line, eof.start), (2, 3));
}

#[test]
fn unknown_characters_are_tokens_of_their_own() {
    let t = tokens("a # é");
    assert_eq!(t.len(), 3);
    assert_eq!(t[1].token_type, TokenType::Unknown);
    assert_eq!(t[1].lexeme, "#");
    assert_eq!(t[2].lexeme, "é");
    assert_eq!(t[2].start, 5);
}

#[test]
fn words_of_a_test_script() {
    let mut scanner = Scanner::new("load Not.hdl,\n// c\nset in %B01;-5", "t.tst");
    let mut words = Vec::new();
    while let Some(t) = scanner.next_word() {
        words.push((t.lexeme, t.token_type, t.line));
    }
    assert_eq!(
        words,
        vec![
            ("load".to_string(), TokenType::Identifier, 1),
            ("Not.hdl".to_string(), TokenType::Identifier, 1),
            (",".to_string(), TokenType::Comma, 1),
            ("set".to_string(), TokenType::Identifier, 3),
            ("in".to_string(), TokenType::Identifier, 3),
            ("%B01".to_string(), TokenType::Identifier, 3),
            (";".to_string(), TokenType::Semicolon, 3),
            ("-5".to_string(), TokenType::Identifier, 3),
        ]
    );
}

#[test]
fn characters_of_a_text() {
    assert_eq!(chars_of("aé\n"), vec!['a', 'é', '\n']);
    assert!(chars_of("").is_empty());
}
