use monkey_lexer::lexer::Lexer;
use monkey_lexer::token::Token;

/// Every token of `input`, up to and including the first `EndOfInput`.
fn tokens_of(input: &str) -> Vec<Token> {
    let mut lexer = Lexer::new(input);
    let mut out = Vec::new();
    loop {
        let token = lexer.next_token();
        let done = token == Token::EndOfInput;
        out.push(token);
        if done {
            break;
        }
    }
    out
}

#[test]
fn test_generate_tokens() {
    let input = "\n    let five = 5;\n    let ten = 10;\n    ";

    let expected = [
        Token::Let,
        Token::Identifier("five".to_string()),
        Token::Assign,
        Token::IntegerLiteral(5),
        Token::Semicolon,
        Token::Let,
        Token::Identifier("ten".to_string()),
        Token::Assign,
        Token::IntegerLiteral(10),
        Token::Semicolon,
    ];

    let mut lexer = Lexer::new(input);

    for (i, token) in expected.iter().enumerate() {
        let actual = &lexer.next_token();

        assert_eq!(actual, token, "Failed at token {}", i + 1);
    }
}

#[test]
fn empty_input_is_end_of_input() {
    assert_eq!(tokens_of(""), vec![Token::EndOfInput]);
}

#[test]
fn end_of_input_persists() {
    let mut lexer = Lexer::new("");
    for _ in 0..5 {
        assert_eq!(lexer.next_token(), Token::EndOfInput);
    }
}

#[test]
fn totality_over_arbitrary_text() {
    assert_eq!(
        tokens_of("let #$% 12ab @"),
        vec![
            Token::Let,
            Token::Illegal,
            Token::Illegal,
            Token::Illegal,
            Token::IntegerLiteral(12),
            Token::Identifier("ab".to_string()),
            Token::Illegal,
            Token::EndOfInput,
        ]
    );
}

#[test]
fn whitespace_between_tokens_is_invariant() {
    let bare = tokens_of("let x=1;");
    assert_eq!(bare, tokens_of(" let\t\tx =\n1 ;\r\n"));
    assert_eq!(bare, tokens_of("let\rx\n=\t1;"));
}

#[test]
fn whitespace_only_input_is_end_of_input() {
    assert_eq!(tokens_of(" \t\r\n  "), vec![Token::EndOfInput]);
}

#[test]
fn end_of_input_persists_after_tokens() {
    let mut lexer = Lexer::new("a");
    assert_eq!(lexer.next_token(), Token::Identifier("a".to_string()));
    assert_eq!(lexer.next_token(), Token::EndOfInput);
    assert_eq!(lexer.next_token(), Token::EndOfInput);
    assert_eq!(lexer.next_token(), Token::EndOfInput);
}

#[test]
fn keyword_lookup_is_exact() {
    assert_eq!(Token::keyword("fn"), Some(Token::Function));
    assert_eq!(Token::keyword("let"), Some(Token::Let));
    assert_eq!(Token::keyword("fnord"), None);
    assert_eq!(Token::keyword("Fn"), None);
    assert_eq!(Token::keyword("le"), None);
    assert_eq!(Token::keyword("lets"), None);
    assert_eq!(Token::keyword(""), None);
}

#[test]
fn keywords_and_identifiers_are_exclusive() {
    assert_eq!(tokens_of("fn"), vec![Token::Function, Token::EndOfInput]);
    assert_eq!(tokens_of("let"), vec![Token::Let, Token::EndOfInput]);
    assert_eq!(
        tokens_of("fnx"),
        vec![Token::Identifier("fnx".to_string()), Token::EndOfInput]
    );
    assert_eq!(
        tokens_of("letter"),
        vec![Token::Identifier("letter".to_string()), Token::EndOfInput]
    );
    assert_eq!(
        tokens_of("_fn_"),
        vec![Token::Identifier("_fn_".to_string()), Token::EndOfInput]
    );
}

#[test]
fn numbers_round_trip() {
    assert_eq!(
        tokens_of("5"),
        vec![Token::IntegerLiteral(5), Token::EndOfInput]
    );
    assert_eq!(
        tokens_of("0"),
        vec![Token::IntegerLiteral(0), Token::EndOfInput]
    );
    assert_eq!(
        tokens_of("007"),
        vec![Token::IntegerLiteral(7), Token::EndOfInput]
    );
    assert_eq!(
        tokens_of("2147483647"),
        vec![Token::IntegerLiteral(i32::MAX), Token::EndOfInput]
    );
}

#[test]
fn numbers_beyond_i32_are_illegal() {
    assert_eq!(tokens_of("2147483648"), vec![Token::Illegal, Token::EndOfInput]);
    assert_eq!(
        tokens_of("99999999999999999999"),
        vec![Token::Illegal, Token::EndOfInput]
    );
    // the whole digit run is consumed, not just its first character
    assert_eq!(
        tokens_of("2147483648;"),
        vec![Token::Illegal, Token::Semicolon, Token::EndOfInput]
    );
}

#[test]
fn each_single_character_token_alone() {
    let cases = [
        ("=", Token::Assign),
        (";", Token::Semicolon),
        ("(", Token::LParen),
        (")", Token::RParen),
        (",", Token::Comma),
        ("+", Token::Plus),
        ("{", Token::LBrace),
        ("}", Token::RBrace),
    ];
    for (input, token) in cases {
        assert_eq!(tokens_of(input), vec![token, Token::EndOfInput]);
    }
}

#[test]
fn scenario_assign_number_semicolon() {
    assert_eq!(
        tokens_of("=3;"),
        vec![
            Token::Assign,
            Token::IntegerLiteral(3),
            Token::Semicolon,
            Token::EndOfInput,
        ]
    );
}

#[test]
fn scenario_let_statements() {
    assert_eq!(
        tokens_of("let five = 5; let ten = 10;"),
        vec![
            Token::Let,
            Token::Identifier("five".to_string()),
            Token::Assign,
            Token::IntegerLiteral(5),
            Token::Semicolon,
            Token::Let,
            Token::Identifier("ten".to_string()),
            Token::Assign,
            Token::IntegerLiteral(10),
            Token::Semicolon,
            Token::EndOfInput,
        ]
    );
}

#[test]
fn punctuation_rich_function_shape() {
    assert_eq!(
        tokens_of("fn(x, y) { x + y; }"),
        vec![
            Token::Function,
            Token::LParen,
            Token::Identifier("x".to_string()),
            Token::Comma,
            Token::Identifier("y".to_string()),
            Token::RParen,
            Token::LBrace,
            Token::Identifier("x".to_string()),
            Token::Plus,
            Token::Identifier("y".to_string()),
            Token::Semicolon,
            Token::RBrace,
            Token::EndOfInput,
        ]
    );
}

#[test]
fn identifiers_never_contain_digits() {
    assert_eq!(
        tokens_of("abc123"),
        vec![
            Token::Identifier("abc".to_string()),
            Token::IntegerLiteral(123),
            Token::EndOfInput,
        ]
    );
}

#[test]
fn nul_sentinel_reads_as_end_of_input() {
    assert_eq!(tokens_of("\u{0}"), vec![Token::EndOfInput]);
    // a literal null inside the input reads as end of input there, but
    // scanning may be driven on past it
    let mut lexer = Lexer::new("\u{0}a");
    assert_eq!(lexer.next_token(), Token::EndOfInput);
    assert_eq!(lexer.next_token(), Token::Identifier("a".to_string()));
    assert_eq!(lexer.next_token(), Token::EndOfInput);
}
