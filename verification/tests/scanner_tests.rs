use parser_generator::scanner::{
    is_identifier_character, is_identifier_start, is_whitespace, tokenize, trim, Scanner, Token,
    TokenizerError,
};

fn identifier(text: &str) -> Token {
    Token::Identifier(text.to_string())
}

fn code(text: &str) -> Token {
    Token::StringLiteral(text.to_string())
}

fn literal(text: &str) -> Token {
    Token::TokenLiteral(text.to_string())
}

#[test]
fn empty_input_has_no_tokens() {
    assert_eq!(tokenize(""), Ok(vec![]));
    assert_eq!(tokenize(" \t\r\n\x0b\x0c"), Ok(vec![]));
}

#[test]
fn single_character_tokens() {
    assert_eq!(
        tokenize(": | = ;"),
        Ok(vec![Token::Colon, Token::Pipe, Token::Equals, Token::Semicolon])
    );
    assert_eq!(
        tokenize(":|=;"),
        Ok(vec![Token::Colon, Token::Pipe, Token::Equals, Token::Semicolon])
    );
}

#[test]
fn minus_and_greater_than_make_an_arrow() {
    assert_eq!(
        tokenize("A->B"),
        Ok(vec![identifier("A"), Token::Arrow, identifier("B")])
    );
}

#[test]
fn minus_needs_greater_than_behind_it() {
    assert_eq!(
        tokenize("A - B"),
        Err(TokenizerError::UnexpectedCharacter { expected: Some(b'>'), actual: b' ' })
    );
    assert_eq!(
        tokenize("A --> B"),
        Err(TokenizerError::UnexpectedCharacter { expected: Some(b'>'), actual: b'-' })
    );
}

#[test]
fn minus_at_the_end_of_input() {
    assert_eq!(tokenize("A -"), Err(TokenizerError::UnexpectedEndOfInput));
}

#[test]
fn slash_needs_a_second_slash() {
    assert_eq!(
        tokenize("A /* B"),
        Err(TokenizerError::UnexpectedCharacter { expected: Some(b'/'), actual: b'*' })
    );
    assert_eq!(tokenize("A /"), Err(TokenizerError::UnexpectedEndOfInput));
}

#[test]
fn comment_runs_to_the_end_of_the_line() {
    assert_eq!(
        tokenize("A // B -> \"x {\n= C"),
        Ok(vec![identifier("A"), Token::Equals, identifier("C")])
    );
}

#[test]
fn comment_runs_to_the_end_of_input() {
    assert_eq!(tokenize("A // B = C"), Ok(vec![identifier("A")]));
    assert_eq!(tokenize("//"), Ok(vec![]));
}

#[test]
fn identifiers_take_the_longest_match() {
    assert_eq!(
        tokenize("ab_1 c2 Z"),
        Ok(vec![identifier("ab_1"), identifier("c2"), identifier("Z")])
    );
    assert_eq!(tokenize("a:b"), Ok(vec![identifier("a"), Token::Colon, identifier("b")]));
}

#[test]
fn identifier_does_not_begin_with_digit_or_underscore() {
    assert_eq!(
        tokenize("1a"),
        Err(TokenizerError::UnexpectedCharacter { expected: None, actual: b'1' })
    );
    assert_eq!(
        tokenize("_a"),
        Err(TokenizerError::UnexpectedCharacter { expected: None, actual: b'_' })
    );
}

#[test]
fn token_literal_holds_what_stands_between_the_quotes() {
    assert_eq!(
        tokenize("\"LEFT_PARENTHESIS\" \"\" \"a{b\""),
        Ok(vec![literal("LEFT_PARENTHESIS"), literal(""), literal("a{b")])
    );
}

#[test]
fn unclosed_token_literal_holds_what_was_read() {
    assert_eq!(
        tokenize("A \"abc"),
        Err(TokenizerError::UnclosedTokenLiteral("abc".to_string()))
    );
    assert_eq!(tokenize("\""), Err(TokenizerError::UnclosedTokenLiteral(String::new())));
}

#[test]
fn whitespace_in_token_literal_fails_wherever_it_stands() {
    assert_eq!(
        tokenize("\" ab\""),
        Err(TokenizerError::WhitespaceInTokenLiteral(String::new()))
    );
    assert_eq!(
        tokenize("\"a b\""),
        Err(TokenizerError::WhitespaceInTokenLiteral("a".to_string()))
    );
    assert_eq!(
        tokenize("\"ab \""),
        Err(TokenizerError::WhitespaceInTokenLiteral("ab".to_string()))
    );
    assert_eq!(
        tokenize("A -> \"ab\tc\" { x };"),
        Err(TokenizerError::WhitespaceInTokenLiteral("ab".to_string()))
    );
    assert_eq!(
        tokenize("\"ab\ncd"),
        Err(TokenizerError::WhitespaceInTokenLiteral("ab".to_string()))
    );
}

#[test]
fn code_block_is_trimmed() {
    assert_eq!(tokenize("{ code }"), Ok(vec![code("code")]));
    assert_eq!(tokenize("{\n\tlet a = 1;\n}"), Ok(vec![code("let a = 1;")]));
    assert_eq!(tokenize("{}"), Ok(vec![code("")]));
    assert_eq!(tokenize("{ \t }"), Ok(vec![code("")]));
}

#[test]
fn code_block_keeps_its_inner_braces() {
    assert_eq!(
        tokenize("{ if a { b } else { c } }"),
        Ok(vec![code("if a { b } else { c }")])
    );
    assert_eq!(tokenize("{{}}"), Ok(vec![code("{}")]));
    assert_eq!(tokenize("{ a {{ b }{ c }} d } e"), Ok(vec![code("a {{ b }{ c }} d"), identifier("e")]));
}

#[test]
fn code_block_round_trips_between_braces() {
    let first = tokenize("{  x { y }{ z \"q } w  }").unwrap();
    assert_eq!(first, vec![code("x { y }{ z \"q } w")]);
    let text = match &first[0] {
        Token::StringLiteral(text) => text.clone(),
        other => panic!("{:?}", other),
    };
    let again = tokenize(&format!("{{{}}}", text)).unwrap();
    assert_eq!(again, first);
}

#[test]
fn unclosed_code_block_holds_what_was_read() {
    assert_eq!(
        tokenize("A -> x {code"),
        Err(TokenizerError::UnclosedStringLiteral("code".to_string()))
    );
    assert_eq!(
        tokenize("{ a { b } "),
        Err(TokenizerError::UnclosedStringLiteral(" a { b } ".to_string()))
    );
    assert_eq!(tokenize("{"), Err(TokenizerError::UnclosedStringLiteral(String::new())));
}

#[test]
fn closing_brace_alone_is_unexpected() {
    assert_eq!(
        tokenize("{ a } }"),
        Err(TokenizerError::UnexpectedCharacter { expected: None, actual: b'}' })
    );
}

#[test]
fn other_characters_are_unexpected() {
    assert_eq!(
        tokenize("A # B"),
        Err(TokenizerError::UnexpectedCharacter { expected: None, actual: b'#' })
    );
    assert_eq!(
        tokenize(">"),
        Err(TokenizerError::UnexpectedCharacter { expected: None, actual: b'>' })
    );
}

#[test]
fn text_outside_ascii_is_refused_as_a_whole() {
    assert_eq!(tokenize("A -> \u{e9};"), Err(TokenizerError::InvalidCharacters));
    assert_eq!(tokenize("# \u{2028}"), Err(TokenizerError::InvalidCharacters));
}

#[test]
fn the_first_error_is_returned() {
    assert_eq!(
        tokenize("A - \"x"),
        Err(TokenizerError::UnexpectedCharacter { expected: Some(b'>'), actual: b' ' })
    );
    assert_eq!(
        tokenize("\"x y\" {"),
        Err(TokenizerError::WhitespaceInTokenLiteral("x".to_string()))
    );
}

#[test]
fn tokens_keep_the_order_of_their_lexemes() {
    let input = "GLOBAL_CODE = { use a; };\n// rules\nA -> B \"T\":t C | D { f(t) };\nA->E;";
    assert_eq!(
        tokenize(input),
        Ok(vec![
            identifier("GLOBAL_CODE"),
            Token::Equals,
            code("use a;"),
            Token::Semicolon,
            identifier("A"),
            Token::Arrow,
            identifier("B"),
            literal("T"),
            Token::Colon,
            identifier("t"),
            identifier("C"),
            Token::Pipe,
            identifier("D"),
            code("f(t)"),
            Token::Semicolon,
            identifier("A"),
            Token::Arrow,
            identifier("E"),
            Token::Semicolon,
        ])
    );
}

#[test]
fn whitespace_and_comments_change_no_token() {
    let dense = tokenize("A->B|\"T\"{c};").unwrap();
    let loose = tokenize(" A // one\n ->\tB\r\n| \"T\" // two\n { c } ; // three").unwrap();
    assert_eq!(dense, loose);
}

#[test]
fn scanner_tokenize_reads_ascii_text() {
    assert_eq!(
        Scanner::tokenize("a = {b};"),
        Ok(vec![identifier("a"), Token::Equals, code("b"), Token::Semicolon])
    );
}

#[test]
fn scanner_cursor_moves_over_the_text() {
    let mut scanner = Scanner { input: "ab>", index: 0 };
    assert!(!scanner.is_end_of_input());
    assert_eq!(scanner.current(), b'a');
    scanner.next();
    assert_eq!(scanner.index, 1);
    assert_eq!(scanner.current(), b'b');
    assert_eq!(scanner.substring_until_current(0), "a");
    scanner.advance(1);
    assert_eq!(scanner.index, 2);
    assert_eq!(scanner.substring_until_current(0), "ab");
    assert_eq!(scanner.substring_until_current(1), "b");
    assert_eq!(scanner.substring_until_current(2), "");
    assert_eq!(scanner.consume(b'>'), Ok(()));
    assert_eq!(scanner.index, 3);
    assert!(scanner.is_end_of_input());
}

#[test]
fn scanner_consume_says_what_stands_there() {
    let mut scanner = Scanner { input: "-x", index: 1 };
    assert_eq!(
        scanner.consume(b'>'),
        Err(TokenizerError::UnexpectedCharacter { expected: Some(b'>'), actual: b'x' })
    );
    assert_eq!(scanner.index, 1);
    scanner.next();
    assert_eq!(scanner.consume(b'>'), Err(TokenizerError::UnexpectedEndOfInput));
    assert_eq!(scanner.index, 2);
}

#[test]
fn identifier_start_is_a_letter() {
    for character in 0..=255u8 {
        assert_eq!(is_identifier_start(character), character.is_ascii_alphabetic());
    }
}

#[test]
fn identifier_character_is_letter_digit_or_underscore() {
    for character in 0..=255u8 {
        assert_eq!(
            is_identifier_character(character),
            character.is_ascii_alphanumeric() || character == b'_'
        );
    }
}

#[test]
fn whitespace_is_what_char_calls_whitespace_in_ascii() {
    for character in 0..128u8 {
        assert_eq!(is_whitespace(character), char::is_whitespace(character as char));
    }
    for character in 128..=255u8 {
        assert!(!is_whitespace(character));
    }
}

#[test]
fn trim_takes_whitespace_off_both_ends() {
    assert_eq!(trim("  a b \t\n"), "a b");
    assert_eq!(trim("a"), "a");
    assert_eq!(trim(""), "");
    assert_eq!(trim(" \r\n "), "");
    assert_eq!(trim("\x0b\x0cx\x0b"), "x");
    for text in ["  a b \t\n", " { } ", "x", "", "   ", "\ta\n"] {
        assert_eq!(trim(text), text.trim());
    }
}

#[test]
fn token_clone_is_equal() {
    for token in [identifier("a"), code("b"), literal("c"), Token::Arrow, Token::Semicolon] {
        assert_eq!(token.clone(), token);
    }
}

#[test]
fn tokenizer_errors_can_be_cloned() {
    for error in [
        TokenizerError::InvalidCharacters,
        TokenizerError::UnexpectedCharacter { expected: Some(b'>'), actual: b'x' },
        TokenizerError::UnexpectedEndOfInput,
        TokenizerError::UnclosedStringLiteral("a".to_string()),
        TokenizerError::UnclosedTokenLiteral("b".to_string()),
        TokenizerError::WhitespaceInTokenLiteral("c".to_string()),
    ] {
        assert_eq!(error.clone(), error);
    }
}
