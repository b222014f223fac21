use assembler::tokenizer::{get_number_as_int, to_dec_string, LexError, Token, TokenType, Tokenizer};

fn tok(source: &str) -> Vec<Token> {
    let mut tokenizer = Tokenizer::new();
    tokenizer.tokenize(source).expect("lexing should succeed");
    tokenizer.tokens
}

fn lex_err(source: &str) -> LexError {
    let mut tokenizer = Tokenizer::new();
    tokenizer.tokenize(source).expect_err("lexing should fail")
}

fn kinds(tokens: &[Token]) -> Vec<TokenType> {
    tokens.iter().map(|t| t.token_type).collect()
}

#[test]
fn hex_literal_normalizes_to_decimal() {
    let tokens = tok("#0x1F\n");
    assert_eq!(tokens[0].token_type, TokenType::Number);
    assert_eq!(tokens[0].value, "31");
}

#[test]
fn binary_literal_normalizes_to_decimal() {
    let tokens = tok("#0b101\n");
    assert_eq!(tokens[0].token_type, TokenType::Number);
    assert_eq!(tokens[0].value, "5");
}

#[test]
fn decimal_literal_stays_decimal() {
    let tokens = tok("#42\n");
    assert_eq!(tokens[0].token_type, TokenType::Number);
    assert_eq!(tokens[0].value, "42");
}

#[test]
fn number_decoding_by_base() {
    assert_eq!(get_number_as_int("0x1F"), Some(31));
    assert_eq!(get_number_as_int("0b101"), Some(5));
    assert_eq!(get_number_as_int("42"), Some(42));
    assert_eq!(get_number_as_int("0"), Some(0));
    assert_eq!(get_number_as_int(""), None);
    assert_eq!(get_number_as_int("0x"), None);
    assert_eq!(get_number_as_int("0b"), None);
    assert_eq!(get_number_as_int("0xZZ"), None);
    assert_eq!(get_number_as_int("12a"), None);
    // only a lower-case prefix selects a base; `0X1F` is read as decimal
    assert_eq!(get_number_as_int("0X1F"), None);
}

#[test]
fn number_decoding_respects_signed_64_bit_range() {
    assert_eq!(get_number_as_int("9223372036854775807"), Some(i64::MAX));
    assert_eq!(get_number_as_int("9223372036854775808"), None);
    assert_eq!(get_number_as_int("0x7FFFFFFFFFFFFFFF"), Some(i64::MAX));
    assert_eq!(get_number_as_int("0x8000000000000000"), None);
    assert_eq!(get_number_as_int("0xffffffffffffffff"), None);
}

#[test]
fn decimal_rendering() {
    assert_eq!(to_dec_string(0), "0");
    assert_eq!(to_dec_string(5), "5");
    assert_eq!(to_dec_string(31), "31");
    assert_eq!(to_dec_string(9223372036854775807), "9223372036854775807");
}

#[test]
fn tokenize_instruction_line() {
    let tokens = tok("MOV R0, #5\n");
    assert_eq!(
        kinds(&tokens),
        vec![
            TokenType::Identifier,
            TokenType::Identifier,
            TokenType::Comma,
            TokenType::Number,
            TokenType::NewLine,
        ]
    );
    assert_eq!(tokens[0].value, "MOV");
    assert_eq!(tokens[1].value, "R0");
    assert_eq!(tokens[2].value, "");
    assert_eq!(tokens[3].value, "5");
    assert_eq!(tokens[4].value, "");
    let expected_positions = [(1, 0), (1, 4), (1, 6), (1, 8), (1, 10)];
    for (token, (line, column)) in tokens.iter().zip(expected_positions.iter()) {
        assert_eq!(token.position.line, *line);
        assert_eq!(token.position.column, *column);
    }
    // lines never decrease, columns never decrease
    for pair in tokens.windows(2) {
        assert!(pair[0].position.line <= pair[1].position.line);
        assert!(pair[0].position.column <= pair[1].position.column);
    }
}

#[test]
fn tokenizing_twice_is_idempotent() {
    let source = "MOV R0, #5\nloop:\nRET\n";
    let first = tok(source);
    let second = tok(source);
    assert_eq!(first, second);

    // and a reused lexer starts afresh on each pass
    let mut tokenizer = Tokenizer::new();
    tokenizer.tokenize(source).unwrap();
    let once = std::mem::take(&mut tokenizer.tokens);
    tokenizer.tokenize(source).unwrap();
    assert_eq!(once, tokenizer.tokens);
}

#[test]
fn comment_is_discarded_through_its_newline() {
    let tokens = tok("; greeting\nRET\n");
    assert_eq!(kinds(&tokens), vec![TokenType::Identifier, TokenType::NewLine]);
    assert_eq!(tokens[0].value, "RET");
    // the comment's newline is consumed silently: no NewLine token for it and
    // no line increment, while the column keeps counting consumed characters
    assert_eq!(tokens[0].position.line, 1);
    assert_eq!(tokens[0].position.column, 11);
}

#[test]
fn comment_at_end_of_input_stops_at_eof() {
    let tokens = tok("RET\n; trailing");
    assert_eq!(kinds(&tokens), vec![TokenType::Identifier, TokenType::NewLine]);
}

#[test]
fn newline_token_and_line_counter() {
    let tokens = tok("MOV\nRET\n");
    assert_eq!(
        kinds(&tokens),
        vec![
            TokenType::Identifier,
            TokenType::NewLine,
            TokenType::Identifier,
            TokenType::NewLine,
        ]
    );
    assert_eq!(tokens[0].position.line, 1);
    assert_eq!(tokens[1].position.line, 1);
    assert_eq!(tokens[2].position.line, 2);
    assert_eq!(tokens[2].position.column, 4);
    assert_eq!(tokens[3].position.line, 2);
}

#[test]
fn whitespace_is_skipped_without_tokens() {
    let tokens = tok("\t \r\n");
    assert_eq!(kinds(&tokens), vec![TokenType::NewLine]);
    assert_eq!(tokens[0].position.column, 3);
}

#[test]
fn directive_and_colon_tokens() {
    let tokens = tok(".word #5\n");
    assert_eq!(
        kinds(&tokens),
        vec![TokenType::Directive, TokenType::Number, TokenType::NewLine]
    );
    assert_eq!(tokens[0].value, "word");
    assert_eq!(tokens[0].position.column, 0);
    assert_eq!(tokens[1].value, "5");
    assert_eq!(tokens[1].position.column, 6);

    let tokens = tok("loop:\n");
    assert_eq!(
        kinds(&tokens),
        vec![TokenType::Identifier, TokenType::Colon, TokenType::NewLine]
    );
    assert_eq!(tokens[0].value, "loop");
    assert_eq!(tokens[1].position.column, 4);
}

#[test]
fn identifiers_may_hold_digits_and_underscores() {
    let tokens = tok("x2_start\n");
    assert_eq!(tokens[0].token_type, TokenType::Identifier);
    assert_eq!(tokens[0].value, "x2_start");
}

#[test]
fn unexpected_character_is_a_positioned_error() {
    match lex_err("@") {
        LexError::UnexpectedCharacter { character, position } => {
            assert_eq!(character, '@');
            assert_eq!(position.line, 1);
            assert_eq!(position.column, 0);
        }
        other => panic!("wrong error: {:?}", other),
    }
}

#[test]
fn leading_digit_is_an_unexpected_character() {
    match lex_err("1abc\n") {
        LexError::UnexpectedCharacter { character, .. } => assert_eq!(character, '1'),
        other => panic!("wrong error: {:?}", other),
    }
}

#[test]
fn invalid_number_names_the_literal() {
    match lex_err("MOV #0xZZ\n") {
        LexError::InvalidNumber { literal, position } => {
            assert_eq!(literal, "0xZZ");
            assert_eq!(position.line, 1);
            assert_eq!(position.column, 4);
        }
        other => panic!("wrong error: {:?}", other),
    }
    match lex_err("#\n") {
        LexError::InvalidNumber { literal, .. } => assert_eq!(literal, ""),
        other => panic!("wrong error: {:?}", other),
    }
}
