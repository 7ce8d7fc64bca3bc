use exprlang::lexer::{parse, LexerErrorKind, NumLiteralData, NumValue, Token, TokenKind};

fn kinds(src: &str) -> Vec<TokenKind> {
    parse(src).expect("tokenizes").into_iter().map(|t| t.kind).collect()
}

fn decimal(digits: &str, fraction: &str, exponent: &str, str_len: usize) -> TokenKind {
    TokenKind::NumLiteral(NumLiteralData {
        value: NumValue {
            radix: 10,
            digits: digits.to_string(),
            fraction: fraction.to_string(),
            exponent: exponent.to_string(),
        },
        str_len,
    })
}

fn single_number(src: &str) -> NumLiteralData {
    let tokens = parse(src).expect("tokenizes");
    assert_eq!(tokens.len(), 1);
    match &tokens[0].kind {
        TokenKind::NumLiteral(n) => n.clone(),
        other => panic!("expected a number, found {:?}", other),
    }
}

fn as_f64(v: &NumValue) -> f64 {
    let mut text = v.digits.clone();
    if !v.fraction.is_empty() {
        text.push('.');
        text.push_str(&v.fraction);
    }
    if !v.exponent.is_empty() {
        text.push('e');
        text.push_str(&v.exponent);
    }
    text.parse::<f64>().unwrap()
}

fn error_kind(src: &str) -> LexerErrorKind {
    match parse(src) {
        Ok(tokens) => panic!("expected an error, got {:?}", tokens),
        Err(e) => e.kind,
    }
}

#[test]
fn decimal_integer_is_one_number_token() {
    let tokens = parse("12345").unwrap();
    assert_eq!(tokens.len(), 1);
    assert_eq!(tokens[0], Token { kind: decimal("12345", "", "", 5), line: 1, column: 1 });
    let n = single_number("12345");
    assert_eq!(n.value.integer_value(), Some(12345));
    assert_eq!(n.str_len, 5);
    let n = single_number("9");
    assert_eq!(n.value.integer_value(), Some(9));
    assert_eq!(n.str_len, 1);
}

#[test]
fn radix_literals() {
    let n = single_number("0x1A");
    assert_eq!(n.value.integer_value(), Some(26));
    assert_eq!(n.str_len, 4);
    let n = single_number("0b101");
    assert_eq!(n.value.integer_value(), Some(5));
    assert_eq!(n.str_len, 5);
    let n = single_number("0o17");
    assert_eq!(n.value.integer_value(), Some(15));
    assert_eq!(n.str_len, 4);
    let n = single_number("0xff");
    assert_eq!(n.value.integer_value(), Some(255));
    assert_eq!(n.value.radix, 16);
    assert_eq!(n.value.digits, "ff");
}

#[test]
fn bare_radix_prefix_is_zero_of_length_two() {
    let n = single_number("0x");
    assert_eq!(n.value.integer_value(), Some(0));
    assert_eq!(n.str_len, 2);
    assert_eq!(n.value.digits, "");
}

#[test]
fn radix_run_stops_at_first_foreign_digit() {
    let tokens = parse("0b12").unwrap();
    assert_eq!(tokens.len(), 2);
    assert_eq!(tokens[1], Token { kind: decimal("2", "", "", 1), line: 1, column: 4 });
}

#[test]
fn fractional_literal() {
    let n = single_number("3.14");
    assert_eq!(n.value.digits, "3");
    assert_eq!(n.value.fraction, "14");
    assert_eq!(as_f64(&n.value), 3.14);
    assert_eq!(n.str_len, 4);
    assert_eq!(n.value.integer_value(), None);
}

#[test]
fn trailing_dot_is_a_separate_token() {
    let tokens = parse("3.").unwrap();
    assert_eq!(tokens.len(), 2);
    assert_eq!(tokens[0], Token { kind: decimal("3", "", "", 1), line: 1, column: 1 });
    assert_eq!(tokens[1], Token { kind: TokenKind::Dot, line: 1, column: 2 });
    assert_eq!(as_f64(&single_number("3").value), 3.0);
}

#[test]
fn exponent_literals() {
    assert_eq!(kinds("1e5"), vec![decimal("1", "", "5", 3)]);
    assert_eq!(as_f64(&single_number("1e5").value), 100000.0);
    assert_eq!(kinds("2.5e10"), vec![decimal("2", "5", "10", 6)]);
    assert_eq!(kinds("1e"), vec![decimal("1", "", "", 1), TokenKind::Identifier("e".to_string())]);
    assert_eq!(kinds("0.5e3"), vec![decimal("0", "5", "3", 5)]);
    assert_eq!(as_f64(&single_number("0.5e3").value), 500.0);
    assert_eq!(kinds("0e5"), vec![decimal("0", "", "", 1), TokenKind::Identifier("e5".to_string())]);
    assert_eq!(kinds("0."), vec![decimal("0", "", "", 1), TokenKind::Dot]);
}

#[test]
fn integer_value_overflow_and_fraction() {
    assert_eq!(single_number("18446744073709551615").value.integer_value(), Some(u64::MAX));
    assert_eq!(single_number("18446744073709551616").value.integer_value(), None);
    assert_eq!(single_number("0xFFFFFFFFFFFFFFFFF").value.integer_value(), None);
    assert_eq!(single_number("1e2").value.integer_value(), None);
}

#[test]
fn string_escape_kept_verbatim() {
    let src = "\"a\\nb\"";
    let tokens = parse(src).unwrap();
    assert_eq!(tokens.len(), 1);
    assert_eq!(tokens[0].kind, TokenKind::StrLiteral("\"a\\nb\"".to_string()));
    assert_eq!(tokens[0].kind.get_str_len(), 6);
    let tokens = parse("\"x\" y").unwrap();
    assert_eq!(tokens[1], Token { kind: TokenKind::Identifier("y".to_string()), line: 1, column: 5 });
}

#[test]
fn unterminated_string() {
    assert_eq!(error_kind("\"unterminated"), LexerErrorKind::UnterminatedStringLiteral);
    assert_eq!(error_kind("\"a\nb\""), LexerErrorKind::UnterminatedStringLiteral);
}

#[test]
fn invalid_escape() {
    assert_eq!(error_kind("\"a\\qb\""), LexerErrorKind::InvalidStringEscapeSequence);
    assert_eq!(error_kind("\"a\\"), LexerErrorKind::InvalidStringEscapeSequence);
}

#[test]
fn invalid_characters() {
    assert_eq!(error_kind("a # b"), LexerErrorKind::InvalidCharacter('#'));
    assert_eq!(error_kind("a & b"), LexerErrorKind::InvalidCharacter('&'));
    assert_eq!(error_kind("a | b"), LexerErrorKind::InvalidCharacter('|'));
}

#[test]
fn error_keeps_tokens_and_position() {
    match parse("ab\n  cd @") {
        Ok(_) => panic!("expected an error"),
        Err(e) => {
            assert_eq!(e.kind, LexerErrorKind::InvalidCharacter('@'));
            assert_eq!(e.state.line, 2);
            assert_eq!(e.state.column, 6);
            assert_eq!(e.state.tokens.len(), 2);
        },
    }
}

#[test]
fn operators_and_symbols() {
    assert_eq!(
        kinds("= == ! != < <= > >= && || + - * / % ; . , ( ) { } [ ]"),
        vec![
            TokenKind::SingleEqual,
            TokenKind::DoubleEqual,
            TokenKind::Exclamation,
            TokenKind::ExclEqual,
            TokenKind::LessThan,
            TokenKind::LessThanEq,
            TokenKind::GreaterThan,
            TokenKind::GreaterThanEq,
            TokenKind::DoubleAnd,
            TokenKind::DoublePipe,
            TokenKind::Plus,
            TokenKind::Minus,
            TokenKind::Asterisk,
            TokenKind::Slash,
            TokenKind::Percent,
            TokenKind::SemiColon,
            TokenKind::Dot,
            TokenKind::Comma,
            TokenKind::LeftParen,
            TokenKind::RightParen,
            TokenKind::LeftCurly,
            TokenKind::RightCurly,
            TokenKind::LeftBracket,
            TokenKind::RightBracket,
        ]
    );
    assert_eq!(kinds("a&&b"), vec![
        TokenKind::Identifier("a".to_string()),
        TokenKind::DoubleAnd,
        TokenKind::Identifier("b".to_string()),
    ]);
}

#[test]
fn identifiers_and_keyword() {
    assert_eq!(kinds("typeof x_1 typeofx _"), vec![
        TokenKind::TypeofKeyword,
        TokenKind::Identifier("x_1".to_string()),
        TokenKind::Identifier("typeofx".to_string()),
        TokenKind::Identifier("_".to_string()),
    ]);
}

#[test]
fn positions_and_whitespace() {
    let tokens = parse("a\n  bb\tc\r\nd").unwrap();
    let positions: Vec<(usize, usize)> = tokens.iter().map(|t| (t.line, t.column)).collect();
    assert_eq!(positions, vec![(1, 1), (2, 3), (2, 6), (3, 1)]);
    let tokens = parse("x >= 10").unwrap();
    let columns: Vec<usize> = tokens.iter().map(|t| t.column).collect();
    assert_eq!(columns, vec![1, 3, 6]);
}

#[test]
fn empty_input_has_no_tokens() {
    assert_eq!(parse("").unwrap().len(), 0);
    assert_eq!(parse(" \t\r\n").unwrap().len(), 0);
}

#[test]
fn tokenizing_twice_gives_the_same_tokens() {
    let src = "f(1, \"s\\t\") + 0x1F * 2.5e3 = typeof y\n  && z";
    let first = parse(src).unwrap();
    let second = parse(src).unwrap();
    assert_eq!(first, second);
}

#[test]
fn token_lengths() {
    assert_eq!(TokenKind::TypeofKeyword.get_str_len(), 6);
    assert_eq!(TokenKind::DoublePipe.get_str_len(), 2);
    assert_eq!(TokenKind::Comma.get_str_len(), 1);
    assert_eq!(TokenKind::Identifier("héllo".to_string()).get_str_len(), 5);
}
