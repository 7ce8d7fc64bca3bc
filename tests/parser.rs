use exprlang::lexer::{parse, NumValue, Token, TokenKind};
use exprlang::parser::{parse_expression, Expression, ParseError};
use std::collections::VecDeque;

fn tokens(src: &str) -> VecDeque<Token> {
    parse(src).expect("tokenizes")
}

fn expr(src: &str) -> Result<Expression, ParseError> {
    let mut ts = tokens(src);
    parse_expression(&mut ts)
}

fn num(digits: &str) -> Expression {
    Expression::NumberValue(NumValue {
        radix: 10,
        digits: digits.to_string(),
        fraction: String::new(),
        exponent: String::new(),
    })
}

fn var(name: &str) -> Expression {
    Expression::Variable(name.to_string())
}

fn b(e: Expression) -> Box<Expression> {
    Box::new(e)
}

fn number_token(digits: &str) -> TokenKind {
    match &tokens(digits)[0].kind {
        k @ TokenKind::NumLiteral(_) => k.clone(),
        other => panic!("expected a number, found {:?}", other),
    }
}

#[test]
fn multiplication_binds_tighter_than_addition() {
    assert_eq!(
        expr("1 + 2 * 3"),
        Ok(Expression::Addition(b(num("1")), b(Expression::Multiplication(b(num("2")), b(num("3"))))))
    );
}

#[test]
fn assignment_nests_to_the_right() {
    assert_eq!(
        expr("a = b = 3"),
        Ok(Expression::Assignment(b(var("a")), b(Expression::Assignment(b(var("b")), b(num("3"))))))
    );
}

#[test]
fn call_and_member_access_chain_left_to_right() {
    assert_eq!(
        expr("f(1, 2).x"),
        Ok(Expression::MemberAccess(
            b(Expression::FunctionCall(b(var("f")), vec![num("1"), num("2")])),
            b(var("x")),
        ))
    );
}

#[test]
fn missing_closing_paren() {
    assert_eq!(expr("(1 + 2"), Err(ParseError::ExpectedRightParen(None)));
    assert_eq!(expr("(1 2)"), Err(ParseError::ExpectedRightParen(Some(number_token("2")))));
}

#[test]
fn grouping_overrides_precedence() {
    assert_eq!(
        expr("(1 + 2) * 3"),
        Ok(Expression::Multiplication(b(Expression::Addition(b(num("1")), b(num("2")))), b(num("3"))))
    );
}

#[test]
fn binary_tiers_are_left_associative() {
    assert_eq!(
        expr("1 - 2 - 3"),
        Ok(Expression::Subtraction(b(Expression::Subtraction(b(num("1")), b(num("2")))), b(num("3"))))
    );
    assert_eq!(
        expr("a / b % c"),
        Ok(Expression::Remainder(b(Expression::Division(b(var("a")), b(var("b")))), b(var("c"))))
    );
    assert_eq!(
        expr("a || b || c"),
        Ok(Expression::LogicalOr(b(Expression::LogicalOr(b(var("a")), b(var("b")))), b(var("c"))))
    );
}

#[test]
fn tiers_from_loosest_to_tightest() {
    let got = expr("x = a || b && c == d < e + f * g").unwrap();
    let mul = Expression::Multiplication(b(var("f")), b(var("g")));
    let add = Expression::Addition(b(var("e")), b(mul));
    let lt = Expression::LessThan(b(var("d")), b(add));
    let eq = Expression::Equality(b(var("c")), b(lt));
    let and = Expression::LogicalAnd(b(var("b")), b(eq));
    let or = Expression::LogicalOr(b(var("a")), b(and));
    assert_eq!(got, Expression::Assignment(b(var("x")), b(or)));
}

#[test]
fn comparison_operators() {
    assert_eq!(expr("a <= b"), Ok(Expression::LessThanEq(b(var("a")), b(var("b")))));
    assert_eq!(expr("a > b"), Ok(Expression::GreaterThan(b(var("a")), b(var("b")))));
    assert_eq!(expr("a >= b"), Ok(Expression::GreaterThanEq(b(var("a")), b(var("b")))));
    assert_eq!(expr("a != b"), Ok(Expression::Inequality(b(var("a")), b(var("b")))));
}

#[test]
fn unary_operators_nest() {
    assert_eq!(expr("!!x"), Ok(Expression::LogicalNot(b(Expression::LogicalNot(b(var("x")))))));
    assert_eq!(expr("-typeof a"), Ok(Expression::UnaryNegation(b(Expression::Typeof(b(var("a")))))));
    assert_eq!(
        expr("-a * b"),
        Ok(Expression::Multiplication(b(Expression::UnaryNegation(b(var("a")))), b(var("b"))))
    );
}

#[test]
fn leaves() {
    assert_eq!(expr("\"s\""), Ok(Expression::StringValue("\"s\"".to_string())));
    assert_eq!(expr("42"), Ok(num("42")));
    assert_eq!(expr("name"), Ok(var("name")));
}

#[test]
fn calls() {
    assert_eq!(expr("f()"), Ok(Expression::FunctionCall(b(var("f")), vec![])));
    assert_eq!(
        expr("f(a)(b)"),
        Ok(Expression::FunctionCall(b(Expression::FunctionCall(b(var("f")), vec![var("a")])), vec![var("b")]))
    );
    assert_eq!(
        expr("o.m(1 + 2)"),
        Ok(Expression::FunctionCall(
            b(Expression::MemberAccess(b(var("o")), b(var("m")))),
            vec![Expression::Addition(b(num("1")), b(num("2")))],
        ))
    );
}

#[test]
fn call_list_errors() {
    assert_eq!(expr("f(1,)"), Err(ParseError::ExpectedPrimary(TokenKind::RightParen)));
    assert_eq!(expr("f(1 2)"), Err(ParseError::ExpectedCommaOrRightParen(Some(number_token("2")))));
    assert_eq!(expr("f(1"), Err(ParseError::ExpectedCommaOrRightParen(None)));
    assert_eq!(expr("f("), Err(ParseError::UnexpectedEndOfInput));
}

#[test]
fn value_expected() {
    assert_eq!(expr(""), Err(ParseError::UnexpectedEndOfInput));
    assert_eq!(expr(")"), Err(ParseError::ExpectedPrimary(TokenKind::RightParen)));
    assert_eq!(expr("1 +"), Err(ParseError::UnexpectedEndOfInput));
    assert_eq!(expr("a.1"), Ok(Expression::MemberAccess(b(var("a")), b(num("1")))));
    assert_eq!(expr("a.;"), Err(ParseError::ExpectedPrimary(TokenKind::SemiColon)));
}

#[test]
fn tokens_after_the_expression_stay() {
    let mut ts = tokens("1 + 2; x");
    assert_eq!(
        parse_expression(&mut ts),
        Ok(Expression::Addition(b(num("1")), b(num("2"))))
    );
    let rest: Vec<TokenKind> = ts.into_iter().map(|t| t.kind).collect();
    assert_eq!(rest, vec![TokenKind::SemiColon, TokenKind::Identifier("x".to_string())]);
}
