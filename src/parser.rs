use crate::lexer::{Lexeme, NumValue, NumView, Token, TokenKind};
use std::collections::VecDeque;
use vstd::prelude::*;

verus! {

// ---------------------------------------------------------------------------
// Data
// ---------------------------------------------------------------------------

#[derive(Debug, PartialEq)]
pub enum Expression {
    StringValue(String),
    NumberValue(NumValue),
    Variable(String),
    MemberAccess(Box<Expression>, Box<Expression>),
    FunctionCall(Box<Expression>, Vec<Expression>),
    LogicalNot(Box<Expression>),
    UnaryNegation(Box<Expression>),
    Typeof(Box<Expression>),
    Multiplication(Box<Expression>, Box<Expression>),
    Division(Box<Expression>, Box<Expression>),
    Remainder(Box<Expression>, Box<Expression>),
    Addition(Box<Expression>, Box<Expression>),
    Subtraction(Box<Expression>, Box<Expression>),
    LessThan(Box<Expression>, Box<Expression>),
    LessThanEq(Box<Expression>, Box<Expression>),
    GreaterThan(Box<Expression>, Box<Expression>),
    GreaterThanEq(Box<Expression>, Box<Expression>),
    Equality(Box<Expression>, Box<Expression>),
    Inequality(Box<Expression>, Box<Expression>),
    LogicalAnd(Box<Expression>, Box<Expression>),
    LogicalOr(Box<Expression>, Box<Expression>),
    Assignment(Box<Expression>, Box<Expression>),
}

/// A syntax error. A `None` payload stands for the end of the input.
#[derive(Debug, Clone, PartialEq)]
pub enum ParseError {
    UnexpectedEndOfInput,
    ExpectedPrimary(TokenKind),
    ExpectedRightParen(Option<TokenKind>),
    ExpectedCommaOrRightParen(Option<TokenKind>),
}

#[derive(Debug, Clone, Copy, PartialEq, Eq)]
pub enum UnaryOp {
    Not,
    Negate,
    Typeof,
}

#[derive(Debug, Clone, Copy, PartialEq, Eq)]
pub enum BinaryOp {
    Member,
    Mul,
    Div,
    Rem,
    Add,
    Sub,
    Lt,
    Le,
    Gt,
    Ge,
    Eq,
    Ne,
    And,
    Or,
    Assign,
}

// ---------------------------------------------------------------------------
// Mathematical model
// ---------------------------------------------------------------------------

pub enum Ast {
    Str(Seq<char>),
    Num(NumView),
    Var(Seq<char>),
    Unary(UnaryOp, Box<Ast>),
    Binary(BinaryOp, Box<Ast>, Box<Ast>),
    Call(Box<Ast>, Seq<Ast>),
}

pub enum SyntaxFailure {
    End,
    ExpectedPrimary(Lexeme),
    ExpectedRightParen(Option<Lexeme>),
    ExpectedCommaOrRightParen(Option<Lexeme>),
}

pub open spec fn bin(op: BinaryOp, l: Ast, r: Ast) -> Ast {
    Ast::Binary(op, Box::new(l), Box::new(r))
}

/// The tree that an expression stands for.
pub open spec fn ast_of(e: Expression) -> Ast
    decreases e,
{
    match e {
        Expression::StringValue(s) => Ast::Str(s@),
        Expression::NumberValue(n) => Ast::Num(n@),
        Expression::Variable(s) => Ast::Var(s@),
        Expression::MemberAccess(l, r) => bin(BinaryOp::Member, ast_of(*l), ast_of(*r)),
        Expression::FunctionCall(f, args) => Ast::Call(
            Box::new(ast_of(*f)),
            Seq::new(args@.len(), |i: int| if 0 <= i < args.len() { ast_of(args[i]) } else { Ast::Var(Seq::empty()) }),
        ),
        Expression::LogicalNot(e) => Ast::Unary(UnaryOp::Not, Box::new(ast_of(*e))),
        Expression::UnaryNegation(e) => Ast::Unary(UnaryOp::Negate, Box::new(ast_of(*e))),
        Expression::Typeof(e) => Ast::Unary(UnaryOp::Typeof, Box::new(ast_of(*e))),
        Expression::Multiplication(l, r) => bin(BinaryOp::Mul, ast_of(*l), ast_of(*r)),
        Expression::Division(l, r) => bin(BinaryOp::Div, ast_of(*l), ast_of(*r)),
        Expression::Remainder(l, r) => bin(BinaryOp::Rem, ast_of(*l), ast_of(*r)),
        Expression::Addition(l, r) => bin(BinaryOp::Add, ast_of(*l), ast_of(*r)),
        Expression::Subtraction(l, r) => bin(BinaryOp::Sub, ast_of(*l), ast_of(*r)),
        Expression::LessThan(l, r) => bin(BinaryOp::Lt, ast_of(*l), ast_of(*r)),
        Expression::LessThanEq(l, r) => bin(BinaryOp::Le, ast_of(*l), ast_of(*r)),
        Expression::GreaterThan(l, r) => bin(BinaryOp::Gt, ast_of(*l), ast_of(*r)),
        Expression::GreaterThanEq(l, r) => bin(BinaryOp::Ge, ast_of(*l), ast_of(*r)),
        Expression::Equality(l, r) => bin(BinaryOp::Eq, ast_of(*l), ast_of(*r)),
        Expression::Inequality(l, r) => bin(BinaryOp::Ne, ast_of(*l), ast_of(*r)),
        Expression::LogicalAnd(l, r) => bin(BinaryOp::And, ast_of(*l), ast_of(*r)),
        Expression::LogicalOr(l, r) => bin(BinaryOp::Or, ast_of(*l), ast_of(*r)),
        Expression::Assignment(l, r) => bin(BinaryOp::Assign, ast_of(*l), ast_of(*r)),
    }
}

impl View for Expression {
    type V = Ast;

    open spec fn view(&self) -> Ast {
        ast_of(*self)
    }
}

pub open spec fn failure_of(e: ParseError) -> SyntaxFailure {
    match e {
        ParseError::UnexpectedEndOfInput => SyntaxFailure::End,
        ParseError::ExpectedPrimary(k) => SyntaxFailure::ExpectedPrimary(k@),
        ParseError::ExpectedRightParen(k) => SyntaxFailure::ExpectedRightParen(opt_view(k)),
        ParseError::ExpectedCommaOrRightParen(k) => SyntaxFailure::ExpectedCommaOrRightParen(
            opt_view(k),
        ),
    }
}

pub open spec fn opt_view(k: Option<TokenKind>) -> Option<Lexeme> {
    match k {
        Some(k) => Some(k@),
        None => None,
    }
}

impl View for ParseError {
    type V = SyntaxFailure;

    open spec fn view(&self) -> SyntaxFailure {
        failure_of(*self)
    }
}

/// The kinds of a token sequence, positions left out.
pub open spec fn kinds(ts: Seq<Token>) -> Seq<Lexeme> {
    ts.map_values(|t: Token| t.kind@)
}

/// `t` without its first `n` elements.
pub open spec fn after(t: Seq<Lexeme>, n: nat) -> Seq<Lexeme> {
    if n <= t.len() {
        t.subrange(n as int, t.len() as int)
    } else {
        Seq::empty()
    }
}

/// The outcome of parsing a prefix of a token sequence: the tree and the number of
/// tokens it took, or the first syntax error.
pub type Parsed = Result<(Ast, nat), SyntaxFailure>;

pub open spec fn shifted(r: Parsed, n: nat) -> Parsed {
    match r {
        Ok((e, c)) => Ok((e, c + n)),
        Err(f) => Err(f),
    }
}

pub open spec fn is_fixed(l: Lexeme, k: TokenKind) -> bool {
    l == Lexeme::Fixed(k)
}

// ---------------------------------------------------------------------------
// Grammar
//
// Each tier parses a prefix of `t`. Recursion goes down by one tier on the same
// tokens, or to any tier after at least one token has been taken.
// ---------------------------------------------------------------------------

/// A string, number or identifier, or a parenthesised expression.
pub open spec fn spec_value(t: Seq<Lexeme>) -> Parsed
    decreases t.len(), 1nat,
{
    if t.len() == 0 {
        Err(SyntaxFailure::End)
    } else {
        match t[0] {
            Lexeme::Str(s) => Ok((Ast::Str(s), 1)),
            Lexeme::Num(v, _) => Ok((Ast::Num(v), 1)),
            Lexeme::Ident(s) => Ok((Ast::Var(s), 1)),
            Lexeme::Fixed(k) => if k == TokenKind::LeftParen {
                match spec_expression(after(t, 1)) {
                    Ok((e, c)) => {
                        let rest = after(t, 1 + c);
                        if rest.len() == 0 {
                            Err(SyntaxFailure::ExpectedRightParen(None))
                        } else if is_fixed(rest[0], TokenKind::RightParen) {
                            Ok((e, c + 2))
                        } else {
                            Err(SyntaxFailure::ExpectedRightParen(Some(rest[0])))
                        }
                    },
                    Err(f) => Err(f),
                }
            } else {
                Err(SyntaxFailure::ExpectedPrimary(t[0]))
            },
        }
    }
}

/// A value followed by any number of member accesses (`.` value) and call argument
/// lists, applied left to right to `left`.
pub open spec fn spec_postfix(t: Seq<Lexeme>, left: Ast) -> Parsed
    decreases t.len(), 2nat,
{
    if t.len() == 0 {
        Ok((left, 0))
    } else if is_fixed(t[0], TokenKind::Dot) {
        match spec_value(after(t, 1)) {
            Ok((m, c)) => shifted(spec_postfix(after(t, 1 + c), bin(BinaryOp::Member, left, m)), 1 + c),
            Err(f) => Err(f),
        }
    } else if is_fixed(t[0], TokenKind::LeftParen) {
        match spec_call_args(after(t, 1)) {
            Ok((args, c)) => shifted(
                spec_postfix(after(t, 1 + c), Ast::Call(Box::new(left), args)),
                1 + c,
            ),
            Err(f) => Err(f),
        }
    } else {
        Ok((left, 0))
    }
}

pub open spec fn spec_primary(t: Seq<Lexeme>) -> Parsed
    decreases t.len(), 3nat,
{
    match spec_value(t) {
        Ok((e, c)) => shifted(spec_postfix(after(t, c), e), c),
        Err(f) => Err(f),
    }
}

pub open spec fn unary_op_of(l: Lexeme) -> Option<UnaryOp> {
    if is_fixed(l, TokenKind::Exclamation) {
        Some(UnaryOp::Not)
    } else if is_fixed(l, TokenKind::TypeofKeyword) {
        Some(UnaryOp::Typeof)
    } else if is_fixed(l, TokenKind::Minus) {
        Some(UnaryOp::Negate)
    } else {
        None
    }
}

/// Prefix `!`, `typeof` and `-`, nested to the right, over a primary expression.
pub open spec fn spec_unary(t: Seq<Lexeme>) -> Parsed
    decreases t.len(), 4nat,
{
    if t.len() > 0 && unary_op_of(t[0]) is Some {
        match spec_unary(after(t, 1)) {
            Ok((e, c)) => Ok((Ast::Unary(unary_op_of(t[0])->0, Box::new(e)), c + 1)),
            Err(f) => Err(f),
        }
    } else {
        spec_primary(t)
    }
}

/// The binary operator that a token stands for at a tier: 0 `||`, 1 `&&`,
/// 2 `==` `!=`, 3 `<` `<=` `>` `>=`, 4 `+` `-`, 5 (and above) `*` `/` `%`.
pub open spec fn tier_op(k: nat, l: Lexeme) -> Option<BinaryOp> {
    match l {
        Lexeme::Fixed(kind) => if k == 0 {
            if kind == TokenKind::DoublePipe { Some(BinaryOp::Or) } else { None }
        } else if k == 1 {
            if kind == TokenKind::DoubleAnd { Some(BinaryOp::And) } else { None }
        } else if k == 2 {
            if kind == TokenKind::DoubleEqual {
                Some(BinaryOp::Eq)
            } else if kind == TokenKind::ExclEqual {
                Some(BinaryOp::Ne)
            } else {
                None
            }
        } else if k == 3 {
            if kind == TokenKind::LessThan {
                Some(BinaryOp::Lt)
            } else if kind == TokenKind::LessThanEq {
                Some(BinaryOp::Le)
            } else if kind == TokenKind::GreaterThan {
                Some(BinaryOp::Gt)
            } else if kind == TokenKind::GreaterThanEq {
                Some(BinaryOp::Ge)
            } else {
                None
            }
        } else if k == 4 {
            if kind == TokenKind::Plus {
                Some(BinaryOp::Add)
            } else if kind == TokenKind::Minus {
                Some(BinaryOp::Sub)
            } else {
                None
            }
        } else {
            if kind == TokenKind::Asterisk {
                Some(BinaryOp::Mul)
            } else if kind == TokenKind::Slash {
                Some(BinaryOp::Div)
            } else if kind == TokenKind::Percent {
                Some(BinaryOp::Rem)
            } else {
                None
            }
        },
        _ => None,
    }
}

pub open spec fn tier_rank(k: nat) -> nat {
    if k <= 5 {
        (16 - 2 * k) as nat
    } else {
        6
    }
}

/// An operand of tier `k`: an expression of the next tighter tier.
pub open spec fn spec_operand(t: Seq<Lexeme>, k: nat) -> Parsed
    decreases t.len(), tier_rank(k) - 1,
{
    if k >= 5 {
        spec_unary(t)
    } else {
        spec_tier(t, k + 1)
    }
}

/// A left-associative chain of operands joined by the operators of tier `k`.
pub open spec fn spec_tier(t: Seq<Lexeme>, k: nat) -> Parsed
    decreases t.len(), tier_rank(k),
{
    match spec_operand(t, k) {
        Ok((e, c)) => shifted(spec_tier_rest(after(t, c), k, e), c),
        Err(f) => Err(f),
    }
}

/// The rest of a chain of tier `k` after the operand `left`.
pub open spec fn spec_tier_rest(t: Seq<Lexeme>, k: nat, left: Ast) -> Parsed
    decreases t.len(), tier_rank(k) - 2,
{
    if t.len() > 0 && tier_op(k, t[0]) is Some {
        match spec_operand(after(t, 1), k) {
            Ok((r, c)) => shifted(
                spec_tier_rest(after(t, 1 + c), k, bin(tier_op(k, t[0])->0, left, r)),
                1 + c,
            ),
            Err(f) => Err(f),
        }
    } else {
        Ok((left, 0))
    }
}

/// An expression: a logical-or chain, then, after `=`, another expression as the
/// right-hand side of an assignment (so assignment nests to the right).
pub open spec fn spec_expression(t: Seq<Lexeme>) -> Parsed
    decreases t.len(), 17nat,
{
    match spec_tier(t, 0) {
        Ok((l, c)) => {
            let rest = after(t, c);
            if rest.len() > 0 && is_fixed(rest[0], TokenKind::SingleEqual) {
                match spec_expression(after(t, c + 1)) {
                    Ok((r, c2)) => Ok((bin(BinaryOp::Assign, l, r), c + 1 + c2)),
                    Err(f) => Err(f),
                }
            } else {
                Ok((l, c))
            }
        },
        Err(f) => Err(f),
    }
}

pub type ParsedArgs = Result<(Seq<Ast>, nat), SyntaxFailure>;

/// A call's argument list after its `(`: either `)` at once, or expressions separated
/// by `,` and closed by `)`.
pub open spec fn spec_call_args(t: Seq<Lexeme>) -> ParsedArgs
    decreases t.len(), 19nat,
{
    if t.len() == 0 {
        Err(SyntaxFailure::End)
    } else if is_fixed(t[0], TokenKind::RightParen) {
        Ok((Seq::empty(), 1))
    } else {
        spec_args_from(t, Seq::empty())
    }
}

/// Arguments from one that must be there, after the arguments `acc`.
pub open spec fn spec_args_from(t: Seq<Lexeme>, acc: Seq<Ast>) -> ParsedArgs
    decreases t.len(), 18nat,
{
    match spec_expression(t) {
        Ok((e, c)) => {
            let rest = after(t, c);
            if rest.len() == 0 {
                Err(SyntaxFailure::ExpectedCommaOrRightParen(None))
            } else if is_fixed(rest[0], TokenKind::Comma) {
                match spec_args_from(after(t, c + 1), acc.push(e)) {
                    Ok((args, c2)) => Ok((args, c + 1 + c2)),
                    Err(f) => Err(f),
                }
            } else if is_fixed(rest[0], TokenKind::RightParen) {
                Ok((acc.push(e), c + 1))
            } else {
                Err(SyntaxFailure::ExpectedCommaOrRightParen(Some(rest[0])))
            }
        },
        Err(f) => Err(f),
    }
}

// ---------------------------------------------------------------------------
// Parser
// ---------------------------------------------------------------------------

pub open spec fn asts_of(v: Seq<Expression>) -> Seq<Ast> {
    Seq::new(v.len(), |i: int| ast_of(v[i]))
}

pub open spec fn shifted_args(r: ParsedArgs, n: nat) -> ParsedArgs {
    match r {
        Ok((a, c)) => Ok((a, c + n)),
        Err(f) => Err(f),
    }
}

/// `r` is what `res` describes, and `now` holds the tokens of `before` that it left.
pub open spec fn outcome(
    res: Parsed,
    r: Result<Expression, ParseError>,
    before: Seq<Lexeme>,
    now: Seq<Lexeme>,
) -> bool {
    match r {
        Ok(e) => {
            &&& res is Ok
            &&& res->Ok_0.0 == e@
            &&& now == after(before, res->Ok_0.1)
        },
        Err(x) => res == Err::<(Ast, nat), _>(x@),
    }
}

proof fn lemma_kinds_pop(ts: Seq<Token>)
    requires
        ts.len() > 0,
    ensures
        kinds(ts.subrange(1, ts.len() as int)) == after(kinds(ts), 1),
        kinds(ts)[0] == ts[0].kind@,
{
    assert(kinds(ts.subrange(1, ts.len() as int)) =~= after(kinds(ts), 1));
}

proof fn lemma_after_after(t: Seq<Lexeme>, a: nat, b: nat)
    ensures
        after(after(t, a), b) == after(t, a + b),
{
    assert(after(after(t, a), b) =~= after(t, a + b));
}

proof fn lemma_call_view(e: Expression, callee: Ast, args: Seq<Expression>)
    requires
        e matches Expression::FunctionCall(f, a) && ast_of(*f) == callee && a@ == args,
    ensures
        e@ == Ast::Call(Box::new(callee), asts_of(args)),
{
    if let Expression::FunctionCall(f, a) = e {
        if let Ast::Call(g, items) = ast_of(e) {
            assert(items.len() == args.len());
            assert forall|i: int| 0 <= i < items.len() implies items[i] == asts_of(args)[i] by {
                assert(a[i] == args[i]);
            }
            assert(items =~= asts_of(args));
        }
    }
}

fn is_kind_dot(k: &TokenKind) -> (r: bool)
    ensures
        r == is_fixed(k@, TokenKind::Dot),
{
    matches!(k, TokenKind::Dot)
}

fn is_kind_left_paren(k: &TokenKind) -> (r: bool)
    ensures
        r == is_fixed(k@, TokenKind::LeftParen),
{
    matches!(k, TokenKind::LeftParen)
}

fn is_kind_right_paren(k: &TokenKind) -> (r: bool)
    ensures
        r == is_fixed(k@, TokenKind::RightParen),
{
    matches!(k, TokenKind::RightParen)
}

fn is_kind_comma(k: &TokenKind) -> (r: bool)
    ensures
        r == is_fixed(k@, TokenKind::Comma),
{
    matches!(k, TokenKind::Comma)
}

fn is_kind_single_equal(k: &TokenKind) -> (r: bool)
    ensures
        r == is_fixed(k@, TokenKind::SingleEqual),
{
    matches!(k, TokenKind::SingleEqual)
}

fn parse_value_expr(tokens: &mut VecDeque<Token>) -> (r: Result<Expression, ParseError>)
    ensures
        outcome(spec_value(kinds(old(tokens)@)), r, kinds(old(tokens)@), kinds(final(tokens)@)),
    decreases old(tokens)@.len(), 1nat,
{
    let ghost t = kinds(tokens@);
    let token = match tokens.pop_front() {
        Some(token) => token,
        None => {
            return Err(ParseError::UnexpectedEndOfInput);
        },
    };
    proof {
        lemma_kinds_pop(old(tokens)@);
    }
    match token.kind {
        TokenKind::StrLiteral(v) => Ok(Expression::StringValue(v)),
        TokenKind::NumLiteral(v) => Ok(Expression::NumberValue(v.value)),
        TokenKind::Identifier(v) => Ok(Expression::Variable(v)),
        TokenKind::LeftParen => {
            let ghost t1 = kinds(tokens@);
            let expr = match parse_expression(tokens) {
                Ok(e) => e,
                Err(e) => {
                    return Err(e);
                },
            };
            let ghost c = spec_expression(t1)->Ok_0.1;
            proof {
                lemma_after_after(t, 1, c);
            }
            let ghost before_close = tokens@;
            match tokens.pop_front() {
                None => Err(ParseError::ExpectedRightParen(None)),
                Some(close) => {
                    proof {
                        lemma_kinds_pop(before_close);
                        lemma_after_after(t, 1 + c, 1);
                    }
                    if is_kind_right_paren(&close.kind) {
                        Ok(expr)
                    } else {
                        Err(ParseError::ExpectedRightParen(Some(close.kind)))
                    }
                },
            }
        },
        other => Err(ParseError::ExpectedPrimary(other)),
    }
}

fn parse_primary(tokens: &mut VecDeque<Token>) -> (r: Result<Expression, ParseError>)
    ensures
        outcome(spec_primary(kinds(old(tokens)@)), r, kinds(old(tokens)@), kinds(final(tokens)@)),
    decreases old(tokens)@.len(), 3nat,
{
    let ghost t0 = kinds(tokens@);
    let mut expr = match parse_value_expr(tokens) {
        Ok(e) => e,
        Err(e) => {
            return Err(e);
        },
    };
    let ghost mut consumed: nat = spec_value(t0)->Ok_0.1;
    loop
        invariant
            t0 == kinds(old(tokens)@),
            tokens@.len() <= old(tokens)@.len(),
            kinds(tokens@) == after(t0, consumed),
            spec_primary(t0) == shifted(spec_postfix(kinds(tokens@), expr@), consumed),
        decreases tokens@.len(),
    {
        if tokens.len() == 0 {
            return Ok(expr);
        }
        let ghost before = tokens@;
        proof {
            lemma_kinds_pop(before);
        }
        let is_dot = is_kind_dot(&tokens[0].kind);
        let is_call = is_kind_left_paren(&tokens[0].kind);
        if !is_dot && !is_call {
            return Ok(expr);
        }
        tokens.pop_front();
        proof {
            lemma_kinds_pop(before);
            lemma_after_after(t0, consumed, 1);
        }
        let ghost t1 = kinds(tokens@);
        if is_dot {
            let member = match parse_value_expr(tokens) {
                Ok(e) => e,
                Err(e) => {
                    return Err(e);
                },
            };
            proof {
                let c = spec_value(t1)->Ok_0.1;
                lemma_after_after(t0, consumed + 1, c);
                lemma_after_after(kinds(before), 1, c);
                consumed = consumed + 1 + c;
            }
            expr = Expression::MemberAccess(Box::new(expr), Box::new(member));
        } else {
            let args = match parse_call_args(tokens) {
                Ok(a) => a,
                Err(e) => {
                    return Err(e);
                },
            };
            proof {
                let c = spec_call_args(t1)->Ok_0.1;
                lemma_after_after(t0, consumed + 1, c);
                lemma_after_after(kinds(before), 1, c);
                consumed = consumed + 1 + c;
            }
            let ghost callee = expr@;
            let ghost av = args@;
            expr = Expression::FunctionCall(Box::new(expr), args);
            proof {
                lemma_call_view(expr, callee, av);
            }
        }
    }
}

/// The arguments of a call, after its `(`.
fn parse_call_args(tokens: &mut VecDeque<Token>) -> (r: Result<Vec<Expression>, ParseError>)
    ensures
        match r {
            Ok(args) => {
                &&& spec_call_args(kinds(old(tokens)@)) is Ok
                &&& spec_call_args(kinds(old(tokens)@))->Ok_0.0 == asts_of(args@)
                &&& kinds(final(tokens)@) == after(
                    kinds(old(tokens)@),
                    spec_call_args(kinds(old(tokens)@))->Ok_0.1,
                )
            },
            Err(x) => spec_call_args(kinds(old(tokens)@)) == Err::<(Seq<Ast>, nat), _>(x@),
        },
    decreases old(tokens)@.len(), 19nat,
{
    let ghost t0 = kinds(tokens@);
    if tokens.len() == 0 {
        return Err(ParseError::UnexpectedEndOfInput);
    }
    if is_kind_right_paren(&tokens[0].kind) {
        let ghost before = tokens@;
        tokens.pop_front();
        proof {
            lemma_kinds_pop(before);
        }
        let args: Vec<Expression> = Vec::new();
        assert(asts_of(args@) =~= Seq::<Ast>::empty());
        return Ok(args);
    }
    let mut args: Vec<Expression> = Vec::new();
    let ghost mut consumed: nat = 0;
    assert(asts_of(args@) =~= Seq::<Ast>::empty());
    assert(after(t0, 0) =~= t0);
    loop
        invariant
            t0 == kinds(old(tokens)@),
            tokens@.len() <= old(tokens)@.len(),
            kinds(tokens@) == after(t0, consumed),
            spec_call_args(t0) == shifted_args(
                spec_args_from(kinds(tokens@), asts_of(args@)),
                consumed,
            ),
        decreases tokens@.len(),
    {
        let ghost t1 = kinds(tokens@);
        let e = match parse_expression(tokens) {
            Ok(e) => e,
            Err(e) => {
                return Err(e);
            },
        };
        let ghost c = spec_expression(t1)->Ok_0.1;
        proof {
            lemma_after_after(t0, consumed, c);
        }
        if tokens.len() == 0 {
            return Err(ParseError::ExpectedCommaOrRightParen(None));
        }
        let ghost before = tokens@;
        let ghost old_args = asts_of(args@);
        let sep = match tokens.pop_front() {
            Some(tok) => tok,
            None => {
                return Err(ParseError::UnexpectedEndOfInput);
            },
        };
        proof {
            lemma_kinds_pop(before);
            lemma_after_after(t0, consumed + c, 1);
            lemma_after_after(t1, c, 1);
        }
        let ghost e_view = e@;
        if is_kind_comma(&sep.kind) {
            args.push(e);
            assert(asts_of(args@) =~= old_args.push(e_view));
            proof {
                consumed = consumed + c + 1;
            }
        } else if is_kind_right_paren(&sep.kind) {
            args.push(e);
            assert(asts_of(args@) =~= old_args.push(e_view));
            return Ok(args);
        } else {
            return Err(ParseError::ExpectedCommaOrRightParen(Some(sep.kind)));
        }
    }
}

fn unary_op_exec(k: &TokenKind) -> (r: Option<UnaryOp>)
    ensures
        r == unary_op_of(k@),
{
    match k {
        TokenKind::Exclamation => Some(UnaryOp::Not),
        TokenKind::TypeofKeyword => Some(UnaryOp::Typeof),
        TokenKind::Minus => Some(UnaryOp::Negate),
        _ => None,
    }
}

fn make_unary(op: UnaryOp, e: Expression) -> (r: Expression)
    ensures
        r@ == Ast::Unary(op, Box::new(e@)),
{
    match op {
        UnaryOp::Not => Expression::LogicalNot(Box::new(e)),
        UnaryOp::Negate => Expression::UnaryNegation(Box::new(e)),
        UnaryOp::Typeof => Expression::Typeof(Box::new(e)),
    }
}

fn make_binary(op: BinaryOp, l: Expression, r: Expression) -> (e: Expression)
    ensures
        e@ == bin(op, l@, r@),
{
    let (l, r) = (Box::new(l), Box::new(r));
    match op {
        BinaryOp::Member => Expression::MemberAccess(l, r),
        BinaryOp::Mul => Expression::Multiplication(l, r),
        BinaryOp::Div => Expression::Division(l, r),
        BinaryOp::Rem => Expression::Remainder(l, r),
        BinaryOp::Add => Expression::Addition(l, r),
        BinaryOp::Sub => Expression::Subtraction(l, r),
        BinaryOp::Lt => Expression::LessThan(l, r),
        BinaryOp::Le => Expression::LessThanEq(l, r),
        BinaryOp::Gt => Expression::GreaterThan(l, r),
        BinaryOp::Ge => Expression::GreaterThanEq(l, r),
        BinaryOp::Eq => Expression::Equality(l, r),
        BinaryOp::Ne => Expression::Inequality(l, r),
        BinaryOp::And => Expression::LogicalAnd(l, r),
        BinaryOp::Or => Expression::LogicalOr(l, r),
        BinaryOp::Assign => Expression::Assignment(l, r),
    }
}

fn parse_unary(tokens: &mut VecDeque<Token>) -> (r: Result<Expression, ParseError>)
    ensures
        outcome(spec_unary(kinds(old(tokens)@)), r, kinds(old(tokens)@), kinds(final(tokens)@)),
    decreases old(tokens)@.len(), 4nat,
{
    if tokens.len() > 0 {
        if let Some(op) = unary_op_exec(&tokens[0].kind) {
            let ghost before = tokens@;
            tokens.pop_front();
            proof {
                lemma_kinds_pop(before);
            }
            let ghost t1 = kinds(tokens@);
            let inner = match parse_unary(tokens) {
                Ok(e) => e,
                Err(e) => {
                    return Err(e);
                },
            };
            proof {
                lemma_after_after(kinds(before), 1, spec_unary(t1)->Ok_0.1);
            }
            return Ok(make_unary(op, inner));
        }
    }
    parse_primary(tokens)
}

fn tier_op_exec(k: u8, kind: &TokenKind) -> (r: Option<BinaryOp>)
    ensures
        r == tier_op(k as nat, kind@),
{
    match kind {
        TokenKind::DoublePipe => if k == 0 { Some(BinaryOp::Or) } else { None },
        TokenKind::DoubleAnd => if k == 1 { Some(BinaryOp::And) } else { None },
        TokenKind::DoubleEqual => if k == 2 { Some(BinaryOp::Eq) } else { None },
        TokenKind::ExclEqual => if k == 2 { Some(BinaryOp::Ne) } else { None },
        TokenKind::LessThan => if k == 3 { Some(BinaryOp::Lt) } else { None },
        TokenKind::LessThanEq => if k == 3 { Some(BinaryOp::Le) } else { None },
        TokenKind::GreaterThan => if k == 3 { Some(BinaryOp::Gt) } else { None },
        TokenKind::GreaterThanEq => if k == 3 { Some(BinaryOp::Ge) } else { None },
        TokenKind::Plus => if k == 4 { Some(BinaryOp::Add) } else { None },
        TokenKind::Minus => if k == 4 { Some(BinaryOp::Sub) } else { None },
        TokenKind::Asterisk => if k >= 5 { Some(BinaryOp::Mul) } else { None },
        TokenKind::Slash => if k >= 5 { Some(BinaryOp::Div) } else { None },
        TokenKind::Percent => if k >= 5 { Some(BinaryOp::Rem) } else { None },
        _ => None,
    }
}

fn parse_operand(tokens: &mut VecDeque<Token>, k: u8) -> (r: Result<Expression, ParseError>)
    requires
        k <= 5,
    ensures
        outcome(spec_operand(kinds(old(tokens)@), k as nat), r, kinds(old(tokens)@), kinds(final(tokens)@)),
    decreases old(tokens)@.len(), tier_rank(k as nat) - 1,
{
    if k >= 5 {
        parse_unary(tokens)
    } else {
        parse_tier(tokens, k + 1)
    }
}

/// A left-associative chain of tier `k` (see `tier_op`).
fn parse_tier(tokens: &mut VecDeque<Token>, k: u8) -> (r: Result<Expression, ParseError>)
    requires
        k <= 5,
    ensures
        outcome(spec_tier(kinds(old(tokens)@), k as nat), r, kinds(old(tokens)@), kinds(final(tokens)@)),
    decreases old(tokens)@.len(), tier_rank(k as nat),
{
    let ghost t0 = kinds(tokens@);
    let mut left = match parse_operand(tokens, k) {
        Ok(e) => e,
        Err(e) => {
            return Err(e);
        },
    };
    let ghost mut consumed: nat = spec_operand(t0, k as nat)->Ok_0.1;
    loop
        invariant
            k <= 5,
            t0 == kinds(old(tokens)@),
            tokens@.len() <= old(tokens)@.len(),
            kinds(tokens@) == after(t0, consumed),
            spec_tier(t0, k as nat) == shifted(spec_tier_rest(kinds(tokens@), k as nat, left@), consumed),
        decreases tokens@.len(),
    {
        if tokens.len() == 0 {
            return Ok(left);
        }
        proof {
            lemma_kinds_pop(tokens@);
        }
        let op = match tier_op_exec(k, &tokens[0].kind) {
            Some(op) => op,
            None => {
                return Ok(left);
            },
        };
        let ghost before = tokens@;
        tokens.pop_front();
        proof {
            lemma_kinds_pop(before);
            lemma_after_after(t0, consumed, 1);
        }
        let ghost t1 = kinds(tokens@);
        let right = match parse_operand(tokens, k) {
            Ok(e) => e,
            Err(e) => {
                return Err(e);
            },
        };
        proof {
            let c = spec_operand(t1, k as nat)->Ok_0.1;
            lemma_after_after(t0, consumed + 1, c);
            lemma_after_after(kinds(before), 1, c);
            consumed = consumed + 1 + c;
        }
        left = make_binary(op, left, right);
    }
}

fn parse_assignment(tokens: &mut VecDeque<Token>) -> (r: Result<Expression, ParseError>)
    ensures
        outcome(spec_expression(kinds(old(tokens)@)), r, kinds(old(tokens)@), kinds(final(tokens)@)),
    decreases old(tokens)@.len(), 17nat,
{
    let ghost t0 = kinds(tokens@);
    let left = match parse_tier(tokens, 0) {
        Ok(e) => e,
        Err(e) => {
            return Err(e);
        },
    };
    let ghost c = spec_tier(t0, 0)->Ok_0.1;
    if tokens.len() > 0 && is_kind_single_equal(&tokens[0].kind) {
        let ghost before = tokens@;
        tokens.pop_front();
        proof {
            lemma_kinds_pop(before);
            lemma_after_after(t0, c, 1);
        }
        let ghost t1 = kinds(tokens@);
        let right = match parse_assignment(tokens) {
            Ok(e) => e,
            Err(e) => {
                return Err(e);
            },
        };
        proof {
            lemma_after_after(t0, c + 1, spec_expression(t1)->Ok_0.1);
        }
        return Ok(make_binary(BinaryOp::Assign, left, right));
    }
    Ok(left)
}

/// Parses one expression from the front of `tokens` and removes the tokens it took:
/// the tree and the tokens left are exactly what `spec_expression` gives, and so is
/// the error where it fails.
pub fn parse_expression(tokens: &mut VecDeque<Token>) -> (r: Result<Expression, ParseError>)
    ensures
        outcome(spec_expression(kinds(old(tokens)@)), r, kinds(old(tokens)@), kinds(final(tokens)@)),
    decreases old(tokens)@.len(), 18nat,
{
    parse_assignment(tokens)
}

} // verus!
