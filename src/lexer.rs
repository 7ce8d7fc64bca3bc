use std::collections::VecDeque;
use vstd::prelude::*;

verus! {

// ---------------------------------------------------------------------------
// Data
// ---------------------------------------------------------------------------

/// The value of a number literal, kept as the digit strings that denote it.
///
/// `radix` is 2, 8, 10 or 16. `digits` are the digits of the integer part (without a
/// radix prefix; possibly empty for a bare prefix such as `0x`), `fraction` the digits
/// after the `.` and `exponent` the digits after the `e`; both are empty where the
/// literal has no such part. The value is `(digits ++ fraction) * 10^exponent /
/// 10^|fraction|` read in `radix`; radix literals never have a fraction or exponent.
#[derive(Debug, Clone, PartialEq)]
pub struct NumValue {
    pub radix: u32,
    pub digits: String,
    pub fraction: String,
    pub exponent: String,
}

/// A number literal: its value and the number of source characters it took.
#[derive(Debug, Clone, PartialEq)]
pub struct NumLiteralData {
    pub value: NumValue,
    pub str_len: usize,
}

#[derive(Debug, Clone, PartialEq)]
pub enum TokenKind {
    Identifier(String),
    // Literals
    StrLiteral(String),
    NumLiteral(NumLiteralData),
    // Keywords
    TypeofKeyword,
    // Operators and symbols
    SingleEqual,
    SemiColon,
    Dot,
    Comma,
    DoubleEqual,
    ExclEqual,
    LessThan,
    LessThanEq,
    GreaterThan,
    GreaterThanEq,
    Plus,
    Minus,
    Asterisk,
    Slash,
    Percent,
    LeftParen,
    RightParen,
    LeftCurly,
    RightCurly,
    LeftBracket,
    RightBracket,
    Exclamation,
    DoubleAnd,
    DoublePipe,
}

/// A token and the 1-based line and column of its first character.
#[derive(Debug, Clone, PartialEq)]
pub struct Token {
    pub kind: TokenKind,
    pub line: usize,
    pub column: usize,
}

/// The tokenizer's state: the tokens emitted so far and the cursor.
#[derive(Debug)]
pub struct ParseState {
    pub tokens: VecDeque<Token>,
    pub line: usize,
    pub column: usize,
}

#[derive(Debug, Clone, Copy, PartialEq, Eq)]
pub enum LexerErrorKind {
    InvalidFloatLiteral,
    InvalidStringEscapeSequence,
    UnterminatedStringLiteral,
    InvalidCharacter(char),
}

/// A lexical error, with the state at the start of the offending token.
#[derive(Debug)]
pub struct LexerError {
    pub state: ParseState,
    pub kind: LexerErrorKind,
}

// ---------------------------------------------------------------------------
// Mathematical model
// ---------------------------------------------------------------------------

pub struct NumView {
    pub radix: nat,
    pub digits: Seq<char>,
    pub fraction: Seq<char>,
    pub exponent: Seq<char>,
}

/// What a token kind is, with its text as a sequence of characters.
/// `Num` holds the value and the source length; `Fixed` holds a kind without payload.
pub enum Lexeme {
    Ident(Seq<char>),
    Str(Seq<char>),
    Num(NumView, nat),
    Fixed(TokenKind),
}

pub struct TokenView {
    pub kind: Lexeme,
    pub line: nat,
    pub column: nat,
}

pub struct LexFailure {
    pub kind: LexerErrorKind,
    pub tokens: Seq<TokenView>,
    pub line: nat,
    pub column: nat,
}

impl View for NumValue {
    type V = NumView;

    open spec fn view(&self) -> NumView {
        NumView {
            radix: self.radix as nat,
            digits: self.digits@,
            fraction: self.fraction@,
            exponent: self.exponent@,
        }
    }
}

impl View for TokenKind {
    type V = Lexeme;

    open spec fn view(&self) -> Lexeme {
        match self {
            TokenKind::Identifier(s) => Lexeme::Ident(s@),
            TokenKind::StrLiteral(s) => Lexeme::Str(s@),
            TokenKind::NumLiteral(n) => Lexeme::Num(n.value@, n.str_len as nat),
            _ => Lexeme::Fixed(*self),
        }
    }
}

impl View for Token {
    type V = TokenView;

    open spec fn view(&self) -> TokenView {
        TokenView { kind: self.kind@, line: self.line as nat, column: self.column as nat }
    }
}

pub open spec fn tokens_view(ts: Seq<Token>) -> Seq<TokenView> {
    ts.map_values(|t: Token| t@)
}

impl View for LexerError {
    type V = LexFailure;

    open spec fn view(&self) -> LexFailure {
        LexFailure {
            kind: self.kind,
            tokens: tokens_view(self.state.tokens@),
            line: self.state.line as nat,
            column: self.state.column as nat,
        }
    }
}

/// The number of source characters that a token of this kind stands for.
pub open spec fn lexeme_len(k: Lexeme) -> nat {
    match k {
        Lexeme::Ident(s) => s.len(),
        Lexeme::Str(s) => s.len(),
        Lexeme::Num(_, n) => n,
        Lexeme::Fixed(k) => match k {
            TokenKind::TypeofKeyword => 6,
            TokenKind::DoubleEqual | TokenKind::ExclEqual | TokenKind::LessThanEq
            | TokenKind::GreaterThanEq | TokenKind::DoubleAnd | TokenKind::DoublePipe => 2,
            _ => 1,
        },
    }
}

// ---------------------------------------------------------------------------
// Character classes and runs
// ---------------------------------------------------------------------------

pub open spec fn is_digit(c: char) -> bool {
    '0' <= c && c <= '9'
}

/// The value of a digit character in any radix up to 16 (0 for other characters).
pub open spec fn digit_val(c: char) -> nat {
    if '0' <= c && c <= '9' {
        (c as int - '0' as int) as nat
    } else if 'a' <= c && c <= 'f' {
        (c as int - 'a' as int + 10) as nat
    } else if 'A' <= c && c <= 'F' {
        (c as int - 'A' as int + 10) as nat
    } else {
        0
    }
}

/// A digit of the given radix (at most 16), letters in either case.
pub open spec fn is_radix_digit(c: char, radix: nat) -> bool {
    &&& (is_digit(c) || ('a' <= c && c <= 'f') || ('A' <= c && c <= 'F'))
    &&& digit_val(c) < radix
}

pub open spec fn is_ident_start(c: char) -> bool {
    ('a' <= c && c <= 'z') || ('A' <= c && c <= 'Z') || c == '_'
}

pub open spec fn is_ident_char(c: char) -> bool {
    is_ident_start(c) || is_digit(c)
}

/// The length of the maximal run of `radix` digits that starts at `j`.
pub open spec fn run_len(s: Seq<char>, j: int, radix: nat) -> nat
    decreases s.len() - j,
{
    if 0 <= j < s.len() && is_radix_digit(s[j], radix) {
        1 + run_len(s, j + 1, radix)
    } else {
        0
    }
}

/// The length of the maximal run of identifier characters that starts at `j`.
pub open spec fn ident_run_len(s: Seq<char>, j: int) -> nat
    decreases s.len() - j,
{
    if 0 <= j < s.len() && is_ident_char(s[j]) {
        1 + ident_run_len(s, j + 1)
    } else {
        0
    }
}

pub proof fn lemma_run_len_bound(s: Seq<char>, j: int, radix: nat)
    requires
        0 <= j <= s.len(),
    ensures
        j + run_len(s, j, radix) <= s.len(),
        forall|k: int| j <= k < j + run_len(s, j, radix) ==> is_radix_digit(#[trigger] s[k], radix),
    decreases s.len() - j,
{
    if j < s.len() && is_radix_digit(s[j], radix) {
        lemma_run_len_bound(s, j + 1, radix);
    }
}

pub proof fn lemma_ident_run_len_bound(s: Seq<char>, j: int)
    requires
        0 <= j <= s.len(),
    ensures
        j + ident_run_len(s, j) <= s.len(),
    decreases s.len() - j,
{
    if j < s.len() && is_ident_char(s[j]) {
        lemma_ident_run_len_bound(s, j + 1);
    }
}

fn is_radix_digit_exec(c: char, radix: u32) -> (r: bool)
    ensures
        r == is_radix_digit(c, radix as nat),
{
    let v: u32 = if '0' <= c && c <= '9' {
        (c as u32) - ('0' as u32)
    } else if 'a' <= c && c <= 'f' {
        (c as u32) - ('a' as u32) + 10
    } else if 'A' <= c && c <= 'F' {
        (c as u32) - ('A' as u32) + 10
    } else {
        return false;
    };
    v < radix
}

/// Appends to `out` the maximal run of decimal digits of `chars` that starts at
/// `start`, and returns the position just after it.
pub fn read_numchars(chars: &Vec<char>, start: usize, out: &mut Vec<char>) -> (end: usize)
    requires
        start <= chars@.len(),
    ensures
        end == start + run_len(chars@, start as int, 10),
        end <= chars@.len(),
        final(out)@ == old(out)@ + chars@.subrange(start as int, end as int),
{
    read_digits(chars, start, 10, out)
}

/// Appends to `out` the maximal run of `radix` digits that starts at `start`, and
/// returns the position just after it.
fn read_digits(chars: &Vec<char>, start: usize, radix: u32, out: &mut Vec<char>) -> (end: usize)
    requires
        start <= chars@.len(),
        radix <= 16,
    ensures
        end == start + run_len(chars@, start as int, radix as nat),
        end <= chars@.len(),
        final(out)@ == old(out)@ + chars@.subrange(start as int, end as int),
{
    let ghost s = chars@;
    let ghost out0 = out@;
    let mut i: usize = start;
    while i < chars.len() && is_radix_digit_exec(chars[i], radix)
        invariant
            s == chars@,
            radix <= 16,
            start <= i <= s.len(),
            run_len(s, start as int, radix as nat) == (i - start) + run_len(s, i as int, radix as nat),
            out@ == out0 + s.subrange(start as int, i as int),
        decreases s.len() - i,
    {
        out.push(chars[i]);
        i = i + 1;
        assert(out@ =~= out0 + s.subrange(start as int, i as int));
    }
    i
}


// ---------------------------------------------------------------------------
// Numbers
// ---------------------------------------------------------------------------

/// The length of an optional `<marker><digits>` part at `k`: 0 unless `marker` is
/// followed by at least one decimal digit.
pub open spec fn marked_len(s: Seq<char>, k: int, marker: char) -> nat {
    if 0 <= k && k + 1 < s.len() && s[k] == marker && is_digit(s[k + 1]) {
        1 + run_len(s, k + 1, 10)
    } else {
        0
    }
}

/// The digits of a marked part of length `n` at `k` (the marker left out).
pub open spec fn marked_digits(s: Seq<char>, k: int, n: nat) -> Seq<char> {
    if n == 0 {
        Seq::empty()
    } else {
        s.subrange(k + 1, k + n)
    }
}

pub open spec fn radix_of_prefix(c: char) -> nat {
    if c == 'x' {
        16
    } else if c == 'o' {
        8
    } else {
        2
    }
}

/// The number literal at `i`, where `s[i]` is a decimal digit, and its length.
///
/// After a nonzero digit: a run of digits, an optional fraction (`.` and at least one
/// digit), an optional exponent (`e` and at least one digit). After `0`: a radix prefix
/// `x`, `o` or `b` and a run of digits of that radix (possibly none), or a fraction and
/// then an optional exponent, or nothing more.
pub open spec fn scan_number(s: Seq<char>, i: int) -> (NumView, nat) {
    if s[i] == '0' {
        if i + 1 < s.len() && (s[i + 1] == 'x' || s[i + 1] == 'o' || s[i + 1] == 'b') {
            let radix = radix_of_prefix(s[i + 1]);
            let n = run_len(s, i + 2, radix);
            (
                NumView {
                    radix,
                    digits: s.subrange(i + 2, i + 2 + n),
                    fraction: Seq::empty(),
                    exponent: Seq::empty(),
                },
                2 + n,
            )
        } else {
            let f = marked_len(s, i + 1, '.');
            let e = if f > 0 { marked_len(s, i + 1 + f, 'e') } else { 0 };
            (
                NumView {
                    radix: 10,
                    digits: seq!['0'],
                    fraction: marked_digits(s, i + 1, f),
                    exponent: marked_digits(s, i + 1 + f, e),
                },
                1 + f + e,
            )
        }
    } else {
        let d = 1 + run_len(s, i + 1, 10);
        let f = marked_len(s, i + d, '.');
        let e = marked_len(s, i + d + f, 'e');
        (
            NumView {
                radix: 10,
                digits: s.subrange(i, i + d),
                fraction: marked_digits(s, i + d, f),
                exponent: marked_digits(s, i + d + f, e),
            },
            d + f + e,
        )
    }
}

/// The value of a digit string read in `radix`, most significant digit first.
pub open spec fn digits_value(s: Seq<char>, radix: nat) -> nat
    decreases s.len(),
{
    if s.len() == 0 {
        0
    } else {
        digits_value(s.drop_last(), radix) * radix + digit_val(s.last())
    }
}

pub open spec fn all_radix_digits(s: Seq<char>, radix: nat) -> bool {
    forall|k: int| 0 <= k < s.len() ==> is_radix_digit(#[trigger] s[k], radix)
}

impl NumView {
    /// The literal denotes a whole number that fits in a `u64`.
    pub open spec fn fits_u64(self) -> bool {
        &&& self.fraction.len() == 0
        &&& self.exponent.len() == 0
        &&& all_radix_digits(self.digits, self.radix)
        &&& digits_value(self.digits, self.radix) <= u64::MAX
    }
}

proof fn lemma_digits_value_grows(s: Seq<char>, radix: nat, i: int, j: int)
    requires
        radix >= 1,
        0 <= i <= j <= s.len(),
    ensures
        digits_value(s.subrange(0, i), radix) <= digits_value(s.subrange(0, j), radix),
    decreases j - i,
{
    if i < j {
        lemma_digits_value_grows(s, radix, i, j - 1);
        assert(s.subrange(0, j).drop_last() =~= s.subrange(0, j - 1));
        let a = digits_value(s.subrange(0, j - 1), radix);
        assert(a * radix >= a) by (nonlinear_arith)
            requires radix >= 1, a >= 0;
    }
}

/// Relies on `str::chars` and `collect`: the characters of `s`, in order.
#[verifier::external_body]
pub(crate) fn chars_of(s: &str) -> (r: Vec<char>)
    ensures
        r@ == s@,
{
    s.chars().collect()
}

/// Relies on `collect` into a `String`: the string made of the characters of `v`.
#[verifier::external_body]
pub(crate) fn string_of(v: &Vec<char>) -> (r: String)
    ensures
        r@ == v@,
{
    v.iter().collect()
}

impl NumValue {
    /// The value of a literal that denotes a whole number fitting in a `u64`; `None`
    /// for one with a fraction, an exponent, a digit outside its radix, or a larger value.
    pub fn integer_value(&self) -> (r: Option<u64>)
        ensures
            r == (if self@.fits_u64() {
                Some(digits_value(self@.digits, self@.radix) as u64)
            } else {
                None
            }),
    {
        let frac = chars_of(self.fraction.as_str());
        let exp = chars_of(self.exponent.as_str());
        let ds = chars_of(self.digits.as_str());
        if frac.len() != 0 || exp.len() != 0 {
            return None;
        }
        let ghost s = ds@;
        let ghost radix = self.radix as nat;
        let mut acc: u64 = 0;
        let mut i: usize = 0;
        while i < ds.len()
            invariant
                s == ds@,
                s == self.digits@,
                radix == self.radix,
                self.fraction@.len() == 0,
                self.exponent@.len() == 0,
                0 <= i <= s.len(),
                all_radix_digits(s.subrange(0, i as int), radix),
                acc == digits_value(s.subrange(0, i as int), radix),
            decreases s.len() - i,
        {
            let c = ds[i];
            assert(s.subrange(0, i + 1).drop_last() =~= s.subrange(0, i as int));
            if !is_radix_digit_exec(c, self.radix) {
                assert(!all_radix_digits(s, radix)) by {
                    assert(!is_radix_digit(s[i as int], radix));
                }
                return None;
            }
            let d: u64 = digit_value(c);
            let next = match acc.checked_mul(self.radix as u64) {
                Some(m) => m.checked_add(d),
                None => None,
            };
            match next {
                Some(v) => {
                    acc = v;
                    i = i + 1;
                    assert(all_radix_digits(s.subrange(0, i as int), radix)) by {
                        assert forall|k: int| 0 <= k < i implies is_radix_digit(
                            #[trigger] s.subrange(0, i as int)[k],
                            radix,
                        ) by {
                            if k < i - 1 {
                                assert(s.subrange(0, i as int)[k] == s.subrange(0, i - 1)[k]);
                            }
                        }
                    }
                },
                None => {
                    proof {
                        assert(digits_value(s.subrange(0, i + 1), radix) > u64::MAX);
                        lemma_digits_value_grows(s, radix, (i + 1) as int, s.len() as int);
                        assert(s.subrange(0, s.len() as int) =~= s);
                    }
                    return None;
                },
            }
        }
        assert(s.subrange(0, s.len() as int) =~= s);
        Some(acc)
    }
}

fn digit_value(c: char) -> (r: u64)
    ensures
        r == digit_val(c),
{
    if '0' <= c && c <= '9' {
        (c as u64) - ('0' as u64)
    } else if 'a' <= c && c <= 'f' {
        (c as u64) - ('a' as u64) + 10
    } else if 'A' <= c && c <= 'F' {
        (c as u64) - ('A' as u64) + 10
    } else {
        0
    }
}

/// Reads an optional `<marker><digits>` part at `k` into `out` (the marker left out)
/// and returns its length.
fn read_marked(chars: &Vec<char>, k: usize, marker: char, out: &mut Vec<char>) -> (n: usize)
    requires
        chars@.len() < usize::MAX,
        k <= chars@.len(),
    ensures
        n == marked_len(chars@, k as int, marker),
        k + n <= chars@.len(),
        final(out)@ == old(out)@ + marked_digits(chars@, k as int, n as nat),
{
    if k + 1 < chars.len() && chars[k] == marker && '0' <= chars[k + 1] && chars[k + 1] <= '9' {
        let end = read_numchars(chars, k + 1, out);
        end - k
    } else {
        assert(out@ =~= old(out)@ + Seq::<char>::empty());
        0
    }
}

fn new_num_literal(
    radix: u32,
    digits: &Vec<char>,
    fraction: &Vec<char>,
    exponent: &Vec<char>,
    str_len: usize,
) -> (r: NumLiteralData)
    ensures
        r.value@ == (NumView {
            radix: radix as nat,
            digits: digits@,
            fraction: fraction@,
            exponent: exponent@,
        }),
        r.str_len == str_len,
{
    NumLiteralData {
        value: NumValue {
            radix,
            digits: string_of(digits),
            fraction: string_of(fraction),
            exponent: string_of(exponent),
        },
        str_len,
    }
}

/// The radix literal at `i`: `0`, a prefix `x`, `o` or `b`, and a run of digits of
/// that radix.
fn parse_int_with_prefix(chars: &Vec<char>, i: usize, radix: u32) -> (r: NumLiteralData)
    requires
        chars@.len() < usize::MAX,
        i + 1 < chars@.len(),
        chars@[i as int] == '0',
        chars@[i + 1] == 'x' || chars@[i + 1] == 'o' || chars@[i + 1] == 'b',
        radix == radix_of_prefix(chars@[i + 1]),
    ensures
        (r.value@, r.str_len as nat) == scan_number(chars@, i as int),
{
    let mut digits: Vec<char> = Vec::new();
    let end = read_digits(chars, i + 2, radix, &mut digits);
    assert(digits@ =~= chars@.subrange(i + 2, end as int));
    new_num_literal(radix, &digits, &Vec::new(), &Vec::new(), end - i)
}

/// The number literal at `i`, where `chars[i]` is `0`.
fn parse_number_starting_with_0(chars: &Vec<char>, i: usize) -> (r: NumLiteralData)
    requires
        chars@.len() < usize::MAX,
        i < chars@.len(),
        chars@[i as int] == '0',
    ensures
        (r.value@, r.str_len as nat) == scan_number(chars@, i as int),
{
    if i + 1 < chars.len() {
        let c = chars[i + 1];
        if c == 'x' {
            return parse_int_with_prefix(chars, i, 16);
        } else if c == 'o' {
            return parse_int_with_prefix(chars, i, 8);
        } else if c == 'b' {
            return parse_int_with_prefix(chars, i, 2);
        }
    }
    let mut fraction: Vec<char> = Vec::new();
    let f = read_marked(chars, i + 1, '.', &mut fraction);
    let mut exponent: Vec<char> = Vec::new();
    let e = if f > 0 {
        read_marked(chars, i + 1 + f, 'e', &mut exponent)
    } else {
        0
    };
    assert(fraction@ =~= marked_digits(chars@, i + 1, f as nat));
    assert(exponent@ =~= marked_digits(chars@, i + 1 + f, e as nat));
    let zero = vec!['0'];
    assert(zero@ =~= seq!['0']);
    new_num_literal(10, &zero, &fraction, &exponent, 1 + f + e)
}

/// The number literal at `i`, where `chars[i]` is a decimal digit.
fn parse_number(chars: &Vec<char>, i: usize) -> (r: NumLiteralData)
    requires
        chars@.len() < usize::MAX,
        i < chars@.len(),
        is_digit(chars@[i as int]),
    ensures
        (r.value@, r.str_len as nat) == scan_number(chars@, i as int),
        i + r.str_len <= chars@.len(),
{
    if chars[i] == '0' {
        let r = parse_number_starting_with_0(chars, i);
        proof {
            lemma_scan_number_bounds(chars@, i as int);
        }
        return r;
    }
    let mut digits: Vec<char> = vec![chars[i]];
    let d_end = read_numchars(chars, i + 1, &mut digits);
    assert(digits@ =~= chars@.subrange(i as int, d_end as int));
    let mut fraction: Vec<char> = Vec::new();
    let f = read_marked(chars, d_end, '.', &mut fraction);
    let mut exponent: Vec<char> = Vec::new();
    let e = read_marked(chars, d_end + f, 'e', &mut exponent);
    assert(fraction@ =~= marked_digits(chars@, d_end as int, f as nat));
    assert(exponent@ =~= marked_digits(chars@, (d_end + f) as int, e as nat));
    proof {
        lemma_scan_number_bounds(chars@, i as int);
    }
    new_num_literal(10, &digits, &fraction, &exponent, d_end - i + f + e)
}

// ---------------------------------------------------------------------------
// Strings, identifiers, symbols
// ---------------------------------------------------------------------------

pub open spec fn is_escape(c: char) -> bool {
    c == 'n' || c == 't' || c == 'r' || c == '\\' || c == '"'
}

pub open spec fn shift(r: Result<nat, LexerErrorKind>, n: nat) -> Result<nat, LexerErrorKind> {
    match r {
        Ok(m) => Ok(m + n),
        Err(e) => Err(e),
    }
}

/// The rest of a string literal whose body starts at `j`: the number of characters up
/// to and including the closing quote, or the error that stops it. A backslash must be
/// followed by one of `n t r \ "`; a newline or the end of input before the closing
/// quote leaves the literal unterminated.
pub open spec fn string_rest(s: Seq<char>, j: int) -> Result<nat, LexerErrorKind>
    decreases s.len() - j,
{
    if j < 0 || j >= s.len() {
        Err(LexerErrorKind::UnterminatedStringLiteral)
    } else if s[j] == '"' {
        Ok(1)
    } else if s[j] == '\n' {
        Err(LexerErrorKind::UnterminatedStringLiteral)
    } else if s[j] == '\\' {
        if j + 1 < s.len() && is_escape(s[j + 1]) {
            shift(string_rest(s, j + 2), 2)
        } else {
            Err(LexerErrorKind::InvalidStringEscapeSequence)
        }
    } else {
        shift(string_rest(s, j + 1), 1)
    }
}

pub proof fn lemma_string_rest_bound(s: Seq<char>, j: int)
    requires
        0 <= j,
    ensures
        string_rest(s, j) is Ok ==> j + string_rest(s, j)->Ok_0 <= s.len(),
    decreases s.len() - j,
{
    if 0 <= j < s.len() && s[j] != '"' && s[j] != '\n' {
        if s[j] == '\\' {
            if j + 1 < s.len() && is_escape(s[j + 1]) {
                lemma_string_rest_bound(s, j + 2);
            }
        } else {
            lemma_string_rest_bound(s, j + 1);
        }
    }
}

pub open spec fn typeof_text() -> Seq<char> {
    seq!['t', 'y', 'p', 'e', 'o', 'f']
}

/// The kind of a one-character token.
pub open spec fn single_char_kind(c: char) -> Option<TokenKind> {
    if c == '+' {
        Some(TokenKind::Plus)
    } else if c == '-' {
        Some(TokenKind::Minus)
    } else if c == '*' {
        Some(TokenKind::Asterisk)
    } else if c == '/' {
        Some(TokenKind::Slash)
    } else if c == '%' {
        Some(TokenKind::Percent)
    } else if c == ';' {
        Some(TokenKind::SemiColon)
    } else if c == '.' {
        Some(TokenKind::Dot)
    } else if c == ',' {
        Some(TokenKind::Comma)
    } else if c == '(' {
        Some(TokenKind::LeftParen)
    } else if c == ')' {
        Some(TokenKind::RightParen)
    } else if c == '{' {
        Some(TokenKind::LeftCurly)
    } else if c == '}' {
        Some(TokenKind::RightCurly)
    } else if c == '[' {
        Some(TokenKind::LeftBracket)
    } else if c == ']' {
        Some(TokenKind::RightBracket)
    } else {
        None
    }
}

/// The kind of a token that starts with `=`, `!`, `<` or `>`, with or without a
/// following `=`.
pub open spec fn comparison_kind(c: char, with_eq: bool) -> TokenKind {
    if c == '=' {
        if with_eq { TokenKind::DoubleEqual } else { TokenKind::SingleEqual }
    } else if c == '!' {
        if with_eq { TokenKind::ExclEqual } else { TokenKind::Exclamation }
    } else if c == '<' {
        if with_eq { TokenKind::LessThanEq } else { TokenKind::LessThan }
    } else {
        if with_eq { TokenKind::GreaterThanEq } else { TokenKind::GreaterThan }
    }
}

pub open spec fn is_comparison_start(c: char) -> bool {
    c == '=' || c == '!' || c == '<' || c == '>'
}

/// The token that starts at `i` (a character that is not white space) and the number
/// of characters it takes, or the error that stops the tokenizer there.
pub open spec fn scan_token(s: Seq<char>, i: int) -> Result<(Lexeme, nat), LexerErrorKind> {
    let c = s[i];
    if is_digit(c) {
        let (v, n) = scan_number(s, i);
        Ok((Lexeme::Num(v, n), n))
    } else if c == '"' {
        match string_rest(s, i + 1) {
            Ok(n) => Ok((Lexeme::Str(s.subrange(i, i + 1 + n)), 1 + n)),
            Err(e) => Err(e),
        }
    } else if is_ident_start(c) {
        let n = 1 + ident_run_len(s, i + 1);
        let w = s.subrange(i, i + n);
        if w == typeof_text() {
            Ok((Lexeme::Fixed(TokenKind::TypeofKeyword), n))
        } else {
            Ok((Lexeme::Ident(w), n))
        }
    } else if is_comparison_start(c) {
        let with_eq = i + 1 < s.len() && s[i + 1] == '=';
        Ok((Lexeme::Fixed(comparison_kind(c, with_eq)), if with_eq { 2nat } else { 1nat }))
    } else if c == '&' || c == '|' {
        if i + 1 < s.len() && s[i + 1] == c {
            Ok((Lexeme::Fixed(if c == '&' { TokenKind::DoubleAnd } else { TokenKind::DoublePipe }), 2))
        } else {
            Err(LexerErrorKind::InvalidCharacter(c))
        }
    } else {
        match single_char_kind(c) {
            Some(k) => Ok((Lexeme::Fixed(k), 1)),
            None => Err(LexerErrorKind::InvalidCharacter(c)),
        }
    }
}

pub open spec fn is_blank(c: char) -> bool {
    c == '\n' || c == ' ' || c == '\t' || c == '\r'
}

/// Tokenizes `s` from position `i` with the cursor at `line` and `col`, after the
/// tokens `acc`. A newline moves the cursor to column 1 of the next line, a space or a
/// tab one column on, a carriage return nowhere; every token moves it on by its length.
pub open spec fn lex_from(s: Seq<char>, i: int, line: nat, col: nat, acc: Seq<TokenView>) -> Result<
    Seq<TokenView>,
    LexFailure,
>
    decreases s.len() - i,
    via lex_from_decreases
{
    if i < 0 || i >= s.len() {
        Ok(acc)
    } else if s[i] == '\n' {
        lex_from(s, i + 1, line + 1, 1, acc)
    } else if s[i] == ' ' || s[i] == '\t' {
        lex_from(s, i + 1, line, col + 1, acc)
    } else if s[i] == '\r' {
        lex_from(s, i + 1, line, col, acc)
    } else {
        match scan_token(s, i) {
            Ok((k, n)) => lex_from(
                s,
                i + n,
                line,
                col + n,
                acc.push(TokenView { kind: k, line, column: col }),
            ),
            Err(e) => Err(LexFailure { kind: e, tokens: acc, line, column: col }),
        }
    }
}

#[via_fn]
proof fn lex_from_decreases(s: Seq<char>, i: int, line: nat, col: nat, acc: Seq<TokenView>) {
    if 0 <= i < s.len() && !is_blank(s[i]) {
        lemma_scan_token_bounds(s, i);
    }
}

/// A number literal stays within the source.
proof fn lemma_scan_number_bounds(s: Seq<char>, i: int)
    requires
        0 <= i < s.len(),
        is_digit(s[i]),
    ensures
        1 <= scan_number(s, i).1,
        i + scan_number(s, i).1 <= s.len(),
{
    if s[i] == '0' {
        if i + 1 < s.len() && (s[i + 1] == 'x' || s[i + 1] == 'o' || s[i + 1] == 'b') {
            lemma_run_len_bound(s, i + 2, radix_of_prefix(s[i + 1]));
        } else {
            let f = marked_len(s, i + 1, '.');
            if f > 0 {
                lemma_run_len_bound(s, i + 2, 10);
                let e = marked_len(s, i + 1 + f, 'e');
                if e > 0 {
                    lemma_run_len_bound(s, i + 2 + f, 10);
                }
            }
        }
    } else {
        lemma_run_len_bound(s, i + 1, 10);
        let d = 1 + run_len(s, i + 1, 10);
        let f = marked_len(s, i + d, '.');
        if f > 0 {
            lemma_run_len_bound(s, i + d + 1, 10);
        }
        let e = marked_len(s, i + d + f, 'e');
        if e > 0 {
            lemma_run_len_bound(s, i + d + f + 1, 10);
        }
    }
}

/// Every token takes at least one character and stays within the source.
pub proof fn lemma_scan_token_bounds(s: Seq<char>, i: int)
    requires
        0 <= i < s.len(),
    ensures
        scan_token(s, i) is Ok ==> 1 <= scan_token(s, i)->Ok_0.1 && i + scan_token(s, i)->Ok_0.1 <= s.len(),
{
    let c = s[i];
    if is_digit(c) {
        lemma_scan_number_bounds(s, i);
    } else if c == '"' {
        lemma_string_rest_bound(s, i + 1);
    } else if is_ident_start(c) {
        lemma_ident_run_len_bound(s, i + 1);
    }
}

/// The tokens of a whole source text, or the first lexical error with the tokens
/// before it and the position where it arose.
pub open spec fn lex(s: Seq<char>) -> Result<Seq<TokenView>, LexFailure> {
    lex_from(s, 0, 1, 1, Seq::empty())
}

// ---------------------------------------------------------------------------
// Tokenizer
// ---------------------------------------------------------------------------

/// The string literal that starts at `i` (an opening quote), its escape pairs kept as
/// they stand in the source.
fn read_string(chars: &Vec<char>, i: usize) -> (r: Result<TokenKind, LexerErrorKind>)
    requires
        i < chars@.len() < usize::MAX,
        chars@[i as int] == '"',
    ensures
        match r {
            Ok(k) => scan_token(chars@, i as int) == Ok::<_, LexerErrorKind>((k@, lexeme_len(k@))),
            Err(e) => scan_token(chars@, i as int) == Err::<(Lexeme, nat), _>(e),
        },
{
    let ghost s = chars@;
    let mut text: Vec<char> = vec!['"'];
    let mut j: usize = i + 1;
    while j < chars.len()
        invariant
            s == chars@,
            s.len() < usize::MAX,
            i < j <= s.len(),
            s[i as int] == '"',
            string_rest(s, i + 1) == shift(string_rest(s, j as int), (j - i - 1) as nat),
            text@ == s.subrange(i as int, j as int),
        decreases s.len() - j,
    {
        let c = chars[j];
        if c == '"' {
            text.push(c);
            assert(text@ =~= s.subrange(i as int, j + 1));
            let t = string_of(&text);
            return Ok(TokenKind::StrLiteral(t));
        } else if c == '\n' {
            return Err(LexerErrorKind::UnterminatedStringLiteral);
        } else if c == '\\' {
            if j + 1 < chars.len() {
                let e = chars[j + 1];
                if e == 'n' || e == 't' || e == 'r' || e == '\\' || e == '"' {
                    text.push(c);
                    text.push(e);
                    j = j + 2;
                    assert(text@ =~= s.subrange(i as int, j as int));
                    continue;
                }
            }
            return Err(LexerErrorKind::InvalidStringEscapeSequence);
        } else {
            text.push(c);
            j = j + 1;
            assert(text@ =~= s.subrange(i as int, j as int));
        }
    }
    Err(LexerErrorKind::UnterminatedStringLiteral)
}

fn is_ident_char_exec(c: char) -> (r: bool)
    ensures
        r == is_ident_char(c),
{
    ('a' <= c && c <= 'z') || ('A' <= c && c <= 'Z') || c == '_' || ('0' <= c && c <= '9')
}

/// The identifier or keyword that starts at `i`.
fn read_identifier(chars: &Vec<char>, i: usize) -> (r: TokenKind)
    requires
        i < chars@.len() < usize::MAX,
        is_ident_start(chars@[i as int]),
    ensures
        scan_token(chars@, i as int) == Ok::<_, LexerErrorKind>((r@, lexeme_len(r@))),
{
    let ghost s = chars@;
    let mut text: Vec<char> = vec![chars[i]];
    let mut j: usize = i + 1;
    while j < chars.len() && is_ident_char_exec(chars[j])
        invariant
            s == chars@,
            i < j <= s.len(),
            ident_run_len(s, i + 1) == (j - i - 1) + ident_run_len(s, j as int),
            text@ == s.subrange(i as int, j as int),
        decreases s.len() - j,
    {
        text.push(chars[j]);
        j = j + 1;
        assert(text@ =~= s.subrange(i as int, j as int));
    }
    if text.len() == 6 && text[0] == 't' && text[1] == 'y' && text[2] == 'p' && text[3] == 'e'
        && text[4] == 'o' && text[5] == 'f' {
        assert(text@ =~= typeof_text());
        TokenKind::TypeofKeyword
    } else {
        TokenKind::Identifier(string_of(&text))
    }
}

fn single_char_token(c: char) -> (r: Option<TokenKind>)
    ensures
        r == single_char_kind(c),
{
    match c {
        '+' => Some(TokenKind::Plus),
        '-' => Some(TokenKind::Minus),
        '*' => Some(TokenKind::Asterisk),
        '/' => Some(TokenKind::Slash),
        '%' => Some(TokenKind::Percent),
        ';' => Some(TokenKind::SemiColon),
        '.' => Some(TokenKind::Dot),
        ',' => Some(TokenKind::Comma),
        '(' => Some(TokenKind::LeftParen),
        ')' => Some(TokenKind::RightParen),
        '{' => Some(TokenKind::LeftCurly),
        '}' => Some(TokenKind::RightCurly),
        '[' => Some(TokenKind::LeftBracket),
        ']' => Some(TokenKind::RightBracket),
        _ => None,
    }
}

/// The token that starts at `i`, a character that is not white space.
fn next_token(chars: &Vec<char>, i: usize) -> (r: Result<TokenKind, LexerErrorKind>)
    requires
        i < chars@.len() < usize::MAX,
        !is_blank(chars@[i as int]),
    ensures
        match r {
            Ok(k) => scan_token(chars@, i as int) == Ok::<_, LexerErrorKind>((k@, lexeme_len(k@))),
            Err(e) => scan_token(chars@, i as int) == Err::<(Lexeme, nat), _>(e),
        },
{
    let c = chars[i];
    if '0' <= c && c <= '9' {
        Ok(TokenKind::NumLiteral(parse_number(chars, i)))
    } else if c == '"' {
        read_string(chars, i)
    } else if ('a' <= c && c <= 'z') || ('A' <= c && c <= 'Z') || c == '_' {
        Ok(read_identifier(chars, i))
    } else if c == '=' || c == '!' || c == '<' || c == '>' {
        let with_eq = i + 1 < chars.len() && chars[i + 1] == '=';
        Ok(
            match c {
                '=' => if with_eq { TokenKind::DoubleEqual } else { TokenKind::SingleEqual },
                '!' => if with_eq { TokenKind::ExclEqual } else { TokenKind::Exclamation },
                '<' => if with_eq { TokenKind::LessThanEq } else { TokenKind::LessThan },
                _ => if with_eq { TokenKind::GreaterThanEq } else { TokenKind::GreaterThan },
            },
        )
    } else if c == '&' || c == '|' {
        if i + 1 < chars.len() && chars[i + 1] == c {
            Ok(if c == '&' { TokenKind::DoubleAnd } else { TokenKind::DoublePipe })
        } else {
            Err(LexerErrorKind::InvalidCharacter(c))
        }
    } else {
        match single_char_token(c) {
            Some(k) => Ok(k),
            None => Err(LexerErrorKind::InvalidCharacter(c)),
        }
    }
}

impl TokenKind {
    /// The number of source characters that a token of this kind took.
    pub fn get_str_len(&self) -> (r: usize)
        ensures
            r == lexeme_len(self@),
    {
        match self {
            TokenKind::StrLiteral(s) => chars_of(s.as_str()).len(),
            TokenKind::Identifier(id) => chars_of(id.as_str()).len(),
            TokenKind::NumLiteral(num) => num.str_len,
            TokenKind::SingleEqual | TokenKind::SemiColon | TokenKind::LessThan
            | TokenKind::GreaterThan | TokenKind::Plus | TokenKind::Minus | TokenKind::Asterisk
            | TokenKind::Slash | TokenKind::Percent | TokenKind::LeftParen | TokenKind::RightParen
            | TokenKind::LeftCurly | TokenKind::Dot | TokenKind::RightCurly
            | TokenKind::LeftBracket | TokenKind::RightBracket | TokenKind::Exclamation
            | TokenKind::Comma => 1,
            TokenKind::DoubleEqual | TokenKind::ExclEqual | TokenKind::LessThanEq
            | TokenKind::GreaterThanEq | TokenKind::DoubleAnd | TokenKind::DoublePipe => 2,
            TokenKind::TypeofKeyword => 6,
        }
    }
}

impl ParseState {
    fn new() -> (r: ParseState)
        ensures
            r.tokens@.len() == 0,
            r.line == 1,
            r.column == 1,
    {
        ParseState { tokens: VecDeque::new(), line: 1, column: 1 }
    }

    /// Emits a token at the cursor and moves the cursor past it.
    fn push_token(&mut self, kind: TokenKind)
        requires
            old(self).column + lexeme_len(kind@) <= usize::MAX,
        ensures
            tokens_view(final(self).tokens@) == tokens_view(old(self).tokens@).push(
                TokenView { kind: kind@, line: old(self).line as nat, column: old(self).column as nat },
            ),
            final(self).line == old(self).line,
            final(self).column == old(self).column + lexeme_len(kind@),
    {
        let len = kind.get_str_len();
        let ghost before = self.tokens@;
        self.tokens.push_back(Token { kind, line: self.line, column: self.column });
        self.column = self.column + len;
        assert(tokens_view(self.tokens@) =~= tokens_view(before).push(
            TokenView { kind: kind@, line: self.line as nat, column: (self.column - len) as nat },
        ));
    }
}

impl LexerError {
    fn new(state: ParseState, kind: LexerErrorKind) -> (r: LexerError)
        ensures
            r.state == state,
            r.kind == kind,
    {
        LexerError { state, kind }
    }
}

/// Tokenizes a source text: its tokens in order, each with the line and column of its
/// first character, or the first lexical error, exactly as `lex` describes.
pub fn parse(input: &str) -> (r: Result<VecDeque<Token>, LexerError>)
    requires
        input@.len() < usize::MAX,
    ensures
        tokenized(input@, r),
{
    let chars = chars_of(input);
    let ghost s = chars@;
    let mut state = ParseState::new();
    assert(tokens_view(state.tokens@) =~= Seq::<TokenView>::empty());
    let mut i: usize = 0;
    while i < chars.len()
        invariant
            s == chars@,
            s == input@,
            s.len() < usize::MAX,
            i <= s.len(),
            1 <= state.line <= i + 1,
            state.column <= i + 1,
            lex(s) == lex_from(
                s,
                i as int,
                state.line as nat,
                state.column as nat,
                tokens_view(state.tokens@),
            ),
        decreases s.len() - i,
    {
        let c = chars[i];
        if c == '\n' {
            state.line = state.line + 1;
            state.column = 1;
            i = i + 1;
        } else if c == ' ' || c == '\t' {
            state.column = state.column + 1;
            i = i + 1;
        } else if c == '\r' {
            i = i + 1;
        } else {
            proof {
                lemma_scan_token_bounds(s, i as int);
            }
            match next_token(&chars, i) {
                Ok(kind) => {
                    let len = kind.get_str_len();
                    state.push_token(kind);
                    i = i + len;
                },
                Err(e) => {
                    return Err(LexerError::new(state, e));
                },
            }
        }
    }
    Ok(state.tokens)
}

/// `r` is the outcome that `lex` gives for `s`.
pub open spec fn tokenized(s: Seq<char>, r: Result<VecDeque<Token>, LexerError>) -> bool {
    match r {
        Ok(ts) => lex(s) == Ok::<_, LexFailure>(tokens_view(ts@)),
        Err(e) => lex(s) == Err::<Seq<TokenView>, _>(e@),
    }
}

pub open spec fn outcome_view(r: Result<VecDeque<Token>, LexerError>) -> Result<Seq<TokenView>, LexFailure> {
    match r {
        Ok(ts) => Ok(tokens_view(ts@)),
        Err(e) => Err(e@),
    }
}

// ---------------------------------------------------------------------------
// Properties of tokenizing
// ---------------------------------------------------------------------------

/// Tokenizing is deterministic: two tokenizations of the same text give the same
/// tokens, kinds and positions alike, or the same error.
pub proof fn lemma_tokenize_deterministic(
    s: Seq<char>,
    r1: Result<VecDeque<Token>, LexerError>,
    r2: Result<VecDeque<Token>, LexerError>,
)
    requires
        tokenized(s, r1),
        tokenized(s, r2),
    ensures
        outcome_view(r1) == outcome_view(r2),
{
}

/// Every token's recorded length is the number of source characters it took, escape
/// pairs and radix prefixes included.
pub proof fn lemma_token_length(s: Seq<char>, i: int)
    requires
        0 <= i < s.len(),
    ensures
        scan_token(s, i) is Ok ==> lexeme_len(scan_token(s, i)->Ok_0.0) == scan_token(s, i)->Ok_0.1,
{
    lemma_scan_token_bounds(s, i);
    let c = s[i];
    if is_digit(c) {
    } else if c == '"' {
        lemma_string_rest_bound(s, i + 1);
    } else if is_ident_start(c) {
        lemma_ident_run_len_bound(s, i + 1);
        let n = 1 + ident_run_len(s, i + 1);
        assert(s.subrange(i, i + n).len() == n);
        if s.subrange(i, i + n) == typeof_text() {
            assert(typeof_text().len() == 6);
        }
    } else if is_comparison_start(c) {
        let with_eq = i + 1 < s.len() && s[i + 1] == '=';
        assert(lexeme_len(Lexeme::Fixed(comparison_kind(c, with_eq))) == if with_eq { 2nat } else { 1nat });
    } else if c == '&' || c == '|' {
    } else if single_char_kind(c) is Some {
        assert(lexeme_len(Lexeme::Fixed(single_char_kind(c)->0)) == 1);
    }
}

proof fn lemma_run_len_all_digits(s: Seq<char>, j: int)
    requires
        0 <= j <= s.len(),
        forall|k: int| j <= k < s.len() ==> is_digit(#[trigger] s[k]),
    ensures
        run_len(s, j, 10) == s.len() - j,
    decreases s.len() - j,
{
    if j < s.len() {
        lemma_run_len_all_digits(s, j + 1);
    }
}

/// A decimal integer literal without a leading zero is one number token at line 1,
/// column 1: its digits are the text itself (so its value is the text read in base 10)
/// and its length is the number of digits.
pub proof fn lemma_decimal_integer(s: Seq<char>)
    requires
        s.len() >= 1,
        s[0] != '0',
        forall|k: int| 0 <= k < s.len() ==> is_digit(#[trigger] s[k]),
    ensures
        lex(s) == Ok::<_, LexFailure>(
            seq![
                TokenView {
                    kind: Lexeme::Num(
                        NumView { radix: 10, digits: s, fraction: Seq::empty(), exponent: Seq::empty() },
                        s.len(),
                    ),
                    line: 1,
                    column: 1,
                },
            ],
        ),
{
    lemma_run_len_all_digits(s, 1);
    assert(s.subrange(0, s.len() as int) =~= s);
    let tok = TokenView {
        kind: Lexeme::Num(
            NumView { radix: 10, digits: s, fraction: Seq::empty(), exponent: Seq::empty() },
            s.len(),
        ),
        line: 1,
        column: 1,
    };
    assert(Seq::<TokenView>::empty().push(tok) =~= seq![tok]);
    assert(lex_from(s, s.len() as int, 1, 1 + s.len(), seq![tok]) == Ok::<_, LexFailure>(seq![tok]));
}

proof fn lemma_string_rest_no_float_error(s: Seq<char>, j: int)
    ensures
        string_rest(s, j) != Err::<nat, _>(LexerErrorKind::InvalidFloatLiteral),
    decreases s.len() - j,
{
    if 0 <= j < s.len() && s[j] != '"' && s[j] != '\n' {
        if s[j] == '\\' {
            if j + 1 < s.len() && is_escape(s[j + 1]) {
                lemma_string_rest_no_float_error(s, j + 2);
            }
        } else {
            lemma_string_rest_no_float_error(s, j + 1);
        }
    }
}

proof fn lemma_lex_from_no_float_error(s: Seq<char>, i: int, line: nat, col: nat, acc: Seq<TokenView>)
    ensures
        lex_from(s, i, line, col, acc) is Err ==> lex_from(s, i, line, col, acc)->Err_0.kind
            != LexerErrorKind::InvalidFloatLiteral,
    decreases s.len() - i,
{
    if 0 <= i < s.len() {
        if s[i] == '\n' {
            lemma_lex_from_no_float_error(s, i + 1, line + 1, 1, acc);
        } else if s[i] == ' ' || s[i] == '\t' {
            lemma_lex_from_no_float_error(s, i + 1, line, col + 1, acc);
        } else if s[i] == '\r' {
            lemma_lex_from_no_float_error(s, i + 1, line, col, acc);
        } else {
            lemma_scan_token_bounds(s, i);
            lemma_string_rest_no_float_error(s, i + 1);
            if let Ok((k, n)) = scan_token(s, i) {
                lemma_lex_from_no_float_error(
                    s,
                    i + n,
                    line,
                    col + n,
                    acc.push(TokenView { kind: k, line, column: col }),
                );
            }
        }
    }
}

/// The tokenizer never reports an invalid float literal: the text of every number
/// literal it reads is a well-formed decimal or radix literal.
pub proof fn lemma_no_invalid_float_literal(s: Seq<char>)
    ensures
        lex(s) is Err ==> lex(s)->Err_0.kind != LexerErrorKind::InvalidFloatLiteral,
{
    lemma_lex_from_no_float_error(s, 0, 1, 1, Seq::empty());
}

} // verus!
