use slide::ast::{ErrorRecovery, Expr, Opcode, ParseError};
use slide::error::{
    error_to_range, marker_line, render_errors, render_lex_error, render_parse_error, try_humanize,
};
use slide::float::{Float, FloatValue};
use slide::integer::Integer;
use slide::number::{saturate, saturate_float, FloatRequest, Number};
use slide::prompt_helper::{op_formatter, MathHelper};
use slide::scan::Rule;
use slide::token::{
    detect_negative, token_of, tokenize, Error, Span, SpannedError, SpannedToken, Token,
};

/// A service that no test here may reach.
fn no_floats(request: FloatRequest) -> FloatValue {
    panic!("unexpected request: {:?}", request)
}

/// A service that answers every request with the same value.
fn seven_halves(_request: FloatRequest) -> FloatValue {
    FloatValue::Finite { mantissa: Integer::from_u64(7), exponent: -1 }
}

fn big(text: &str) -> Integer {
    let digits: Vec<u8> = text.bytes().map(|b| b - b'0').collect();
    Integer::from_digits(&digits, 10)
}

fn finite(mantissa: i64, exponent: i64) -> FloatValue {
    FloatValue::Finite { mantissa: Integer::from_i64(mantissa), exponent }
}

fn lex_error(input: &str) -> SpannedError {
    tokenize(input, &no_floats).unwrap_err()
}

#[test]
fn integer_prints_in_decimal() {
    assert_eq!(Integer::zero().to_string(), "0");
    assert_eq!(Integer::from_u64(u64::MAX).to_string(), "18446744073709551615");
    assert_eq!(Integer::from_i64(i64::MIN).to_string(), "-9223372036854775808");
    assert_eq!(big("123456789012345678901234567890").to_string(), "123456789012345678901234567890");
}

#[test]
fn integer_addition_and_subtraction() {
    let a = Integer::from_u64(u64::MAX);
    let b = Integer::from_u64(1);
    assert_eq!(a.add(&b).to_string(), "18446744073709551616");
    assert_eq!(a.add(&b).sub(&b), a);
    assert_eq!(b.sub(&a).to_string(), "-18446744073709551614");
    assert_eq!(a.sub(&a), Integer::zero());
    assert_eq!(Integer::from_i64(-3).add(&Integer::from_i64(5)), Integer::from_i64(2));
}

#[test]
fn integer_multiplication() {
    let a = big("123456789012345678901234567890");
    let b = big("987654321098765432109876543210");
    assert_eq!(
        a.mul(&b).to_string(),
        "121932631137021795226185032733622923332237463801111263526900"
    );
    assert_eq!(a.mul(&Integer::from_i64(-1)), a.negated());
    assert_eq!(a.mul(&Integer::zero()), Integer::zero());
}

#[test]
fn integer_power() {
    assert_eq!(Integer::from_u64(2).pow(100).to_string(), "1267650600228229401496703205376");
    assert_eq!(Integer::from_i64(-3).pow(3), Integer::from_i64(-27));
    assert_eq!(Integer::from_u64(0).pow(0), Integer::from_u64(1));
    assert_eq!(Integer::from_u64(1).pow(u32::MAX), Integer::from_u64(1));
    assert_eq!(Integer::from_i64(-1).pow(u32::MAX), Integer::from_i64(-1));
}

#[test]
fn integer_shifts() {
    assert_eq!(Integer::from_u64(1).shl(100).to_string(), "1267650600228229401496703205376");
    assert_eq!(Integer::from_u64(1).shl(100).shr(98), Integer::from_u64(4));
    assert_eq!(Integer::from_u64(5).shr(1), Integer::from_u64(2));
    assert_eq!(Integer::from_i64(-5).shr(1), Integer::from_i64(-3));
    assert_eq!(Integer::from_i64(-4).shr(1), Integer::from_i64(-2));
    assert_eq!(Integer::from_i64(-1).shr(u32::MAX), Integer::from_i64(-1));
    assert_eq!(Integer::from_u64(7).shr(u32::MAX), Integer::zero());
    assert_eq!(Integer::from_i64(-3).shl(33).to_string(), "-25769803776");
    assert_eq!(Integer::from_u64(3).shl_wide(70).shr_wide(69), Integer::from_u64(6));
}

#[test]
fn integer_reads_digits_in_a_radix() {
    assert_eq!(Integer::from_digits(&vec![15, 15], 16), Integer::from_u64(255));
    assert_eq!(Integer::from_digits(&vec![1, 0, 1], 2), Integer::from_u64(5));
    assert_eq!(Integer::from_digits(&vec![], 10), Integer::zero());
}

#[test]
fn integer_as_u32() {
    assert_eq!(Integer::from_u64(0).to_u32(), Some(0));
    assert_eq!(Integer::from_u64(4294967295).to_u32(), Some(u32::MAX));
    assert_eq!(Integer::from_u64(4294967296).to_u32(), None);
    assert_eq!(Integer::from_i64(-1).to_u32(), None);
    assert!(Integer::from_i64(-1).is_negative());
    assert!(Integer::zero().is_zero());
    assert!(Integer::from_u64(9).equals(&big("9")));
}

#[test]
fn exponent_saturates() {
    assert_eq!(saturate(&Integer::from_u64(12)), 12);
    assert_eq!(saturate(&Integer::from_i64(-1)), u32::MAX);
    assert_eq!(saturate(&big("99999999999")), u32::MAX);
}

#[test]
fn float_rounds_to_nearest_even_count() {
    assert_eq!(finite(5, -1).to_u32_saturating(), Some(2));
    assert_eq!(finite(7, -1).to_u32_saturating(), Some(4));
    assert_eq!(finite(3, -1).to_u32_saturating(), Some(2));
    assert_eq!(finite(1, -1).to_u32_saturating(), Some(0));
    assert_eq!(finite(137, -3).to_u32_saturating(), Some(17));
    assert_eq!(finite(3, 2).to_u32_saturating(), Some(12));
    assert_eq!(finite(1, 32).to_u32_saturating(), Some(u32::MAX));
    assert_eq!(finite(1, 31).to_u32_saturating(), Some(2147483648));
    assert_eq!(finite(-7, 0).to_u32_saturating(), Some(0));
    assert_eq!(finite(1, i64::MIN).to_u32_saturating(), Some(0));
    assert_eq!(FloatValue::Nan.to_u32_saturating(), None);
    assert_eq!(FloatValue::Infinity { negative: false }.to_u32_saturating(), Some(u32::MAX));
    assert_eq!(FloatValue::Infinity { negative: true }.to_u32_saturating(), Some(0));
    assert_eq!(FloatValue::Zero { negative: true }.to_u32_saturating(), Some(0));
    assert_eq!(saturate_float(&Float { prec: 53, value: FloatValue::Nan }), u32::MAX);
}

#[test]
fn float_negation_turns_the_sign() {
    assert_eq!(finite(5, -1).negated(), finite(-5, -1));
    assert_eq!(
        FloatValue::Zero { negative: false }.negated(),
        FloatValue::Zero { negative: true }
    );
    assert_eq!(FloatValue::Nan.negated(), FloatValue::Nan);
}

#[test]
fn integers_combine_without_the_service() {
    let n = |v: i64| Number::Int(Integer::from_i64(v));
    assert_eq!(n(7).sub(n(9), &no_floats), n(-2));
    assert_eq!(n(7).mul(n(9), &no_floats), n(63));
    assert_eq!(n(2).pow(n(10), &no_floats), n(1024));
    assert_eq!(n(1).pow(n(-1), &no_floats), n(1));
    assert_eq!(n(3).shl(n(4), &no_floats), n(48));
    assert_eq!(n(-48).shr(n(4), &no_floats), n(-3));
    assert_eq!(Number::default(), n(0));
    assert_eq!(Number::from(Integer::from_i64(4)), n(4));
}

#[test]
fn float_result_carries_the_precision_of_the_rule() {
    let n = |v: i64| Number::Int(Integer::from_i64(v));
    let f = |prec: u32| Number::Float(Float { prec, value: finite(1, 0) });
    let answer = |prec: u32| Number::Float(Float { prec, value: finite(7, -1) });
    assert_eq!(n(1).div(n(2), &seven_halves), answer(53));
    assert_eq!(n(1).add(f(30), &seven_halves), answer(30));
    assert_eq!(f(40).mul(n(2), &seven_halves), answer(40));
    assert_eq!(f(40).sub(f(60), &seven_halves), answer(60));
    assert_eq!(f(70).pow(f(60), &seven_halves), answer(70));
    assert_eq!(n(2).pow(f(24), &seven_halves), answer(24));
    assert_eq!(f(24).shl(n(2), &seven_halves), answer(24));
    assert_eq!(f(24).shr(f(25), &seven_halves), answer(25));
    assert_eq!(n(2).shl(f(24), &seven_halves), answer(24));
}

#[test]
fn requests_say_what_is_computed() {
    let seen = std::cell::RefCell::new(Vec::new());
    let record = |request: FloatRequest| {
        seen.borrow_mut().push(request);
        finite(3, 0)
    };
    let n = |v: i64| Number::Int(Integer::from_i64(v));
    let f = |prec: u32, m: i64| Number::Float(Float { prec, value: finite(m, 0) });
    let _ = n(6).div(n(4), &record);
    let _ = f(24, 5).shl(f(30, 2), &record);
    let _ = n(3).shl(f(30, 2), &record);
    assert_eq!(
        *seen.borrow(),
        vec![
            FloatRequest::Convert { value: Integer::from_u64(6), prec: 53 },
            FloatRequest::Convert { value: Integer::from_u64(4), prec: 53 },
            FloatRequest::Compute {
                op: Opcode::Div,
                lhs: f(53, 3),
                rhs: f(53, 3),
                prec: 53
            },
            FloatRequest::Scale {
                operand: Float { prec: 24, value: finite(5, 0) },
                amount: 2,
                up: true,
                prec: 30
            },
            FloatRequest::Convert { value: Integer::from_u64(3), prec: 30 },
            FloatRequest::Scale {
                operand: Float { prec: 30, value: finite(3, 0) },
                amount: 2,
                up: true,
                prec: 30
            },
        ]
    );
}

#[test]
fn float_power_asks_with_rounded_exponent() {
    let seen = std::cell::RefCell::new(Vec::new());
    let record = |request: FloatRequest| {
        seen.borrow_mut().push(request);
        finite(3, 0)
    };
    let base = Number::Float(Float { prec: 24, value: finite(2, 0) });
    let exponent = Number::Float(Float { prec: 60, value: finite(7, -2) });
    let _ = base.pow(exponent, &record);
    assert_eq!(
        *seen.borrow(),
        vec![FloatRequest::Compute {
            op: Opcode::Pow,
            lhs: Number::Float(Float { prec: 24, value: finite(2, 0) }),
            rhs: Number::Int(Integer::from_u64(2)),
            prec: 60
        }]
    );
}

#[test]
fn expressions_are_written() {
    let one = Expr::Number(Number::Int(Integer::from_u64(1)));
    let x = Expr::Ident("x".to_string());
    let sum = Expr::Op(Box::new(one), Opcode::Add, Box::new(x));
    assert_eq!(sum.to_string(), "(1 + x)");
    let shifted = Expr::Op(Box::new(sum.clone()), Opcode::Shl, Box::new(Expr::Prev));
    assert_eq!(shifted.to_string(), "((1 + x) << #)");
    assert_eq!(Expr::Error.to_string(), "[error]");
    let quarter = Expr::Number(Number::Float(Float { prec: 53, value: finite(5, -2) }));
    assert_eq!(quarter.to_string(), "5p-2");
    assert_eq!(
        Expr::Number(Number::Float(Float { prec: 53, value: FloatValue::Nan })).to_string(),
        "NaN"
    );
}

#[test]
fn float_literal_is_asked_as_decimal() {
    let seen = std::cell::RefCell::new(Vec::new());
    let record = |request: FloatRequest| {
        seen.borrow_mut().push(request);
        finite(5, -2)
    };
    let tokens = tokenize("1_0.2_5", &record).unwrap();
    assert_eq!(
        tokens,
        vec![SpannedToken(
            Token::Float(Float { prec: 53, value: finite(5, -2) }),
            Span { start: 0, end: 7 }
        )]
    );
    assert_eq!(
        *seen.borrow(),
        vec![FloatRequest::Decimal { digits: Integer::from_u64(1025), scale: 2, prec: 53 }]
    );
}

#[test]
fn tokens_of_every_kind() {
    let tokens = tokenize("let f(a)={#,[1];a**2<<1>>3}\n", &no_floats).unwrap();
    let kinds: Vec<Token> = tokens.into_iter().map(|t| t.0).collect();
    assert_eq!(
        kinds,
        vec![
            Token::Let,
            Token::Ident("f".to_string()),
            Token::LParen,
            Token::Ident("a".to_string()),
            Token::RParen,
            Token::Equals,
            Token::LBrace,
            Token::Prev,
            Token::Comma,
            Token::LBracket,
            Token::Integer(Integer::from_u64(1)),
            Token::RBracket,
            Token::Semicolon,
            Token::Ident("a".to_string()),
            Token::Operator("**".to_string()),
            Token::Integer(Integer::from_u64(2)),
            Token::Operator("<<".to_string()),
            Token::Integer(Integer::from_u64(1)),
            Token::Operator(">>".to_string()),
            Token::Integer(Integer::from_u64(3)),
            Token::RBrace,
        ]
    );
}

#[test]
fn word_that_begins_with_let_is_a_name() {
    let tokens = tokenize("letter", &no_floats).unwrap();
    assert_eq!(
        tokens,
        vec![SpannedToken(Token::Ident("letter".to_string()), Span { start: 0, end: 6 })]
    );
}

#[test]
fn spans_are_byte_offsets() {
    let tokens = tokenize("  12 +  0x1F", &no_floats).unwrap();
    let spans: Vec<Span> = tokens.iter().map(|t| t.1).collect();
    assert_eq!(
        spans,
        vec![Span { start: 2, end: 4 }, Span { start: 5, end: 6 }, Span { start: 8, end: 12 }]
    );
    assert_eq!(Span { start: 8, end: 12 }.to_string(), "8-12");
}

#[test]
fn invalid_literals() {
    assert_eq!(lex_error("12abc"), SpannedError(Error::InvalidInteger, Some(Span { start: 0, end: 5 })));
    assert_eq!(lex_error("1 + 0x"), SpannedError(Error::InvalidHex, Some(Span { start: 4, end: 6 })));
    assert_eq!(lex_error("0xfg"), SpannedError(Error::InvalidHex, Some(Span { start: 0, end: 4 })));
    assert_eq!(lex_error("0b12"), SpannedError(Error::InvalidBinary, Some(Span { start: 0, end: 4 })));
    assert_eq!(lex_error("0b"), SpannedError(Error::InvalidBinary, Some(Span { start: 0, end: 2 })));
}

#[test]
fn unknown_symbol() {
    assert_eq!(
        lex_error("4 % 2"),
        SpannedError(Error::UnknownSymbol("%".to_string()), Some(Span { start: 2, end: 3 }))
    );
    assert_eq!(
        lex_error("1 < 2"),
        SpannedError(Error::UnknownSymbol("<".to_string()), Some(Span { start: 2, end: 3 }))
    );
}

#[test]
fn character_that_begins_no_lexeme() {
    assert_eq!(lex_error("1 +\t2"), SpannedError(Error::Grammar { location: 3 }, None));
    assert_eq!(lex_error("é"), SpannedError(Error::Grammar { location: 0 }, None));
}

#[test]
fn lexeme_that_is_no_token_of_its_kind() {
    assert_eq!(token_of(&no_floats, Rule::Keyword, b"fn"), Err(Error::UnknownKeyword));
    assert_eq!(token_of(&no_floats, Rule::Keyword, b"#"), Ok(Some(Token::Prev)));
    assert_eq!(token_of(&no_floats, Rule::Grouping, b"<"), Err(Error::UnknownGrouping));
    assert_eq!(token_of(&no_floats, Rule::Float, b"1..2"), Err(Error::InvalidFloat));
    assert_eq!(token_of(&no_floats, Rule::Float, b"12"), Err(Error::InvalidFloat));
    assert_eq!(token_of(&no_floats, Rule::Float, b".5"), Err(Error::InvalidFloat));
    assert_eq!(token_of(&no_floats, Rule::Separator, b" "), Ok(None));
    assert_eq!(
        token_of(&no_floats, Rule::Separator, b":"),
        Err(Error::UnknownSymbol(":".to_string()))
    );
    assert_eq!(token_of(&no_floats, Rule::Decimal, b"_"), Err(Error::InvalidInteger));
    assert_eq!(
        token_of(&no_floats, Rule::Hex, b"ffh"),
        Ok(Some(Token::Integer(Integer::from_u64(255))))
    );
}

#[test]
fn sign_is_detected_by_the_two_tokens_before() {
    let at = Span { start: 0, end: 1 };
    let minus = || SpannedToken(Token::Operator("-".to_string()), at);
    let plus = || SpannedToken(Token::Operator("+".to_string()), at);
    let one = || SpannedToken(Token::Integer(Integer::from_u64(1)), at);
    let half = || SpannedToken(Token::Float(Float { prec: 53, value: finite(1, -1) }), at);
    let name = || SpannedToken(Token::Ident("x".to_string()), at);
    assert!(!detect_negative(&vec![]));
    assert!(detect_negative(&vec![minus()]));
    assert!(!detect_negative(&vec![plus()]));
    assert!(!detect_negative(&vec![one(), minus()]));
    assert!(!detect_negative(&vec![half(), minus()]));
    assert!(detect_negative(&vec![name(), minus()]));
    assert!(detect_negative(&vec![one(), minus(), minus()]));
}

fn unrecognized(token: Option<(usize, Token, usize)>, expected: &[&str]) -> ErrorRecovery {
    ErrorRecovery {
        error: ParseError::UnrecognizedToken {
            token,
            expected: expected.iter().map(|s| s.to_string()).collect(),
        },
        dropped_tokens: vec![],
    }
}

#[test]
fn humanized_messages() {
    assert_eq!(
        try_humanize(&unrecognized(None, &["\"int\""])),
        Some("Unexpected end of input".to_string())
    );
    assert_eq!(
        try_humanize(&unrecognized(Some((1, Token::Prev, 2)), &["\";\"", "\"operator\""])),
        Some("Possible missing operator".to_string())
    );
    assert_eq!(try_humanize(&unrecognized(Some((1, Token::Prev, 2)), &["\"int\""])), None);
    let extra = ErrorRecovery {
        error: ParseError::ExtraToken { token: (1, Token::Prev, 2) },
        dropped_tokens: vec![],
    };
    assert_eq!(try_humanize(&extra), None);
}

#[test]
fn ranges_of_errors() {
    assert_eq!(error_to_range(&unrecognized(Some((3, Token::Prev, 9)), &[])), (3, 9));
    assert_eq!(error_to_range(&unrecognized(None, &[])), (0, 0));
    let extra = ErrorRecovery {
        error: ParseError::ExtraToken { token: (1, Token::Prev, 2) },
        dropped_tokens: vec![],
    };
    assert_eq!(error_to_range(&extra), (1, 2));
    let invalid =
        ErrorRecovery { error: ParseError::InvalidToken { location: 7 }, dropped_tokens: vec![] };
    assert_eq!(error_to_range(&invalid), (7, 7));
    let user = ErrorRecovery {
        error: ParseError::User { error: slide::ast::Error::Rejected },
        dropped_tokens: vec![],
    };
    assert_eq!(error_to_range(&user), (0, 0));
}

#[test]
fn markers() {
    assert_eq!(marker_line(0, 1), "   ^");
    assert_eq!(marker_line(2, 2), "     ^");
    assert_eq!(marker_line(2, 5), "     ~~~");
    assert_eq!(marker_line(5, 2), "        ^");
}

#[test]
fn errors_are_rendered() {
    let errs = vec![
        unrecognized(Some((2, Token::RBracket, 5)), &["\"int\""]),
        unrecognized(None, &["\"int\""]),
    ];
    let report = render_errors(&errs, 8);
    assert_eq!(
        report.lines,
        vec!["     ~~~".to_string(), "           ^".to_string(), "=# Unexpected end of input".to_string()]
    );
    assert!(!report.dump);
    let first = vec![unrecognized(Some((2, Token::RBracket, 5)), &["\"int\""])];
    let report = render_errors(&first, 8);
    assert_eq!(report.lines, vec!["     ~~~".to_string()]);
    assert!(report.dump);
}

#[test]
fn fatal_error_is_rendered() {
    let report = render_parse_error(
        ParseError::UnrecognizedToken {
            token: Some((2, Token::Integer(Integer::from_u64(2)), 3)),
            expected: vec!["\"operator\"".to_string()],
        },
        3,
    );
    assert_eq!(
        report.lines,
        vec!["     ^".to_string(), "=# Possible missing operator".to_string()]
    );
    assert!(!report.dump);
}

#[test]
fn lexical_error_is_rendered() {
    assert_eq!(
        render_lex_error(&SpannedError(Error::Grammar { location: 2 }, None)),
        Some(vec!["     ~".to_string(), "=# Invalid token".to_string()])
    );
    assert_eq!(
        render_lex_error(&SpannedError(Error::InvalidHex, Some(Span { start: 0, end: 2 }))),
        None
    );
}

#[test]
fn operators_are_set_off() {
    assert_eq!(op_formatter('+'), "\x1b[1m+\x1b[0m");
    assert_eq!(op_formatter('%'), "\x1b[1m%\x1b[0m");
    assert_eq!(op_formatter('#'), "\x1b[31m#\x1b[0m");
    assert_eq!(op_formatter('x'), "x");
    assert_eq!(MathHelper.highlight("a+#", 0), "a\x1b[1m+\x1b[0m\x1b[31m#\x1b[0m");
    assert_eq!(MathHelper.hint("1 +", 3), None);
    assert_eq!(MathHelper.complete("1 +", 3), (0, vec![]));
}

#[test]
fn operators_have_spellings() {
    assert_eq!(Opcode::Pow.to_string(), "**");
    assert_eq!(Opcode::from_symbol("<<"), Some(Opcode::Shl));
    assert_eq!(Opcode::from_symbol("%"), None);
    assert_eq!(Opcode::Div.symbol(), "/");
}
