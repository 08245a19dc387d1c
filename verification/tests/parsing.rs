use slide::ast::{Error, ErrorRecovery, Node, ParseError};
use slide::eval::{is_evaluable, EvalContext, EvalError};
use slide::float::{Float, FloatValue};
use slide::integer::Integer;
use slide::number::{Builtin, FloatRequest, Number};
use slide::ast::Opcode;
use slide::parser::{parse, parse_single};
use slide::session::{eval_line, LineOutcome};
use slide::token::{tokenize, Span, SpannedToken, Token};

fn to_f64(v: &FloatValue) -> f64 {
    match v {
        FloatValue::Nan => f64::NAN,
        FloatValue::Infinity { negative } => {
            if *negative {
                f64::NEG_INFINITY
            } else {
                f64::INFINITY
            }
        }
        FloatValue::Zero { negative } => {
            if *negative {
                -0.0
            } else {
                0.0
            }
        }
        FloatValue::Finite { mantissa, exponent } => {
            let m: f64 = mantissa.to_string().parse().unwrap();
            m * 2f64.powi(*exponent as i32)
        }
    }
}

fn from_f64(x: f64) -> FloatValue {
    if x.is_nan() {
        return FloatValue::Nan;
    }
    if x.is_infinite() {
        return FloatValue::Infinity { negative: x < 0.0 };
    }
    if x == 0.0 {
        return FloatValue::Zero { negative: x.is_sign_negative() };
    }
    let bits = x.abs().to_bits();
    let field = (bits >> 52) as i64;
    let fraction = bits & ((1u64 << 52) - 1);
    let (mut m, mut e) = if field == 0 {
        (fraction, -1074i64)
    } else {
        (fraction | (1u64 << 52), field - 1075)
    };
    while m % 2 == 0 {
        m /= 2;
        e += 1;
    }
    let mantissa = if x < 0.0 {
        Integer::from_u64(m).negated()
    } else {
        Integer::from_u64(m)
    };
    FloatValue::Finite { mantissa, exponent: e }
}

fn number_to_f64(n: &Number) -> f64 {
    match n {
        Number::Int(i) => i.to_string().parse().unwrap(),
        Number::Float(f) => to_f64(&f.value),
    }
}

/// Floating-point arithmetic at 53 bits, by the machine's own doubles.
fn arith(request: FloatRequest) -> FloatValue {
    match request {
        FloatRequest::Decimal { digits, scale, prec: _ } => {
            let text = format!("{}e-{}", digits.to_string(), scale);
            from_f64(text.parse().unwrap())
        }
        FloatRequest::Convert { value, prec: _ } => from_f64(value.to_string().parse().unwrap()),
        FloatRequest::Compute { op, lhs, rhs, prec: _ } => {
            let l = number_to_f64(&lhs);
            let r = number_to_f64(&rhs);
            from_f64(match op {
                Opcode::Add => l + r,
                Opcode::Sub => l - r,
                Opcode::Mul => l * r,
                Opcode::Div => l / r,
                Opcode::Pow => l.powf(r),
                Opcode::Shl => l * 2f64.powf(r),
                Opcode::Shr => l / 2f64.powf(r),
            })
        }
        FloatRequest::Scale { operand, amount, up, prec: _ } => {
            let x = to_f64(&operand.value);
            let factor = 2f64.powf(amount as f64);
            from_f64(if up { x * factor } else { x / factor })
        }
        FloatRequest::Apply { function, argument } => {
            let x = to_f64(&argument.value);
            from_f64(match function {
                Builtin::Sin => x.sin(),
                Builtin::Cos => x.cos(),
                Builtin::Tan => x.tan(),
                Builtin::Asin => x.asin(),
                Builtin::Acos => x.acos(),
                Builtin::Atan => x.atan(),
                Builtin::Csc => 1.0 / x.sin(),
                Builtin::Sec => 1.0 / x.cos(),
                Builtin::Cot => 1.0 / x.tan(),
            })
        }
    }
}

fn whole(v: isize) -> Number {
    Number::Int(Integer::from_i64(v as i64))
}

fn float(prec: u32, v: f64) -> Number {
    Number::Float(Float { prec, value: from_f64(v) })
}

fn wrapped_int(v: isize) -> Node {
    Node::Number(whole(v))
}

fn boxed_int(v: isize) -> Box<Node> {
    Box::new(wrapped_int(v))
}

fn boxed_float(prec: u32, v: f64) -> Box<Node> {
    Box::new(Node::Number(float(prec, v)))
}

fn stream(input: &str) -> Vec<Result<(usize, Token, usize), Error>> {
    let tokens = tokenize(input, &arith).unwrap();
    let mut triples = Vec::new();
    for token in tokens {
        triples.push(Ok((token.1.start as usize, token.0, token.1.end as usize)))
    }
    triples
}

fn parse_str(input: &str) -> Node {
    let mut errors = Vec::new();
    let node = parse_single(&mut errors, stream(input)).unwrap();
    assert!(errors.is_empty());
    node
}

fn infix(lhs: Node, op: &str, rhs: Node) -> Node {
    Node::Infix { lhs: Box::new(lhs), op: op.to_string(), rhs: Box::new(rhs) }
}

fn value_of(ctx: &mut EvalContext, input: &str) -> Number {
    match eval_line(ctx, input, &arith) {
        LineOutcome::Value(n) => n,
        other => panic!("no value: {:?}", other),
    }
}

#[test]
fn add() {
    let result = parse_str("1+ 1");
    let mut eval_ctx = EvalContext::new();
    assert_eq!(eval_ctx.eval(result.clone(), &arith).unwrap(), whole(2));
    assert_eq!(
        result,
        Node::Infix { lhs: boxed_int(1), op: "+".to_string(), rhs: boxed_int(1) }
    );

    let result = parse_str("1.25 + 1.75");
    assert_eq!(eval_ctx.eval(result.clone(), &arith).unwrap(), float(53, 3.0));
    assert_eq!(
        result,
        Node::Infix { lhs: boxed_float(53, 1.25), op: "+".to_string(), rhs: boxed_float(53, 1.75) }
    );
}

#[test]
fn hex() {
    let result = parse_str("0xFF");
    let mut eval_ctx = EvalContext::new();
    assert_eq!(result, wrapped_int(255));
    assert_eq!(eval_ctx.eval(result, &arith).unwrap(), whole(255));

    let result = parse_str("27h");
    assert_eq!(result, wrapped_int(39));
    assert_eq!(eval_ctx.eval(result, &arith).unwrap(), whole(39));
}

#[test]
fn binary() {
    let result = parse_str("0b1010101");
    let mut eval_ctx = EvalContext::new();
    assert_eq!(result, wrapped_int(85));
    assert_eq!(eval_ctx.eval(result, &arith).unwrap(), whole(85));

    let result = parse_str("0b00000011");
    assert_eq!(result, wrapped_int(3));
    assert_eq!(eval_ctx.eval(result, &arith).unwrap(), whole(3));
}

#[test]
fn decimal_literal_with_underscores() {
    assert_eq!(parse_str("1_000_000"), wrapped_int(1000000));
}

#[test]
fn minus_folds_into_leading_literal() {
    let tokens = tokenize("-5", &arith).unwrap();
    assert_eq!(
        tokens,
        vec![SpannedToken(Token::Integer(Integer::from_i64(-5)), Span { start: 1, end: 2 })]
    );
}

#[test]
fn minus_after_literal_is_subtraction() {
    let tokens = tokenize("3-5", &arith).unwrap();
    assert_eq!(
        tokens,
        vec![
            SpannedToken(Token::Integer(Integer::from_i64(3)), Span { start: 0, end: 1 }),
            SpannedToken(Token::Operator("-".to_string()), Span { start: 1, end: 2 }),
            SpannedToken(Token::Integer(Integer::from_i64(5)), Span { start: 2, end: 3 }),
        ]
    );
}

#[test]
fn second_of_two_minus_signs_folds() {
    let tokens = tokenize("--5", &arith).unwrap();
    assert_eq!(
        tokens,
        vec![
            SpannedToken(Token::Operator("-".to_string()), Span { start: 0, end: 1 }),
            SpannedToken(Token::Integer(Integer::from_i64(-5)), Span { start: 2, end: 3 }),
        ]
    );
}

#[test]
fn minus_after_minus_folds() {
    let mut ctx = EvalContext::new();
    assert_eq!(value_of(&mut ctx, "3 - -5"), whole(8));
}

#[test]
fn minus_folds_into_float() {
    let tokens = tokenize("-1.5", &arith).unwrap();
    assert_eq!(tokens.len(), 1);
    assert_eq!(tokens[0].0, Token::Float(Float { prec: 53, value: from_f64(-1.5) }));
    assert_eq!(tokens[0].1, Span { start: 1, end: 4 });
}

#[test]
fn minus_after_name_folds_and_leaves_no_operator() {
    let mut errors = Vec::new();
    let node = parse_single(&mut errors, stream("x -5")).unwrap();
    assert_eq!(node, Node::Error);
    assert_eq!(errors.len(), 1);
    let minus_five = (3, Token::Integer(Integer::from_i64(-5)), 4);
    match &errors[0].error {
        ParseError::UnrecognizedToken { token, expected } => {
            assert_eq!(*token, Some(minus_five.clone()));
            assert!(expected.contains(&"\"operator\"".to_string()));
        }
        other => panic!("{:?}", other),
    }
    assert_eq!(errors[0].dropped_tokens, vec![minus_five]);
    assert_eq!(
        slide::error::try_humanize(&errors[0]),
        Some("Possible missing operator".to_string())
    );
}

#[test]
fn stray_token_after_statement_is_got_over() {
    let mut errors: Vec<ErrorRecovery> = Vec::new();
    let nodes = parse(&mut errors, stream("1 ) + 2")).unwrap();
    assert_eq!(nodes, vec![infix(Node::Error, "+", wrapped_int(2))]);
    assert_eq!(errors.len(), 1);
    assert_eq!(
        errors[0].error,
        ParseError::UnrecognizedToken {
            token: Some((2, Token::RParen, 3)),
            expected: vec!["\";\"".to_string(), "\"operator\"".to_string()]
        }
    );
    assert_eq!(errors[0].dropped_tokens, vec![(2, Token::RParen, 3)]);

    let mut errors: Vec<ErrorRecovery> = Vec::new();
    let node = parse_single(&mut errors, stream("1 ) + 2")).unwrap();
    assert_eq!(node, infix(Node::Error, "+", wrapped_int(2)));
    assert_eq!(errors.len(), 1);
    assert_eq!(errors[0].dropped_tokens, vec![(2, Token::RParen, 3)]);
}

#[test]
fn tokens_are_dropped_up_to_one_that_may_follow() {
    let mut errors: Vec<ErrorRecovery> = Vec::new();
    let node = parse_single(&mut errors, stream("1 2 3 + 4 * 5")).unwrap();
    assert_eq!(
        node,
        infix(Node::Error, "+", infix(wrapped_int(4), "*", wrapped_int(5)))
    );
    assert_eq!(errors.len(), 1);
    assert_eq!(
        errors[0].dropped_tokens,
        vec![
            (2, Token::Integer(Integer::from_u64(2)), 3),
            (4, Token::Integer(Integer::from_u64(3)), 5)
        ]
    );
}

#[test]
fn operator_where_operand_is_due_is_kept() {
    let mut errors: Vec<ErrorRecovery> = Vec::new();
    let node = parse_single(&mut errors, stream("1 + * 2")).unwrap();
    assert_eq!(
        node,
        infix(wrapped_int(1), "+", infix(Node::Error, "*", wrapped_int(2)))
    );
    assert_eq!(errors.len(), 1);
    assert_eq!(
        errors[0].error,
        ParseError::UnrecognizedToken {
            token: Some((4, Token::Operator("*".to_string()), 5)),
            expected: vec![
                "\"(\"".to_string(),
                "\"#\"".to_string(),
                "\"float\"".to_string(),
                "\"ident\"".to_string(),
                "\"int\"".to_string()
            ]
        }
    );
    assert!(errors[0].dropped_tokens.is_empty());
}

#[test]
fn stray_token_in_parentheses_and_in_arguments() {
    let mut errors: Vec<ErrorRecovery> = Vec::new();
    let node = parse_single(&mut errors, stream("(1 ] ) + 2")).unwrap();
    assert_eq!(node, infix(Node::Error, "+", wrapped_int(2)));
    assert_eq!(errors.len(), 1);
    assert_eq!(errors[0].dropped_tokens, vec![(3, Token::RBracket, 4)]);

    let mut errors: Vec<ErrorRecovery> = Vec::new();
    let node = parse_single(&mut errors, stream("f(1 2, 3)")).unwrap();
    assert_eq!(
        node,
        Node::FunctionCall { name: "f".to_string(), args: vec![Node::Error, wrapped_int(3)] }
    );
    assert_eq!(errors.len(), 1);

    let mut errors: Vec<ErrorRecovery> = Vec::new();
    let node = parse_single(&mut errors, stream("(1 + ) * 2")).unwrap();
    assert_eq!(
        node,
        infix(infix(wrapped_int(1), "+", Node::Error), "*", wrapped_int(2))
    );
    assert_eq!(errors.len(), 1);
    assert!(errors[0].dropped_tokens.is_empty());
}

#[test]
fn what_stands_in_parentheses_is_dropped_with_them() {
    let mut errors: Vec<ErrorRecovery> = Vec::new();
    let node = parse_single(&mut errors, stream("1 + ] (2 * 3) + 4")).unwrap();
    assert_eq!(
        node,
        infix(infix(wrapped_int(1), "+", Node::Error), "+", wrapped_int(4))
    );
    assert_eq!(errors.len(), 1);
    assert_eq!(errors[0].dropped_tokens.len(), 6);
    assert_eq!(errors[0].dropped_tokens[0], (4, Token::RBracket, 5));

    let mut errors: Vec<ErrorRecovery> = Vec::new();
    let node = parse_single(&mut errors, stream("2 * ] f(1, 2) + 3")).unwrap();
    assert_eq!(
        node,
        infix(infix(wrapped_int(2), "*", Node::Error), "+", wrapped_int(3))
    );
    assert_eq!(errors.len(), 1);
}

#[test]
fn malformed_let_is_got_over() {
    let mut errors: Vec<ErrorRecovery> = Vec::new();
    let node = parse_single(&mut errors, stream("let ] x = 1")).unwrap();
    assert_eq!(node, Node::Error);
    assert_eq!(errors.len(), 1);
    assert_eq!(
        errors[0].error,
        ParseError::UnrecognizedToken {
            token: Some((4, Token::RBracket, 5)),
            expected: vec!["\"ident\"".to_string()]
        }
    );
    assert_eq!(errors[0].dropped_tokens.len(), 4);

    let mut errors: Vec<ErrorRecovery> = Vec::new();
    let node = parse_single(&mut errors, stream("let x ] = 1 + 2")).unwrap();
    assert_eq!(node, infix(Node::Error, "+", wrapped_int(2)));
    assert_eq!(errors.len(), 1);
    assert_eq!(errors[0].dropped_tokens.len(), 3);

    let mut errors: Vec<ErrorRecovery> = Vec::new();
    let nodes = parse(&mut errors, stream("let f(a ] ) = 1; 7")).unwrap();
    assert_eq!(nodes, vec![Node::Error, wrapped_int(7)]);
    assert_eq!(errors.len(), 1);

    let mut errors: Vec<ErrorRecovery> = Vec::new();
    let node = parse_single(&mut errors, stream("let")).unwrap();
    assert_eq!(node, Node::Error);
    assert_eq!(errors.len(), 1);
    assert_eq!(
        slide::error::try_humanize(&errors[0]),
        Some("Unexpected end of input".to_string())
    );
    assert!(errors[0].dropped_tokens.is_empty());
}

#[test]
fn what_stands_in_braces_is_dropped_with_them() {
    let mut errors: Vec<ErrorRecovery> = Vec::new();
    let nodes = parse(&mut errors, stream("let f() = { let g() = ] { 1; 2 }; 3 }; 4")).unwrap();
    assert_eq!(
        nodes,
        vec![
            Node::FunctionDef {
                name: "f".to_string(),
                params: vec![],
                body: vec![
                    Node::FunctionDef {
                        name: "g".to_string(),
                        params: vec![],
                        body: vec![Node::Error]
                    },
                    wrapped_int(3)
                ]
            },
            wrapped_int(4)
        ]
    );
    assert_eq!(errors.len(), 1);
    assert_eq!(errors[0].dropped_tokens.len(), 6);
}

#[test]
fn open_bracket_at_the_end_ends_the_parse() {
    for input in ["(1 + 2", "f(1", "f(1,", "let f() = { 1", "let f() = { 1;"] {
        let mut errors: Vec<ErrorRecovery> = Vec::new();
        match parse_single(&mut errors, stream(input)) {
            Err(ParseError::UnrecognizedToken { token: None, expected: _ }) => {}
            other => panic!("{}: {:?}", input, other),
        }
    }
}

#[test]
fn shift_of_integer_by_float_scales() {
    let mut ctx = EvalContext::new();
    assert_eq!(value_of(&mut ctx, "3 >> 1.0"), float(53, 1.5));
    assert_eq!(value_of(&mut ctx, "3 << 1.0"), float(53, 6.0));
}

#[test]
fn float_exponent_is_rounded_first() {
    let mut ctx = EvalContext::new();
    assert_eq!(value_of(&mut ctx, "2.0 ** 1.75"), float(53, 4.0));
    assert_eq!(value_of(&mut ctx, "2.0 ** 2.5"), float(53, 4.0));
    assert_eq!(value_of(&mut ctx, "2.0 ** 3"), float(53, 8.0));
}

#[test]
fn division_of_integers_is_float() {
    let mut ctx = EvalContext::new();
    assert_eq!(value_of(&mut ctx, "6 / 3"), float(53, 2.0));
    assert_ne!(value_of(&mut ctx, "6 / 3"), whole(2));
}

#[test]
fn multiplication_binds_tighter_than_addition() {
    assert_eq!(
        parse_str("1 + 2 * 3"),
        infix(wrapped_int(1), "+", infix(wrapped_int(2), "*", wrapped_int(3)))
    );
    let mut ctx = EvalContext::new();
    assert_eq!(value_of(&mut ctx, "1 + 2 * 3"), whole(7));
}

#[test]
fn power_binds_tighter_than_multiplication() {
    let mut ctx = EvalContext::new();
    assert_eq!(value_of(&mut ctx, "2 * 3 ** 2"), whole(18));
}

#[test]
fn shift_binds_tighter_than_power() {
    assert_eq!(
        parse_str("2 ** 1 << 3"),
        infix(wrapped_int(2), "**", infix(wrapped_int(1), "<<", wrapped_int(3)))
    );
    let mut ctx = EvalContext::new();
    assert_eq!(value_of(&mut ctx, "2 ** 1 << 3"), whole(256));
}

#[test]
fn subtraction_groups_to_the_left() {
    assert_eq!(
        parse_str("10 - 4 - 3"),
        infix(infix(wrapped_int(10), "-", wrapped_int(4)), "-", wrapped_int(3))
    );
    let mut ctx = EvalContext::new();
    assert_eq!(value_of(&mut ctx, "10 - 4 - 3"), whole(3));
}

#[test]
fn power_groups_to_the_right() {
    assert_eq!(
        parse_str("2 ** 3 ** 2"),
        infix(wrapped_int(2), "**", infix(wrapped_int(3), "**", wrapped_int(2)))
    );
    let mut ctx = EvalContext::new();
    assert_eq!(value_of(&mut ctx, "2 ** 3 ** 2"), whole(512));
}

#[test]
fn parentheses_group() {
    let mut ctx = EvalContext::new();
    assert_eq!(value_of(&mut ctx, "(1 + 2) * 3"), whole(9));
}

#[test]
fn undefined_identifier_is_zero() {
    let mut ctx = EvalContext::new();
    assert_eq!(value_of(&mut ctx, "nothing"), whole(0));
}

#[test]
fn undefined_function_is_zero() {
    let mut ctx = EvalContext::new();
    assert_eq!(value_of(&mut ctx, "nothing(1, 2)"), whole(0));
}

#[test]
fn let_binds_across_lines() {
    let mut ctx = EvalContext::new();
    assert_eq!(value_of(&mut ctx, "let x = 2 + 3"), whole(5));
    assert_eq!(value_of(&mut ctx, "x"), whole(5));
    assert_eq!(value_of(&mut ctx, "let x = x * 2"), whole(10));
    assert_eq!(value_of(&mut ctx, "x"), whole(10));
}

#[test]
fn unbound_parameter_is_zero() {
    let mut ctx = EvalContext::new();
    assert_eq!(value_of(&mut ctx, "let f(a, b) = a + b"), whole(0));
    assert_eq!(value_of(&mut ctx, "f(4)"), whole(4));
    assert_eq!(value_of(&mut ctx, "f(4, 5)"), whole(9));
    assert_eq!(value_of(&mut ctx, "f(4, 5, 6)"), whole(9));
}

#[test]
fn function_body_is_a_sequence() {
    let mut ctx = EvalContext::new();
    assert_eq!(value_of(&mut ctx, "let g(a) = { let y = a * 2; y + 1 }"), whole(0));
    assert_eq!(value_of(&mut ctx, "g(5)"), whole(11));
    assert_eq!(value_of(&mut ctx, "y"), whole(10));
}

#[test]
fn arguments_do_not_see_the_frame_of_the_callee() {
    let mut ctx = EvalContext::new();
    value_of(&mut ctx, "let a = 100");
    value_of(&mut ctx, "let inner(a) = a");
    value_of(&mut ctx, "let outer(b) = inner(a)");
    assert_eq!(value_of(&mut ctx, "outer(1)"), whole(100));
}

#[test]
fn prev_reads_and_clears() {
    let mut ctx = EvalContext::new();
    assert_eq!(value_of(&mut ctx, "#"), whole(0));
    assert_eq!(value_of(&mut ctx, "5"), whole(5));
    assert_eq!(ctx.last_result(), Some(whole(5)));
    assert_eq!(value_of(&mut ctx, "#"), whole(5));
    assert_eq!(value_of(&mut ctx, "# + #"), whole(5));
    assert_eq!(value_of(&mut ctx, "# * 2"), whole(10));
}

#[test]
fn definition_gives_zero_and_sets_last_result() {
    let mut ctx = EvalContext::new();
    assert_eq!(value_of(&mut ctx, "let f(a) = a"), whole(0));
    assert_eq!(ctx.last_result(), Some(whole(0)));
}

#[test]
fn pi_is_bound() {
    let mut ctx = EvalContext::new();
    assert_eq!(value_of(&mut ctx, "pi"), float(53, std::f64::consts::PI));
}

#[test]
fn builtin_applies_to_float_of_argument() {
    let mut ctx = EvalContext::new();
    assert_eq!(value_of(&mut ctx, "sin(0)"), float(53, 0.0));
    assert_eq!(value_of(&mut ctx, "cos(0)"), float(53, 1.0));
}

#[test]
fn string_is_sum_of_bytes() {
    let mut ctx = EvalContext::new();
    let r = ctx.eval(Node::String("AB".to_string()), &arith).unwrap();
    assert_eq!(r, whole(131));
}

#[test]
fn mixed_addition_takes_precision_of_float() {
    let mut ctx = EvalContext::new();
    assert_eq!(value_of(&mut ctx, "1 + 1.5"), float(53, 2.5));
    let wide = Number::Float(Float { prec: 80, value: from_f64(1.0) });
    let narrow = Number::Float(Float { prec: 24, value: from_f64(2.0) });
    match wide.add(narrow, &arith) {
        Number::Float(f) => assert_eq!(f.prec, 80),
        other => panic!("{:?}", other),
    }
}

#[test]
fn shift_of_float_scales() {
    let mut ctx = EvalContext::new();
    assert_eq!(value_of(&mut ctx, "1.5 << 2"), float(53, 6.0));
    assert_eq!(value_of(&mut ctx, "6.0 >> 2"), float(53, 1.5));
    assert_eq!(value_of(&mut ctx, "3 << 1.6"), float(53, 12.0));
}

#[test]
fn integer_power_of_float_exponent_rounds_exponent() {
    let mut ctx = EvalContext::new();
    assert_eq!(value_of(&mut ctx, "2 ** 2.5"), float(53, 4.0));
    assert_eq!(value_of(&mut ctx, "2 ** 3.5"), float(53, 16.0));
}

#[test]
fn endless_recursion_is_stopped() {
    let mut ctx = EvalContext::with_depth_limit(16);
    value_of(&mut ctx, "let f(x) = f(x)");
    assert_eq!(eval_line(&mut ctx, "f(1)", &arith), LineOutcome::Failed(EvalError::DepthExceeded));
    assert_eq!(value_of(&mut ctx, "1 + 1"), whole(2));
}

#[test]
fn one_unrecognized_token_is_one_error() {
    let mut errors: Vec<ErrorRecovery> = Vec::new();
    let node = parse_single(&mut errors, stream("2 * ] + 3")).unwrap();
    assert_eq!(
        node,
        infix(infix(wrapped_int(2), "*", Node::Error), "+", wrapped_int(3))
    );
    assert_eq!(errors.len(), 1);
    match &errors[0].error {
        ParseError::UnrecognizedToken { token: Some((4, Token::RBracket, 5)), expected } => {
            assert!(!expected.contains(&"\"operator\"".to_string()));
        }
        other => panic!("{:?}", other),
    }
    assert_eq!(errors[0].dropped_tokens, vec![(4, Token::RBracket, 5)]);
    assert!(!is_evaluable(&node));
}

#[test]
fn end_of_input_is_recovered() {
    let mut errors: Vec<ErrorRecovery> = Vec::new();
    let node = parse_single(&mut errors, stream("1 +")).unwrap();
    assert_eq!(node, infix(wrapped_int(1), "+", Node::Error));
    assert_eq!(errors.len(), 1);
    assert_eq!(
        errors[0].error,
        ParseError::UnrecognizedToken {
            token: None,
            expected: vec![
                "\"(\"".to_string(),
                "\"#\"".to_string(),
                "\"float\"".to_string(),
                "\"ident\"".to_string(),
                "\"int\"".to_string()
            ]
        }
    );
    assert!(errors[0].dropped_tokens.is_empty());
}

#[test]
fn missing_parenthesis_ends_the_parse() {
    let mut errors: Vec<ErrorRecovery> = Vec::new();
    let r = parse_single(&mut errors, stream("(1 + 2"));
    assert_eq!(
        r,
        Err(ParseError::UnrecognizedToken {
            token: None,
            expected: vec!["\")\"".to_string(), "\"operator\"".to_string()]
        })
    );
}

#[test]
fn error_in_stream_ends_the_parse() {
    let mut errors: Vec<ErrorRecovery> = Vec::new();
    let tokens = vec![Ok((0, Token::Prev, 1)), Err(Error::Rejected)];
    assert_eq!(parse(&mut errors, tokens), Err(ParseError::User { error: Error::Rejected }));
    assert!(errors.is_empty());
}

#[test]
fn program_is_statements_between_semicolons() {
    let mut errors: Vec<ErrorRecovery> = Vec::new();
    let nodes = parse(&mut errors, stream("1; 2 + 3;")).unwrap();
    assert_eq!(nodes, vec![wrapped_int(1), infix(wrapped_int(2), "+", wrapped_int(3))]);
    assert_eq!(parse(&mut errors, stream("")).unwrap(), vec![]);
    assert!(errors.is_empty());
}

#[test]
fn call_and_definition_are_parsed() {
    assert_eq!(
        parse_str("f(1, x)"),
        Node::FunctionCall {
            name: "f".to_string(),
            args: vec![wrapped_int(1), Node::Ident("x".to_string())]
        }
    );
    assert_eq!(
        parse_str("let f(a, b) = { a; b }"),
        Node::FunctionDef {
            name: "f".to_string(),
            params: vec!["a".to_string(), "b".to_string()],
            body: vec![Node::Ident("a".to_string()), Node::Ident("b".to_string())]
        }
    );
    assert_eq!(parse_str("let x = #"), Node::Let("x".to_string(), Box::new(Node::Prev)));
}

#[test]
fn line_with_only_first_statement_evaluated() {
    let mut ctx = EvalContext::new();
    assert_eq!(value_of(&mut ctx, "let a = 1; let b = 2"), whole(1));
    assert_eq!(value_of(&mut ctx, "b"), whole(0));
}

#[test]
fn line_outcomes() {
    let mut ctx = EvalContext::new();
    assert_eq!(eval_line(&mut ctx, "", &arith), LineOutcome::Nothing);
    assert!(matches!(eval_line(&mut ctx, "1 %", &arith), LineOutcome::Lexical(_)));
    assert!(matches!(eval_line(&mut ctx, "(1", &arith), LineOutcome::Fatal(_)));
    match eval_line(&mut ctx, "1 2", &arith) {
        LineOutcome::Recovered(errors) => assert_eq!(errors.len(), 1),
        other => panic!("{:?}", other),
    }
    match eval_line(&mut ctx, "1 + ]", &arith) {
        LineOutcome::Recovered(errors) => assert_eq!(errors.len(), 1),
        other => panic!("{:?}", other),
    }
    assert_eq!(ctx.last_result(), None);
}
