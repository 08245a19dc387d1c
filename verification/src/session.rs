//! One line of a session: from its text to what it gives.
use crate::ast::{
    nodes_view, recoveries_view, triple_view, Error, ErrorRecovery,
    ErrorRecoveryView, NodeView, ParseError, ParseErrorView, Triple,
};
use crate::eval::{evaluate, ContextView, EvalContext, EvalError};
use crate::float::FloatValue;
use crate::number::{dependable, FloatRequest, Number, NumberView};
use crate::parser::{
    first_error, law_clean_parse_is_evaluable, made, parse, parse_level, parse_node, parse_nodes,
    parse_operand, parse_power, parse_settle, parse_tail, parsed_program, program_of,
    stream_tokens, Context, Tokens,
};
use crate::scan::{in_class, is_digit, lemma_run_end_is, scan_at, scan_number, CharClass, Rule};
use crate::token::{
    digit_of, emit, integer_at, lemma_literal_is_word, lex_from, literal_value, token_at,
};
use crate::token::{lex, tokenize, tokens_view, ErrorView, Span, SpannedError, SpannedToken, TokenView};
use vstd::prelude::*;
use vstd::string::StringSliceAdditionalSpecFns;

verus! {

/// What a line gives.
#[derive(Debug, PartialEq, Eq)]
pub enum LineOutcome {
    /// The value of its first statement.
    Value(Number),
    /// The error in its text.
    Lexical(SpannedError),
    /// The error that ended its parse.
    Fatal(ParseError),
    /// The errors that its parse got over.
    Recovered(Vec<ErrorRecovery>),
    /// Nothing: it holds no statement.
    Nothing,
    /// The reason why its first statement has no value.
    Failed(EvalError),
}

/// The mathematical content of a `LineOutcome`.
pub enum LineView {
    Value(NumberView),
    Lexical((ErrorView, Option<Span>)),
    Fatal(ParseErrorView),
    Recovered(Seq<ErrorRecoveryView>),
    Nothing,
    Failed(EvalError),
}

impl View for LineOutcome {
    type V = LineView;

    open spec fn view(&self) -> LineView {
        match self {
            LineOutcome::Value(n) => LineView::Value(n@),
            LineOutcome::Lexical(e) => LineView::Lexical(e@),
            LineOutcome::Fatal(e) => LineView::Fatal(e@),
            LineOutcome::Recovered(errors) => LineView::Recovered(recoveries_view(errors@)),
            LineOutcome::Nothing => LineView::Nothing,
            LineOutcome::Failed(e) => LineView::Failed(*e),
        }
    }
}

/// The tokens of a line as the parser takes them: each with the offsets of
/// its span.
pub open spec fn triples_of(tokens: Seq<(TokenView, Span)>) -> Tokens {
    Seq::new(tokens.len(), |i: int| (tokens[i].1.start, tokens[i].0, tokens[i].1.end))
}

/// The state after a line, and what the line gave.
pub struct LineResult {
    pub context: ContextView,
    pub outcome: LineView,
}

/// What a line gives in a state.
///
/// The line is made into tokens and parsed as a program. An error in the
/// text, an error that ends the parse, or errors that the parse got over
/// are what the line gives, and the state stays as it is. Otherwise the
/// first statement is evaluated, and no other.
pub open spec fn line_result<A: Fn(FloatRequest) -> FloatValue>(
    arith: &A,
    ctx: ContextView,
    text: Seq<u8>,
) -> LineResult {
    match lex(arith, text) {
        Err(e) => LineResult { context: ctx, outcome: LineView::Lexical(e) },
        Ok(tokens) => {
            let parsed = program_of(triples_of(tokens));
            match parsed.result {
                Err(e) => LineResult { context: ctx, outcome: LineView::Fatal(e) },
                Ok(nodes) => if parsed.recorded.len() > 0 {
                    LineResult { context: ctx, outcome: LineView::Recovered(parsed.recorded) }
                } else if nodes.len() == 0 {
                    LineResult { context: ctx, outcome: LineView::Nothing }
                } else {
                    let e = evaluate(arith, ctx, nodes[0]);
                    LineResult {
                        context: e.context,
                        outcome: match e.result {
                            Ok(v) => LineView::Value(v),
                            Err(x) => LineView::Failed(x),
                        },
                    }
                },
            }
        },
    }
}

/// The tokens of a line as a stream for the parser.
pub fn stream_of(tokens: &Vec<SpannedToken>) -> (r: Vec<Result<Triple, Error>>)
    ensures
        first_error(r@, 0) is None,
        stream_tokens(r@) == triples_of(tokens_view(tokens@)),
{
    let mut out: Vec<Result<Triple, Error>> = Vec::new();
    let mut i: usize = 0;
    while i < tokens.len()
        invariant
            i <= tokens.len(),
            out@.len() == i,
            forall|j: int| 0 <= j < i ==> (#[trigger] out@[j]) is Ok,
            forall|j: int|
                0 <= j < i ==> triple_view((#[trigger] out@[j])->Ok_0) == triples_of(
                    tokens_view(tokens@),
                )[j],
        decreases tokens.len() - i,
    {
        let token = tokens[i].0.clone();
        out.push(Ok((tokens[i].1.start, token, tokens[i].1.end)));
        i += 1;
    }
    proof {
        lemma_no_error(out@, 0);
        assert(stream_tokens(out@) =~= triples_of(tokens_view(tokens@)));
    }
    out
}

/// A stream that holds tokens only has no first error.
pub proof fn lemma_no_error(stream: Seq<Result<Triple, Error>>, from: int)
    requires
        forall|j: int| 0 <= j < stream.len() ==> (#[trigger] stream[j]) is Ok,
    ensures
        first_error(stream, from) is None,
    decreases stream.len() - from,
{
    if 0 <= from < stream.len() {
        lemma_no_error(stream, from + 1);
    }
}

/// Evaluates a line of the session.
pub fn eval_line<A: Fn(FloatRequest) -> FloatValue>(
    context: &mut EvalContext,
    input: &str,
    arith: &A,
) -> (r: LineOutcome)
    requires
        old(context).well_formed(),
        dependable(arith),
    ensures
        final(context).well_formed(),
        final(context)@ == line_result(arith, old(context)@, input.spec_bytes()).context,
        r@ == line_result(arith, old(context)@, input.spec_bytes()).outcome,
{
    let tokens = match tokenize(input, arith) {
        Ok(tokens) => tokens,
        Err(e) => {
            return LineOutcome::Lexical(e);
        },
    };
    let stream = stream_of(&tokens);
    proof {
        law_clean_parse_is_evaluable(stream@);
    }
    let mut errors: Vec<ErrorRecovery> = Vec::new();
    assert(recoveries_view(errors@) =~= Seq::empty());
    let parsed = parse(&mut errors, stream);
    let ghost recorded = parsed_program(stream@).recorded;
    assert(recoveries_view(errors@) =~= recorded);
    let mut nodes = match parsed {
        Ok(nodes) => nodes,
        Err(e) => {
            return LineOutcome::Fatal(e);
        },
    };
    if errors.len() > 0 {
        return LineOutcome::Recovered(errors);
    }
    if nodes.len() == 0 {
        return LineOutcome::Nothing;
    }
    let ghost first = nodes_view(nodes@)[0];
    let node = nodes.swap_remove(0);
    assert(node@ == first);
    match context.eval(node, arith) {
        Ok(v) => LineOutcome::Value(v),
        Err(e) => LineOutcome::Failed(e),
    }
}

/// The one tree of a line that is a single integer token.
pub proof fn lemma_single_integer(t: Tokens, v: int)
    requires
        t.len() == 1,
        t[0].1 == TokenView::Integer(v),
    ensures
        program_of(t).result == Ok::<Seq<NodeView>, ParseErrorView>(
            seq![NodeView::Number(NumberView::Int(v))],
        ),
        program_of(t).recorded.len() == 0,
{
    let number = NodeView::Number(NumberView::Int(v));
    let none = Seq::<ErrorRecoveryView>::empty();
    let c = Context::Program;
    assert(parse_operand(t, 0, c) == made(number, 1));
    assert(parse_level(t, 0, 4, c) == made(number, 1));
    assert(parse_tail(t, 1, 3, number, c) == made(number, 1));
    assert(none + none =~= none);
    assert(parse_level(t, 0, 3, c) == made(number, 1));
    assert(parse_power(t, 1, number, c) == made(number, 1));
    assert(parse_level(t, 0, 2, c) == made(number, 1));
    assert(parse_tail(t, 1, 1, number, c) == made(number, 1));
    assert(parse_level(t, 0, 1, c) == made(number, 1));
    assert(parse_tail(t, 1, 0, number, c) == made(number, 1));
    assert(parse_level(t, 0, 0, c) == made(number, 1));
    assert(parse_settle(t, 1, c, number) == made(number, 1));
    assert(parse_node(t, 0, c) == made(number, 1));
    let step = parse_nodes(t, 0, Seq::empty(), false);
    assert(Seq::<NodeView>::empty().push(number) =~= seq![number]);
    assert(step.outcome == Ok::<(Seq<NodeView>, int), ParseErrorView>((seq![number], 1)));
    assert(step.recorded =~= none);
}

/// A line that is one integer literal gives the value of the literal.
pub proof fn lemma_literal_line<A: Fn(FloatRequest) -> FloatValue>(
    arith: &A,
    ctx: ContextView,
    text: Seq<u8>,
    rule: Rule,
    v: int,
)
    requires
        text.len() > 0,
        is_digit(text[0]),
        scan_number(text, 0) == (rule, text.len() as int),
        rule == Rule::Decimal || rule == Rule::Hex || rule == Rule::Binary,
        integer_at(rule, text) == Ok::<int, ErrorView>(v),
    ensures
        line_result(arith, ctx, text) == (LineResult {
            context: ContextView { last_result: Some(NumberView::Int(v)), ..ctx },
            outcome: LineView::Value(NumberView::Int(v)),
        }),
{
    let len = text.len() as int;
    let span = Span { start: 0usize, end: len as usize };
    let token = TokenView::Integer(v);
    assert(scan_at(text, 0) == Some((rule, len)));
    assert(text.subrange(0, len) =~= text);
    assert(token_at(arith, rule, text) == Ok::<Option<TokenView>, ErrorView>(Some(token)));
    let none = Seq::<(TokenView, Span)>::empty();
    let one = emit(none, token, span);
    assert(one =~= seq![(token, span)]);
    assert(lex_from(arith, text, len, one) == Ok::<
        Seq<(TokenView, Span)>,
        (ErrorView, Option<Span>),
    >(one));
    assert(lex(arith, text) == Ok::<Seq<(TokenView, Span)>, (ErrorView, Option<Span>)>(one));
    let t = triples_of(one);
    lemma_single_integer(t, v);
}

/// A line that is one decimal literal gives the number that its digits
/// stand for in base ten.
pub proof fn law_decimal_literal<A: Fn(FloatRequest) -> FloatValue>(
    arith: &A,
    ctx: ContextView,
    text: Seq<u8>,
)
    requires
        text.len() > 0,
        is_digit(text[0]),
        literal_value(text, 10) is Some,
    ensures
        line_result(arith, ctx, text).outcome == LineView::Value(
            NumberView::Int(literal_value(text, 10)->Some_0),
        ),
{
    let len = text.len() as int;
    lemma_literal_is_word(text, 10);
    lemma_run_end_is(text, 0, len, CharClass::Word);
    assert(text[len - 1] == 95 || digit_of(text[len - 1], 10) is Some);
    if len >= 2 {
        assert(text[1] == 95 || digit_of(text[1], 10) is Some);
    }
    lemma_literal_line(arith, ctx, text, Rule::Decimal, literal_value(text, 10)->Some_0);
}

/// A line that is `0x` and hexadecimal digits gives the number that the
/// digits stand for in base sixteen.
pub proof fn law_hex_literal<A: Fn(FloatRequest) -> FloatValue>(
    arith: &A,
    ctx: ContextView,
    digits: Seq<u8>,
)
    requires
        literal_value(digits, 16) is Some,
    ensures
        line_result(arith, ctx, seq![48u8, 120u8] + digits).outcome == LineView::Value(
            NumberView::Int(literal_value(digits, 16)->Some_0),
        ),
{
    let text = seq![48u8, 120u8] + digits;
    let len = text.len() as int;
    lemma_literal_is_word(digits, 16);
    assert forall|i: int| 0 <= i < len implies in_class(CharClass::Word, #[trigger] text[i]) by {
        if i >= 2 {
            assert(text[i] == digits[i - 2]);
        }
    }
    lemma_run_end_is(text, 0, len, CharClass::Word);
    assert(text.skip(2) =~= digits);
    lemma_literal_line(arith, ctx, text, Rule::Hex, literal_value(digits, 16)->Some_0);
}

/// A line that is hexadecimal digits, the first of them a decimal digit,
/// and `h` gives the number that the digits stand for in base sixteen.
pub proof fn law_hex_suffix_literal<A: Fn(FloatRequest) -> FloatValue>(
    arith: &A,
    ctx: ContextView,
    digits: Seq<u8>,
)
    requires
        digits.len() > 0,
        is_digit(digits[0]),
        literal_value(digits, 16) is Some,
    ensures
        line_result(arith, ctx, digits.push(104u8)).outcome == LineView::Value(
            NumberView::Int(literal_value(digits, 16)->Some_0),
        ),
{
    let text = digits.push(104u8);
    let len = text.len() as int;
    lemma_literal_is_word(digits, 16);
    assert forall|i: int| 0 <= i < len implies in_class(CharClass::Word, #[trigger] text[i]) by {
        if i < len - 1 {
            assert(text[i] == digits[i]);
        }
    }
    lemma_run_end_is(text, 0, len, CharClass::Word);
    if digits.len() >= 2 {
        assert(text[1] == digits[1]);
        assert(digits[1] == 95 || digit_of(digits[1], 16) is Some);
    }
    assert(text.drop_last() =~= digits);
    lemma_literal_line(arith, ctx, text, Rule::Hex, literal_value(digits, 16)->Some_0);
}

/// A line that is `0b` and binary digits gives the number that the digits
/// stand for in base two.
pub proof fn law_binary_literal<A: Fn(FloatRequest) -> FloatValue>(
    arith: &A,
    ctx: ContextView,
    digits: Seq<u8>,
)
    requires
        literal_value(digits, 2) is Some,
    ensures
        line_result(arith, ctx, seq![48u8, 98u8] + digits).outcome == LineView::Value(
            NumberView::Int(literal_value(digits, 2)->Some_0),
        ),
{
    let text = seq![48u8, 98u8] + digits;
    let len = text.len() as int;
    lemma_literal_is_word(digits, 2);
    assert(digits.len() > 0);
    assert forall|i: int| 0 <= i < len implies in_class(CharClass::Word, #[trigger] text[i]) by {
        if i >= 2 {
            assert(text[i] == digits[i - 2]);
        }
    }
    lemma_run_end_is(text, 0, len, CharClass::Word);
    assert(text[len - 1] == digits[digits.len() - 1]);
    assert(digits[digits.len() - 1] == 95 || digit_of(digits[digits.len() - 1], 2) is Some);
    assert(text.skip(2) =~= digits);
    lemma_literal_line(arith, ctx, text, Rule::Binary, literal_value(digits, 2)->Some_0);
}

} // verus!
