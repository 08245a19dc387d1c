//! From tokens to syntax trees.
//!
//! The grammar, from what binds least to what binds most:
//!
//! ```text
//! nodes    := [ node ( ";" node )* [ ";" ] ]
//! node     := "let" ident "=" level0
//!           | "let" ident "(" [ ident ( "," ident )* ] ")" "=" body
//!           | level0
//! body     := "{" nodes "}" | level0
//! level0   := level1 ( ( "+" | "-" ) level1 )*
//! level1   := level2 ( ( "*" | "/" ) level2 )*
//! level2   := level3 [ "**" level2 ]
//! level3   := operand ( ( "<<" | ">>" ) operand )*
//! operand  := int | float | "#" | ident [ "(" [ level0 ( "," level0 )* ] ")" ]
//!           | "(" level0 ")"
//! ```
//!
//! A token that does not fit where it stands is got over in two places.
//!
//! Where an operand is due and the token at hand begins none, `Node::Error`
//! stands for the operand, and the tokens from that one on are dropped up
//! to the next that may come after an operand there: an operator, or a
//! token that ends what the operand stands in. At the end of the input
//! nothing is dropped.
//!
//! Where a statement, an argument or an expression in parentheses is
//! complete and the token after it neither goes on with it nor ends it,
//! `Node::Error` stands for what was complete, that token and those after
//! it are dropped in the same way, and operators that follow go on from
//! the `Node::Error`.
//!
//! Where the head of a `let` is not well formed, `Node::Error` stands for
//! the statement, the tokens from the one that did not fit on are dropped
//! in the same way, and operators that follow go on from the `Node::Error`.
//!
//! Each time one error is recorded, with the token that did not fit and
//! the tokens that were dropped. What stands in parentheses or braces
//! among the dropped tokens is dropped with them. The parse is ended only where
//! nothing can be gone on with: by an error that came with the tokens, and
//! by the end of the input where a parenthesis or a brace is still open.
use crate::ast::{
    lemma_node_view_lists, names_view, nodes_view, recoveries_view, triple_view, triples_view,
    Error, ErrorRecovery, ErrorRecoveryView, Node, NodeView, ParseError, ParseErrorView, Triple,
};
use crate::ast::{opcode_of, same_text};
use crate::eval::{all_evaluable, evaluable, lemma_evaluable_lists};
use crate::number::{Number, NumberView};
use crate::token::{Token, TokenView};
use vstd::prelude::*;
use vstd::string::StringExecFns;

verus! {

/// Tokens by their content, with their offsets.
pub type Tokens = Seq<(usize, TokenView, usize)>;

/// What is wanted at a place where the token at hand does not fit.
#[derive(Copy, Clone, Debug, PartialEq, Eq, Structural)]
pub enum Wanted {
    /// An operand.
    Operand,
    /// The end of the input, unless an operator goes on.
    End,
    /// The end of a statement.
    Statement,
    /// The parenthesis that closes an operand.
    CloseParen,
    /// What follows an argument of a call.
    Argument,
    /// The name that `let` binds.
    Name,
    /// What follows the name that `let` binds.
    Binding,
    /// A parameter, or the end of the parameters.
    Parameter,
    /// What follows a parameter.
    NextParameter,
    /// The equals sign of a definition.
    Equals,
    /// The end of a statement in a block.
    Block,
}

/// The names of the tokens that fit at a place.
pub open spec fn expected_for(w: Wanted) -> Seq<Seq<char>> {
    match w {
        Wanted::Operand => seq![
            "\"(\""@,
            "\"#\""@,
            "\"float\""@,
            "\"ident\""@,
            "\"int\""@,
        ],
        Wanted::End => seq!["\"operator\""@],
        Wanted::Statement => seq!["\";\""@, "\"operator\""@],
        Wanted::CloseParen => seq!["\")\""@, "\"operator\""@],
        Wanted::Argument => seq!["\")\""@, "\",\""@, "\"operator\""@],
        Wanted::Name => seq!["\"ident\""@],
        Wanted::Binding => seq!["\"(\""@, "\"=\""@],
        Wanted::Parameter => seq!["\")\""@, "\"ident\""@],
        Wanted::NextParameter => seq!["\")\""@, "\",\""@],
        Wanted::Equals => seq!["\"=\""@],
        Wanted::Block => seq!["\";\""@, "\"operator\""@, "\"}\""@],
    }
}

/// The error for the token at `pos`, or for the end of the input there.
pub open spec fn unexpected(t: Tokens, pos: int, w: Wanted) -> ParseErrorView {
    ParseErrorView::UnrecognizedToken {
        token: if 0 <= pos < t.len() {
            Some(t[pos])
        } else {
            None
        },
        expected: expected_for(w),
    }
}

/// Where in the grammar a statement or an expression stands. This decides
/// which tokens end it.
#[derive(Copy, Clone, Debug, PartialEq, Eq, Structural)]
pub enum Context {
    /// The one statement of `parse_single`: nothing but the end of the
    /// input ends it.
    Single,
    /// A statement of a program: a semicolon ends it.
    Program,
    /// An expression in parentheses: the closing parenthesis ends it.
    Paren,
    /// An argument of a call: a comma or the closing parenthesis ends it.
    Args,
    /// A statement of a block: a semicolon or the closing brace ends it.
    Block,
}

/// What is named as wanted where a token does not fit after what is
/// complete in a context.
pub open spec fn wanted_in(c: Context) -> Wanted {
    match c {
        Context::Single => Wanted::End,
        Context::Program => Wanted::Statement,
        Context::Paren => Wanted::CloseParen,
        Context::Args => Wanted::Argument,
        Context::Block => Wanted::Block,
    }
}

/// Whether a token ends what stands in a context.
pub open spec fn closes(c: Context, token: TokenView) -> bool {
    match c {
        Context::Single => false,
        Context::Program => token == TokenView::Semicolon,
        Context::Paren => token == TokenView::RParen,
        Context::Args => token == TokenView::Comma || token == TokenView::RParen,
        Context::Block => token == TokenView::Semicolon || token == TokenView::RBrace,
    }
}

/// Whether a token is an operator of the grammar.
pub open spec fn is_operator(token: TokenView) -> bool {
    match token {
        TokenView::Operator(text) => level_of(text) is Some,
        _ => false,
    }
}

/// Whether a token may come after an operand in a context: an operator, or
/// a token that ends what stands there.
pub open spec fn follows(c: Context, token: TokenView) -> bool {
    is_operator(token) || closes(c, token)
}

/// Whether a token opens parentheses or braces.
pub open spec fn opens(token: TokenView) -> bool {
    token == TokenView::LParen || token == TokenView::LBrace
}

/// Whether a token closes parentheses or braces.
pub open spec fn shuts(token: TokenView) -> bool {
    token == TokenView::RParen || token == TokenView::RBrace
}

/// Where the dropping of tokens that begins at `pos` stops: at the first
/// token outside of parentheses and braces that may come after an operand,
/// or at the
/// end of the input. `depth` counts the parentheses and braces that were
/// opened among the dropped tokens and are not closed yet: what stands in
/// them is dropped with them.
pub open spec fn skip_end(t: Tokens, pos: int, c: Context, depth: nat) -> int
    decreases left(t, pos),
{
    if 0 <= pos < t.len() {
        if depth == 0 && follows(c, t[pos].1) {
            pos
        } else if opens(t[pos].1) {
            skip_end(t, pos + 1, c, depth + 1)
        } else if shuts(t[pos].1) && depth > 0 {
            skip_end(t, pos + 1, c, (depth - 1) as nat)
        } else {
            skip_end(t, pos + 1, c, depth)
        }
    } else {
        pos
    }
}

/// The record of a token at `pos` that did not fit, or of the end of the
/// input there, with the tokens from `pos` up to `end` dropped.
pub open spec fn entry(t: Tokens, pos: int, end: int, w: Wanted) -> ErrorRecoveryView {
    ErrorRecoveryView {
        error: unexpected(t, pos, w),
        dropped_tokens: if 0 <= pos <= end <= t.len() {
            t.subrange(pos, end)
        } else {
            Seq::empty()
        },
    }
}

/// How far a part of the parse got: what it made and where it stopped, or
/// the error that ended the parse; and the errors that it got over.
pub struct Step<T> {
    pub outcome: Result<(T, int), ParseErrorView>,
    pub recorded: Seq<ErrorRecoveryView>,
}

/// A step that made `value` and stopped at `next`.
pub open spec fn made<T>(value: T, next: int) -> Step<T> {
    Step { outcome: Ok((value, next)), recorded: Seq::empty() }
}

/// A step that ended the parse.
pub open spec fn failed<T>(error: ParseErrorView) -> Step<T> {
    Step { outcome: Err(error), recorded: Seq::empty() }
}

/// A step after errors that were got over before it.
pub open spec fn after<T>(earlier: Seq<ErrorRecoveryView>, step: Step<T>) -> Step<T> {
    Step { outcome: step.outcome, recorded: earlier + step.recorded }
}

/// How many tokens are left at `pos`.
pub open spec fn left(t: Tokens, pos: int) -> nat {
    if pos <= t.len() {
        (t.len() - pos) as nat
    } else {
        0
    }
}

/// How tightly an operator binds: the level of the grammar it belongs to.
pub open spec fn level_of(text: Seq<char>) -> Option<nat> {
    if text == "+"@ || text == "-"@ {
        Some(0nat)
    } else if text == "*"@ || text == "/"@ {
        Some(1nat)
    } else if text == "**"@ {
        Some(2nat)
    } else if text == "<<"@ || text == ">>"@ {
        Some(3nat)
    } else {
        None
    }
}

/// The operator of a level that stands at `pos`, if one does.
pub open spec fn operator_at(t: Tokens, pos: int, level: nat) -> Option<Seq<char>> {
    if 0 <= pos < t.len() {
        match t[pos].1 {
            TokenView::Operator(text) => if level_of(text) == Some(level) {
                Some(text)
            } else {
                None
            },
            _ => None,
        }
    } else {
        None
    }
}

/// Whether the token at `pos` is `token`.
pub open spec fn stands_at(t: Tokens, pos: int, token: TokenView) -> bool {
    0 <= pos < t.len() && t[pos].1 == token
}

/// The node of two operands and the operator between them.
pub open spec fn infix(lhs: NodeView, op: Seq<char>, rhs: NodeView) -> NodeView {
    NodeView::Infix { lhs: Box::new(lhs), op, rhs: Box::new(rhs) }
}

/// An operand at `pos`.
pub open spec fn parse_operand(t: Tokens, pos: int, c: Context) -> Step<NodeView>
    decreases left(t, pos), 0nat, 0nat,
{
    if pos < 0 || pos >= t.len() {
        Step {
            outcome: Ok((NodeView::Error, pos)),
            recorded: seq![entry(t, pos, pos, Wanted::Operand)],
        }
    } else {
        match t[pos].1 {
            TokenView::Integer(v) => made(NodeView::Number(NumberView::Int(v)), pos + 1),
            TokenView::Float(f) => made(NodeView::Number(NumberView::Float(f)), pos + 1),
            TokenView::Prev => made(NodeView::Prev, pos + 1),
            TokenView::Ident(name) => if stands_at(t, pos + 1, TokenView::LParen) {
                let step = parse_arguments(t, pos + 2, Seq::empty());
                match step.outcome {
                    Ok((args, next)) => Step {
                        outcome: Ok((NodeView::FunctionCall { name, args }, next)),
                        recorded: step.recorded,
                    },
                    Err(e) => Step { outcome: Err(e), recorded: step.recorded },
                }
            } else {
                made(NodeView::Ident(name), pos + 1)
            },
            TokenView::LParen => {
                let step = parse_settled(t, pos + 1, Context::Paren);
                match step.outcome {
                    Ok((node, next)) => if stands_at(t, next, TokenView::RParen) {
                        Step { outcome: Ok((node, next + 1)), recorded: step.recorded }
                    } else {
                        Step {
                            outcome: Err(unexpected(t, next, Wanted::CloseParen)),
                            recorded: step.recorded,
                        }
                    },
                    Err(e) => step,
                }
            },
            _ => {
                let end = skip_end(t, pos, c, 0);
                Step {
                    outcome: Ok((NodeView::Error, end)),
                    recorded: seq![entry(t, pos, end, Wanted::Operand)],
                }
            },
        }
    }
}

/// The arguments of a call from `pos` on, after those in `done`, up to and
/// with the parenthesis that closes them.
pub open spec fn parse_arguments(t: Tokens, pos: int, done: Seq<NodeView>) -> Step<Seq<NodeView>>
    decreases left(t, pos), 8nat, 0nat,
{
    if done.len() == 0 && stands_at(t, pos, TokenView::RParen) {
        made(done, pos + 1)
    } else {
        let step = parse_settled(t, pos, Context::Args);
        match step.outcome {
            Ok((node, next)) => if stands_at(t, next, TokenView::Comma) && next >= pos {
                after(step.recorded, parse_arguments(t, next + 1, done.push(node)))
            } else if stands_at(t, next, TokenView::RParen) {
                Step { outcome: Ok((done.push(node), next + 1)), recorded: step.recorded }
            } else {
                Step {
                    outcome: Err(unexpected(t, next, Wanted::Argument)),
                    recorded: step.recorded,
                }
            },
            Err(e) => Step { outcome: Err(e), recorded: step.recorded },
        }
    }
}

/// An expression of a level of the grammar at `pos`; the levels from four
/// on are the operand.
pub open spec fn parse_level(t: Tokens, pos: int, level: nat, c: Context) -> Step<NodeView>
    decreases left(t, pos),
        (if level < 4 {
            5 - level
        } else {
            1
        }) as nat,
        1nat,
{
    if level >= 4 {
        parse_operand(t, pos, c)
    } else {
        let first = parse_level(t, pos, level + 1, c);
        match first.outcome {
            Ok((lhs, next)) => if next < pos {
                first
            } else if level == 2 {
                after(first.recorded, parse_power(t, next, lhs, c))
            } else {
                after(first.recorded, parse_tail(t, next, level, lhs, c))
            },
            Err(e) => first,
        }
    }
}

/// What follows the left side `lhs` of a power: the operator `**` and the
/// power after it, or nothing.
pub open spec fn parse_power(t: Tokens, pos: int, lhs: NodeView, c: Context) -> Step<NodeView>
    decreases left(t, pos), 3nat, 0nat,
{
    match operator_at(t, pos, 2) {
        Some(op) => {
            let rest = parse_level(t, pos + 1, 2, c);
            match rest.outcome {
                Ok((rhs, end)) => Step {
                    outcome: Ok((infix(lhs, op, rhs), end)),
                    recorded: rest.recorded,
                },
                Err(e) => rest,
            }
        },
        None => made(lhs, pos),
    }
}

/// What follows an expression `lhs` of a level that groups to the left:
/// operators of the level, each with the expression after it.
pub open spec fn parse_tail(t: Tokens, pos: int, level: nat, lhs: NodeView, c: Context) -> Step<
    NodeView,
>
    decreases left(t, pos),
        (if level < 4 {
            5 - level
        } else {
            1
        }) as nat,
        0nat,
{
    match operator_at(t, pos, level) {
        Some(op) => {
            let step = parse_level(t, pos + 1, level + 1, c);
            match step.outcome {
                Ok((rhs, next)) => if next > pos {
                    after(step.recorded, parse_tail(t, next, level, infix(lhs, op, rhs), c))
                } else {
                    step
                },
                Err(e) => step,
            }
        },
        None => made(lhs, pos),
    }
}

/// The expression that goes on from `lhs` at `pos`, where `lhs` stands for
/// an operand: the operators of every level that follow, each with its
/// right side. First come the shifts.
pub open spec fn parse_resume(t: Tokens, pos: int, c: Context, lhs: NodeView) -> Step<NodeView>
    decreases left(t, pos), 6nat, 2nat,
{
    let shifts = parse_tail(t, pos, 3, lhs, c);
    match shifts.outcome {
        Ok((a, next)) => if next < pos {
            shifts
        } else {
            after(shifts.recorded, parse_resume_power(t, next, c, a))
        },
        Err(e) => shifts,
    }
}

/// The expression that goes on from `lhs`, which stands for a chain of
/// shifts: a power, then products and sums.
pub open spec fn parse_resume_power(t: Tokens, pos: int, c: Context, lhs: NodeView) -> Step<
    NodeView,
>
    decreases left(t, pos), 6nat, 1nat,
{
    let power = parse_power(t, pos, lhs, c);
    match power.outcome {
        Ok((b, next)) => if next < pos {
            power
        } else {
            after(power.recorded, parse_resume_products(t, next, c, b))
        },
        Err(e) => power,
    }
}

/// The expression that goes on from `lhs`, which stands for a power:
/// products, then sums.
pub open spec fn parse_resume_products(t: Tokens, pos: int, c: Context, lhs: NodeView) -> Step<
    NodeView,
>
    decreases left(t, pos), 6nat, 0nat,
{
    let products = parse_tail(t, pos, 1, lhs, c);
    match products.outcome {
        Ok((d, next)) => if next < pos {
            products
        } else {
            after(products.recorded, parse_tail(t, next, 0, d, c))
        },
        Err(e) => products,
    }
}

/// What is made of a statement whose head is not well formed at `pos`:
/// the token there, or the end of the input, is recorded with what was
/// wanted, the tokens from `pos` on are dropped up to one that may follow,
/// `Node::Error` stands for the statement, and the operators that follow
/// go on from it.
pub open spec fn parse_recover(t: Tokens, pos: int, w: Wanted, c: Context) -> Step<NodeView>
    decreases left(t, pos), 6nat, 4nat,
{
    let end = skip_end(t, pos, c, 0);
    let first = seq![entry(t, pos, end, w)];
    if end < pos {
        Step { outcome: Ok((NodeView::Error, pos)), recorded: first }
    } else {
        after(first, parse_resume(t, end, c, NodeView::Error))
    }
}

/// What becomes of `node`, which is complete at `pos`, in a context. Where
/// the input ends at `pos`, or the token there ends what stands in the
/// context, it is `node`. Otherwise the token does not fit: it is
/// recorded, it and the tokens after it are dropped up to one that may
/// follow, `Node::Error` stands for `node`, and the operators that follow
/// go on from it.
pub open spec fn parse_settle(t: Tokens, pos: int, c: Context, node: NodeView) -> Step<NodeView>
    decreases left(t, pos), 6nat, 3nat,
{
    if pos < 0 || pos >= t.len() || closes(c, t[pos].1) {
        made(node, pos)
    } else {
        let end = skip_end(t, pos + 1, c, 0);
        let first = seq![entry(t, pos, end, wanted_in(c))];
        if end <= pos {
            Step { outcome: Ok((NodeView::Error, pos)), recorded: first }
        } else {
            let rest = after(first, parse_resume(t, end, c, NodeView::Error));
            match rest.outcome {
                Ok((other, next)) => if next < end {
                    rest
                } else {
                    after(rest.recorded, parse_settle(t, next, c, other))
                },
                Err(e) => rest,
            }
        }
    }
}

/// An expression at `pos` up to a token that ends it in its context, or
/// to the end of the input.
pub open spec fn parse_settled(t: Tokens, pos: int, c: Context) -> Step<NodeView>
    decreases left(t, pos), 7nat, 0nat,
{
    let first = parse_level(t, pos, 0, c);
    match first.outcome {
        Ok((node, next)) => if next < pos {
            first
        } else {
            after(first.recorded, parse_settle(t, next, c, node))
        },
        Err(e) => first,
    }
}

/// How far the parameters of a definition got: their names and where the
/// parse stands after them, or the place where a token did not fit and
/// what was wanted there.
pub enum Parameters {
    Done { names: Seq<Seq<char>>, next: int },
    Stuck { pos: int, wanted: Wanted },
}

/// The parameters of a definition from `pos` on, after those in `done`, up
/// to and with the parenthesis that closes them.
pub open spec fn parse_parameters(t: Tokens, pos: int, done: Seq<Seq<char>>) -> Parameters
    decreases left(t, pos),
{
    if done.len() == 0 && stands_at(t, pos, TokenView::RParen) {
        Parameters::Done { names: done, next: pos + 1 }
    } else if 0 <= pos < t.len() && t[pos].1 is Ident {
        let name = t[pos].1->Ident_0;
        if stands_at(t, pos + 1, TokenView::Comma) {
            parse_parameters(t, pos + 2, done.push(name))
        } else if stands_at(t, pos + 1, TokenView::RParen) {
            Parameters::Done { names: done.push(name), next: pos + 2 }
        } else {
            Parameters::Stuck { pos: pos + 1, wanted: Wanted::NextParameter }
        }
    } else {
        Parameters::Stuck { pos, wanted: Wanted::Parameter }
    }
}

/// What follows `let` at `pos`: a binding of a value or a definition of a
/// function. Where the head is not well formed, `Node::Error` stands for
/// the statement.
pub open spec fn parse_binding(t: Tokens, pos: int, c: Context) -> Step<NodeView>
    decreases left(t, pos), 10nat, 0nat,
{
    if 0 <= pos < t.len() && t[pos].1 is Ident {
        let name = t[pos].1->Ident_0;
        if stands_at(t, pos + 1, TokenView::Equals) {
            let step = parse_level(t, pos + 2, 0, c);
            match step.outcome {
                Ok((value, next)) => Step {
                    outcome: Ok((NodeView::Let(name, Box::new(value)), next)),
                    recorded: step.recorded,
                },
                Err(e) => step,
            }
        } else if stands_at(t, pos + 1, TokenView::LParen) {
            match parse_parameters(t, pos + 2, Seq::empty()) {
                Parameters::Done { names, next } => if next <= pos {
                    made(NodeView::Error, pos)
                } else if !stands_at(t, next, TokenView::Equals) {
                    parse_recover(t, next, Wanted::Equals, c)
                } else {
                    let step = parse_body(t, next + 1, c);
                    match step.outcome {
                        Ok((body, end)) => Step {
                            outcome: Ok(
                                (NodeView::FunctionDef { name, params: names, body }, end),
                            ),
                            recorded: step.recorded,
                        },
                        Err(e) => Step { outcome: Err(e), recorded: step.recorded },
                    }
                },
                Parameters::Stuck { pos: stuck, wanted } => if stuck < pos {
                    made(NodeView::Error, pos)
                } else {
                    parse_recover(t, stuck, wanted, c)
                },
            }
        } else {
            parse_recover(t, pos + 1, Wanted::Binding, c)
        }
    } else {
        parse_recover(t, pos, Wanted::Name, c)
    }
}

/// The body of a definition at `pos`: a block in braces, or one expression.
pub open spec fn parse_body(t: Tokens, pos: int, c: Context) -> Step<Seq<NodeView>>
    decreases left(t, pos), 9nat, 0nat,
{
    if stands_at(t, pos, TokenView::LBrace) {
        parse_nodes(t, pos + 1, Seq::empty(), true)
    } else {
        let step = parse_level(t, pos, 0, c);
        match step.outcome {
            Ok((node, next)) => Step { outcome: Ok((seq![node], next)), recorded: step.recorded },
            Err(e) => Step { outcome: Err(e), recorded: step.recorded },
        }
    }
}

/// A statement at `pos`, up to a token that ends it in its context or to
/// the end of the input.
pub open spec fn parse_node(t: Tokens, pos: int, c: Context) -> Step<NodeView>
    decreases left(t, pos), 11nat, 0nat,
{
    let first = if stands_at(t, pos, TokenView::Let) {
        parse_binding(t, pos + 1, c)
    } else {
        parse_level(t, pos, 0, c)
    };
    match first.outcome {
        Ok((node, next)) => if next < pos {
            first
        } else {
            after(first.recorded, parse_settle(t, next, c, node))
        },
        Err(e) => first,
    }
}

/// Whether a list of statements ends at `pos`: at the closing brace in a
/// block, at the end of the input elsewhere.
pub open spec fn list_ends(t: Tokens, pos: int, block: bool) -> bool {
    if block {
        stands_at(t, pos, TokenView::RBrace)
    } else {
        pos >= t.len()
    }
}

/// Where the parse stands after a list of statements that ends at `pos`.
pub open spec fn after_list(pos: int, block: bool) -> int {
    if block {
        pos + 1
    } else {
        pos
    }
}

/// The context of the statements of a list.
pub open spec fn list_context(block: bool) -> Context {
    if block {
        Context::Block
    } else {
        Context::Program
    }
}

/// Statements with semicolons between them from `pos` on, after those in
/// `done`. A semicolon may also stand after the last one.
pub open spec fn parse_nodes(t: Tokens, pos: int, done: Seq<NodeView>, block: bool) -> Step<
    Seq<NodeView>,
>
    decreases left(t, pos), 12nat, 0nat,
{
    if list_ends(t, pos, block) {
        made(done, after_list(pos, block))
    } else {
        let step = parse_node(t, pos, list_context(block));
        match step.outcome {
            Ok((node, next)) => if stands_at(t, next, TokenView::Semicolon) && next >= pos {
                after(step.recorded, parse_nodes(t, next + 1, done.push(node), block))
            } else if list_ends(t, next, block) {
                Step {
                    outcome: Ok((done.push(node), after_list(next, block))),
                    recorded: step.recorded,
                }
            } else {
                Step {
                    outcome: Err(unexpected(t, next, wanted_in(list_context(block)))),
                    recorded: step.recorded,
                }
            },
            Err(e) => Step { outcome: Err(e), recorded: step.recorded },
        }
    }
}

/// What a parse gives: the tree or the error that ended it, and the errors
/// that it got over.
pub struct Parse<T> {
    pub result: Result<T, ParseErrorView>,
    pub recorded: Seq<ErrorRecoveryView>,
}

/// The tokens of a stream that has no error in it, by their content.
pub open spec fn stream_tokens(stream: Seq<Result<Triple, Error>>) -> Tokens {
    Seq::new(
        stream.len(),
        |i: int|
            match stream[i] {
                Ok(triple) => triple_view(triple),
                Err(_) => (0usize, TokenView::Prev, 0usize),
            },
    )
}

/// The first error in a stream of tokens, counted from `from`.
pub open spec fn first_error(stream: Seq<Result<Triple, Error>>, from: int) -> Option<Error>
    decreases stream.len() - from,
{
    if from < 0 || from >= stream.len() {
        None
    } else {
        match stream[from] {
            Err(e) => Some(e),
            Ok(_) => first_error(stream, from + 1),
        }
    }
}

/// The program that some tokens spell: its statements in order.
pub open spec fn program_of(t: Tokens) -> Parse<Seq<NodeView>> {
    let step = parse_nodes(t, 0, Seq::empty(), false);
    Parse {
        result: match step.outcome {
            Ok((nodes, _)) => Ok(nodes),
            Err(e) => Err(e),
        },
        recorded: step.recorded,
    }
}

/// The one statement that some tokens spell.
pub open spec fn single_of(t: Tokens) -> Parse<NodeView> {
    let step = parse_node(t, 0, Context::Single);
    Parse {
        result: match step.outcome {
            Ok((node, _)) => Ok(node),
            Err(e) => Err(e),
        },
        recorded: step.recorded,
    }
}

/// Whether what a part of the parser gave is what the grammar says.
pub open spec fn agrees(r: Result<(Node, usize), ParseError>, step: Step<NodeView>) -> bool {
    match (r, step.outcome) {
        (Ok((node, next)), Ok((v, n))) => node@ == v && next == n,
        (Err(e), Err(v)) => e@ == v,
        _ => false,
    }
}

/// The same for a part that gives a list of nodes.
pub open spec fn list_agrees(
    r: Result<(Vec<Node>, usize), ParseError>,
    step: Step<Seq<NodeView>>,
) -> bool {
    match (r, step.outcome) {
        (Ok((nodes, next)), Ok((v, n))) => nodes_view(nodes@) == v && next == n,
        (Err(e), Err(v)) => e@ == v,
        _ => false,
    }
}

/// The names of the tokens that fit at a place.
pub fn expected(w: Wanted) -> (r: Vec<String>)
    ensures
        names_view(r@) == expected_for(w),
{
    let mut out: Vec<String> = Vec::new();
    match w {
        Wanted::Operand => {
            out.push(String::from_str("\"(\""));
            out.push(String::from_str("\"#\""));
            out.push(String::from_str("\"float\""));
            out.push(String::from_str("\"ident\""));
            out.push(String::from_str("\"int\""));
        },
        Wanted::End => {
            out.push(String::from_str("\"operator\""));
        },
        Wanted::Statement => {
            out.push(String::from_str("\";\""));
            out.push(String::from_str("\"operator\""));
        },
        Wanted::CloseParen => {
            out.push(String::from_str("\")\""));
            out.push(String::from_str("\"operator\""));
        },
        Wanted::Argument => {
            out.push(String::from_str("\")\""));
            out.push(String::from_str("\",\""));
            out.push(String::from_str("\"operator\""));
        },
        Wanted::Name => {
            out.push(String::from_str("\"ident\""));
        },
        Wanted::Binding => {
            out.push(String::from_str("\"(\""));
            out.push(String::from_str("\"=\""));
        },
        Wanted::Parameter => {
            out.push(String::from_str("\")\""));
            out.push(String::from_str("\"ident\""));
        },
        Wanted::NextParameter => {
            out.push(String::from_str("\")\""));
            out.push(String::from_str("\",\""));
        },
        Wanted::Equals => {
            out.push(String::from_str("\"=\""));
        },
        Wanted::Block => {
            out.push(String::from_str("\";\""));
            out.push(String::from_str("\"operator\""));
            out.push(String::from_str("\"}\""));
        },
    }
    assert(names_view(out@) =~= expected_for(w));
    out
}

/// A copy of a token with its offsets.
fn clone_triple(t: &Triple) -> (r: Triple)
    ensures
        triple_view(r) == triple_view(*t),
{
    (t.0, t.1.clone(), t.2)
}

/// The error for the token at `pos`, or for the end of the input there.
fn unexpected_at(t: &Vec<Triple>, pos: usize, w: Wanted) -> (r: ParseError)
    ensures
        r@ == unexpected(triples_view(t@), pos as int, w),
{
    let token = if pos < t.len() {
        Some(clone_triple(&t[pos]))
    } else {
        None
    };
    ParseError::UnrecognizedToken { token, expected: expected(w) }
}

/// Records a token at `pos` that did not fit, or the end of the input
/// there, with the tokens from `pos` up to `end` dropped.
fn record(t: &Vec<Triple>, pos: usize, end: usize, w: Wanted, errors: &mut Vec<ErrorRecovery>)
    requires
        pos <= end <= t.len(),
    ensures
        recoveries_view(final(errors)@) == recoveries_view(old(errors)@).push(
            entry(triples_view(t@), pos as int, end as int, w),
        ),
{
    let ghost tv = triples_view(t@);
    let mut dropped: Vec<Triple> = Vec::new();
    let mut i: usize = pos;
    assert(triples_view(dropped@) =~= tv.subrange(pos as int, pos as int));
    while i < end
        invariant
            pos <= i <= end <= t.len(),
            tv == triples_view(t@),
            triples_view(dropped@) == tv.subrange(pos as int, i as int),
        decreases end - i,
    {
        let ghost before = triples_view(dropped@);
        let one = clone_triple(&t[i]);
        assert(triple_view(one) == tv[i as int]);
        dropped.push(one);
        i += 1;
        assert(triples_view(dropped@) =~= before.push(triple_view(one)));
        assert(before.push(triple_view(one)) =~= tv.subrange(pos as int, i as int));
    }
    let item = ErrorRecovery { error: unexpected_at(t, pos, w), dropped_tokens: dropped };
    errors.push(item);
    assert(recoveries_view(errors@) =~= recoveries_view(old(errors)@).push(
        entry(tv, pos as int, end as int, w),
    ));
}

/// What is named as wanted after what is complete in a context.
fn wanted(c: Context) -> (w: Wanted)
    ensures
        w == wanted_in(c),
{
    match c {
        Context::Single => Wanted::End,
        Context::Program => Wanted::Statement,
        Context::Paren => Wanted::CloseParen,
        Context::Args => Wanted::Argument,
        Context::Block => Wanted::Block,
    }
}

/// Whether the token at `pos` is the given one of those that hold nothing.
fn token_is(t: &Vec<Triple>, pos: usize, which: &Token) -> (r: bool)
    requires
        which is Let || which is Prev || which is Comma || which is Semicolon || which is Equals
            || which is LParen || which is RParen || which is LBracket || which is RBracket
            || which is LBrace || which is RBrace,
    ensures
        r == stands_at(triples_view(t@), pos as int, which@),
{
    if pos >= t.len() {
        return false;
    }
    match (&t[pos].1, which) {
        (Token::Let, Token::Let) => true,
        (Token::Prev, Token::Prev) => true,
        (Token::Comma, Token::Comma) => true,
        (Token::Semicolon, Token::Semicolon) => true,
        (Token::Equals, Token::Equals) => true,
        (Token::LParen, Token::LParen) => true,
        (Token::RParen, Token::RParen) => true,
        (Token::LBracket, Token::LBracket) => true,
        (Token::RBracket, Token::RBracket) => true,
        (Token::LBrace, Token::LBrace) => true,
        (Token::RBrace, Token::RBrace) => true,
        _ => false,
    }
}

/// How tightly an operator binds.
fn level_of_text(text: &str) -> (r: Option<u8>)
    ensures
        match r {
            Some(l) => level_of(text@) == Some(l as nat),
            None => level_of(text@) is None,
        },
{
    if same_text(text, "+") || same_text(text, "-") {
        Some(0)
    } else if same_text(text, "*") || same_text(text, "/") {
        Some(1)
    } else if same_text(text, "**") {
        Some(2)
    } else if same_text(text, "<<") || same_text(text, ">>") {
        Some(3)
    } else {
        None
    }
}

/// The operator of a level that stands at `pos`.
fn find_operator(t: &Vec<Triple>, pos: usize, level: u8) -> (r: Option<String>)
    ensures
        match r {
            Some(op) => operator_at(triples_view(t@), pos as int, level as nat) == Some(op@),
            None => operator_at(triples_view(t@), pos as int, level as nat) is None,
        },
{
    if pos >= t.len() {
        return None;
    }
    match &t[pos].1 {
        Token::Operator(text) => match level_of_text(text.as_str()) {
            Some(l) => if l == level {
                Some(text.clone())
            } else {
                None
            },
            None => None,
        },
        _ => None,
    }
}

/// Whether the token at `pos` ends what stands in a context.
fn closes_at(t: &Vec<Triple>, pos: usize, c: Context) -> (r: bool)
    ensures
        r == (pos < t.len() && closes(c, triples_view(t@)[pos as int].1)),
{
    if pos >= t.len() {
        return false;
    }
    match c {
        Context::Single => false,
        Context::Program => token_is(t, pos, &Token::Semicolon),
        Context::Paren => token_is(t, pos, &Token::RParen),
        Context::Args => token_is(t, pos, &Token::Comma) || token_is(t, pos, &Token::RParen),
        Context::Block => token_is(t, pos, &Token::Semicolon) || token_is(t, pos, &Token::RBrace),
    }
}

/// Whether the token at `pos` may come after an operand in a context.
fn follows_at(t: &Vec<Triple>, pos: usize, c: Context) -> (r: bool)
    requires
        pos < t.len(),
    ensures
        r == follows(c, triples_view(t@)[pos as int].1),
{
    let operator = match &t[pos].1 {
        Token::Operator(text) => level_of_text(text.as_str()).is_some(),
        _ => false,
    };
    operator || closes_at(t, pos, c)
}

/// Where the dropping of tokens that begins at `pos` stops.
fn skip(t: &Vec<Triple>, pos: usize, c: Context) -> (end: usize)
    requires
        pos <= t.len(),
    ensures
        end == skip_end(triples_view(t@), pos as int, c, 0),
        pos <= end <= t.len(),
{
    let ghost tv = triples_view(t@);
    let mut i: usize = pos;
    let mut depth: usize = 0;
    while i < t.len()
        invariant
            pos <= i <= t.len(),
            depth <= i - pos,
            tv == triples_view(t@),
            skip_end(tv, pos as int, c, 0) == skip_end(tv, i as int, c, depth as nat),
        decreases t.len() - i,
    {
        if depth == 0 && follows_at(t, i, c) {
            return i;
        }
        if token_is(t, i, &Token::LParen) || token_is(t, i, &Token::LBrace) {
            depth += 1;
        } else if depth > 0 && (token_is(t, i, &Token::RParen) || token_is(t, i, &Token::RBrace)) {
            depth -= 1;
        }
        i += 1;
    }
    i
}

/// An operand at `pos`.
#[verifier::rlimit(50)]
fn operand(t: &Vec<Triple>, pos: usize, c: Context, errors: &mut Vec<ErrorRecovery>) -> (r: Result<
    (Node, usize),
    ParseError,
>)
    requires
        pos <= t.len(),
    ensures
        agrees(r, parse_operand(triples_view(t@), pos as int, c)),
        recoveries_view(final(errors)@) == recoveries_view(old(errors)@) + parse_operand(
            triples_view(t@),
            pos as int,
            c,
        ).recorded,
        r matches Ok((_, next)) ==> pos <= next <= t.len(),
    decreases t.len() - pos, 0nat, 0nat,
{
    let ghost tv = triples_view(t@);
    let ghost start = recoveries_view(errors@);
    if pos >= t.len() {
        record(t, pos, pos, Wanted::Operand, errors);
        assert(start.push(entry(tv, pos as int, pos as int, Wanted::Operand)) =~= start + seq![
            entry(tv, pos as int, pos as int, Wanted::Operand),
        ]);
        return Ok((Node::Error, pos));
    }
    match &t[pos].1 {
        Token::Integer(v) => {
            assert(start =~= start + Seq::<ErrorRecoveryView>::empty());
            Ok((Node::Number(Number::Int(v.clone())), pos + 1))
        },
        Token::Float(f) => {
            assert(start =~= start + Seq::<ErrorRecoveryView>::empty());
            Ok((Node::Number(Number::Float(f.clone())), pos + 1))
        },
        Token::Prev => {
            assert(start =~= start + Seq::<ErrorRecoveryView>::empty());
            Ok((Node::Prev, pos + 1))
        },
        Token::Ident(name) => {
            if token_is(t, pos + 1, &Token::LParen) {
                assert(nodes_view(Seq::<Node>::empty()) =~= Seq::<NodeView>::empty());
                match arguments(t, pos + 2, Vec::new(), errors) {
                    Ok((args, next)) => {
                        let node = Node::FunctionCall { name: name.clone(), args };
                        proof {
                            lemma_node_view_lists(node);
                        }
                        Ok((node, next))
                    },
                    Err(e) => Err(e),
                }
            } else {
                assert(start =~= start + Seq::<ErrorRecoveryView>::empty());
                Ok((Node::Ident(name.clone()), pos + 1))
            }
        },
        Token::LParen => {
            match settled(t, pos + 1, Context::Paren, errors) {
                Ok((node, next)) => {
                    if token_is(t, next, &Token::RParen) {
                        Ok((node, next + 1))
                    } else {
                        Err(unexpected_at(t, next, Wanted::CloseParen))
                    }
                },
                Err(e) => Err(e),
            }
        },
        _ => {
            let end = skip(t, pos, c);
            record(t, pos, end, Wanted::Operand, errors);
            assert(start.push(entry(tv, pos as int, end as int, Wanted::Operand)) =~= start + seq![
                entry(tv, pos as int, end as int, Wanted::Operand),
            ]);
            Ok((Node::Error, end))
        },
    }
}

/// The arguments of a call from `pos` on.
#[verifier::rlimit(50)]
fn arguments(
    t: &Vec<Triple>,
    pos: usize,
    done: Vec<Node>,
    errors: &mut Vec<ErrorRecovery>,
) -> (r: Result<(Vec<Node>, usize), ParseError>)
    requires
        pos <= t.len(),
    ensures
        list_agrees(r, parse_arguments(triples_view(t@), pos as int, nodes_view(done@))),
        recoveries_view(final(errors)@) == recoveries_view(old(errors)@) + parse_arguments(
            triples_view(t@),
            pos as int,
            nodes_view(done@),
        ).recorded,
        r matches Ok((_, next)) ==> pos <= next <= t.len(),
    decreases t.len() - pos, 8nat, 0nat,
{
    let ghost tv = triples_view(t@);
    let ghost start = recoveries_view(errors@);
    let ghost before = nodes_view(done@);
    let mut done = done;
    if done.len() == 0 && token_is(t, pos, &Token::RParen) {
        assert(start =~= start + Seq::<ErrorRecoveryView>::empty());
        return Ok((done, pos + 1));
    }
    match settled(t, pos, Context::Args, errors) {
        Ok((node, next)) => {
            let ghost first = parse_settled(tv, pos as int, Context::Args).recorded;
            done.push(node);
            assert(nodes_view(done@) =~= before.push(node@));
            if token_is(t, next, &Token::Comma) {
                let r = arguments(t, next + 1, done, errors);
                proof {
                    let rest = parse_arguments(tv, next + 1, before.push(node@)).recorded;
                    assert((start + first) + rest =~= start + (first + rest));
                }
                r
            } else if token_is(t, next, &Token::RParen) {
                Ok((done, next + 1))
            } else {
                Err(unexpected_at(t, next, Wanted::Argument))
            }
        },
        Err(e) => Err(e),
    }
}

/// An expression of a level of the grammar at `pos`.
#[verifier::rlimit(50)]
fn level(
    t: &Vec<Triple>,
    pos: usize,
    level_number: u8,
    c: Context,
    errors: &mut Vec<ErrorRecovery>,
) -> (r: Result<(Node, usize), ParseError>)
    requires
        pos <= t.len(),
    ensures
        agrees(r, parse_level(triples_view(t@), pos as int, level_number as nat, c)),
        recoveries_view(final(errors)@) == recoveries_view(old(errors)@) + parse_level(
            triples_view(t@),
            pos as int,
            level_number as nat,
            c,
        ).recorded,
        r matches Ok((_, next)) ==> pos <= next <= t.len(),
    decreases t.len() - pos,
        (if level_number < 4 {
            5 - level_number
        } else {
            1
        }) as nat,
        1nat,
{
    let ghost tv = triples_view(t@);
    let ghost start = recoveries_view(errors@);
    if level_number >= 4 {
        return operand(t, pos, c, errors);
    }
    match level(t, pos, level_number + 1, c, errors) {
        Ok((lhs, next)) => {
            let ghost first = parse_level(tv, pos as int, (level_number + 1) as nat, c).recorded;
            let ghost lv = lhs@;
            if level_number == 2 {
                let r = power(t, next, lhs, c, errors);
                proof {
                    let rest = parse_power(tv, next as int, lv, c).recorded;
                    assert((start + first) + rest =~= start + (first + rest));
                }
                r
            } else {
                let r = tail(t, next, level_number, lhs, c, errors);
                proof {
                    let rest = parse_tail(tv, next as int, level_number as nat, lv, c).recorded;
                    assert((start + first) + rest =~= start + (first + rest));
                }
                r
            }
        },
        Err(e) => Err(e),
    }
}

/// What follows the left side of a power.
fn power(t: &Vec<Triple>, pos: usize, lhs: Node, c: Context, errors: &mut Vec<ErrorRecovery>) -> (r:
    Result<(Node, usize), ParseError>)
    requires
        pos <= t.len(),
    ensures
        agrees(r, parse_power(triples_view(t@), pos as int, lhs@, c)),
        recoveries_view(final(errors)@) == recoveries_view(old(errors)@) + parse_power(
            triples_view(t@),
            pos as int,
            lhs@,
            c,
        ).recorded,
        r matches Ok((_, next)) ==> pos <= next <= t.len(),
    decreases t.len() - pos, 3nat, 0nat,
{
    let ghost start = recoveries_view(errors@);
    match find_operator(t, pos, 2) {
        Some(op) => {
            match level(t, pos + 1, 2, c, errors) {
                Ok((rhs, end)) => Ok(
                    (Node::Infix { lhs: Box::new(lhs), op, rhs: Box::new(rhs) }, end),
                ),
                Err(e) => Err(e),
            }
        },
        None => {
            assert(start =~= start + Seq::<ErrorRecoveryView>::empty());
            Ok((lhs, pos))
        },
    }
}

/// What follows an expression of a level that groups to the left.
fn tail(
    t: &Vec<Triple>,
    pos: usize,
    level_number: u8,
    lhs: Node,
    c: Context,
    errors: &mut Vec<ErrorRecovery>,
) -> (r: Result<(Node, usize), ParseError>)
    requires
        pos <= t.len(),
        level_number < 4,
    ensures
        agrees(r, parse_tail(triples_view(t@), pos as int, level_number as nat, lhs@, c)),
        recoveries_view(final(errors)@) == recoveries_view(old(errors)@) + parse_tail(
            triples_view(t@),
            pos as int,
            level_number as nat,
            lhs@,
            c,
        ).recorded,
        r matches Ok((_, next)) ==> pos <= next <= t.len(),
    decreases t.len() - pos,
        (if level_number < 4 {
            5 - level_number
        } else {
            1
        }) as nat,
        0nat,
{
    let ghost tv = triples_view(t@);
    let ghost start = recoveries_view(errors@);
    let ghost lv = lhs@;
    match find_operator(t, pos, level_number) {
        Some(op) => {
            match level(t, pos + 1, level_number + 1, c, errors) {
                Ok((rhs, next)) => {
                    let ghost first = parse_level(
                        tv,
                        pos + 1,
                        (level_number + 1) as nat,
                        c,
                    ).recorded;
                    let ghost joined = infix(lv, op@, rhs@);
                    let node = Node::Infix { lhs: Box::new(lhs), op, rhs: Box::new(rhs) };
                    let r = tail(t, next, level_number, node, c, errors);
                    proof {
                        let rest = parse_tail(
                            tv,
                            next as int,
                            level_number as nat,
                            joined,
                            c,
                        ).recorded;
                        assert((start + first) + rest =~= start + (first + rest));
                    }
                    r
                },
                Err(e) => Err(e),
            }
        },
        None => {
            assert(start =~= start + Seq::<ErrorRecoveryView>::empty());
            Ok((lhs, pos))
        },
    }
}

/// The expression that goes on from `lhs` at `pos`.
fn resume(t: &Vec<Triple>, pos: usize, c: Context, lhs: Node, errors: &mut Vec<ErrorRecovery>) -> (r:
    Result<(Node, usize), ParseError>)
    requires
        pos <= t.len(),
    ensures
        agrees(r, parse_resume(triples_view(t@), pos as int, c, lhs@)),
        recoveries_view(final(errors)@) == recoveries_view(old(errors)@) + parse_resume(
            triples_view(t@),
            pos as int,
            c,
            lhs@,
        ).recorded,
        r matches Ok((_, next)) ==> pos <= next <= t.len(),
    decreases t.len() - pos, 6nat, 2nat,
{
    let ghost tv = triples_view(t@);
    let ghost start = recoveries_view(errors@);
    let ghost lv = lhs@;
    let ghost first = parse_tail(tv, pos as int, 3, lv, c).recorded;
    match tail(t, pos, 3, lhs, c, errors) {
        Ok((a, next)) => {
            let ghost rest = parse_resume_power(tv, next as int, c, a@).recorded;
            let r = resume_power(t, next, c, a, errors);
            assert((start + first) + rest =~= start + (first + rest));
            r
        },
        Err(e) => Err(e),
    }
}

/// The expression that goes on from a chain of shifts.
fn resume_power(t: &Vec<Triple>, pos: usize, c: Context, lhs: Node, errors: &mut Vec<ErrorRecovery>) -> (r:
    Result<(Node, usize), ParseError>)
    requires
        pos <= t.len(),
    ensures
        agrees(r, parse_resume_power(triples_view(t@), pos as int, c, lhs@)),
        recoveries_view(final(errors)@) == recoveries_view(old(errors)@) + parse_resume_power(
            triples_view(t@),
            pos as int,
            c,
            lhs@,
        ).recorded,
        r matches Ok((_, next)) ==> pos <= next <= t.len(),
    decreases t.len() - pos, 6nat, 1nat,
{
    let ghost tv = triples_view(t@);
    let ghost start = recoveries_view(errors@);
    let ghost lv = lhs@;
    let ghost first = parse_power(tv, pos as int, lv, c).recorded;
    match power(t, pos, lhs, c, errors) {
        Ok((a, next)) => {
            let ghost rest = parse_resume_products(tv, next as int, c, a@).recorded;
            let r = resume_products(t, next, c, a, errors);
            assert((start + first) + rest =~= start + (first + rest));
            r
        },
        Err(e) => Err(e),
    }
}

/// The expression that goes on from a power.
fn resume_products(t: &Vec<Triple>, pos: usize, c: Context, lhs: Node, errors: &mut Vec<ErrorRecovery>) -> (r:
    Result<(Node, usize), ParseError>)
    requires
        pos <= t.len(),
    ensures
        agrees(r, parse_resume_products(triples_view(t@), pos as int, c, lhs@)),
        recoveries_view(final(errors)@) == recoveries_view(old(errors)@) + parse_resume_products(
            triples_view(t@),
            pos as int,
            c,
            lhs@,
        ).recorded,
        r matches Ok((_, next)) ==> pos <= next <= t.len(),
    decreases t.len() - pos, 6nat, 0nat,
{
    let ghost tv = triples_view(t@);
    let ghost start = recoveries_view(errors@);
    let ghost lv = lhs@;
    let ghost first = parse_tail(tv, pos as int, 1, lv, c).recorded;
    match tail(t, pos, 1, lhs, c, errors) {
        Ok((a, next)) => {
            let ghost rest = parse_tail(tv, next as int, 0, a@, c).recorded;
            let r = tail(t, next, 0, a, c, errors);
            assert((start + first) + rest =~= start + (first + rest));
            r
        },
        Err(e) => Err(e),
    }
}

/// What is made of a statement whose head is not well formed at `pos`.
#[verifier::rlimit(50)]
fn recover(t: &Vec<Triple>, pos: usize, w: Wanted, c: Context, errors: &mut Vec<ErrorRecovery>) -> (r:
    Result<(Node, usize), ParseError>)
    requires
        pos <= t.len(),
    ensures
        agrees(r, parse_recover(triples_view(t@), pos as int, w, c)),
        recoveries_view(final(errors)@) == recoveries_view(old(errors)@) + parse_recover(
            triples_view(t@),
            pos as int,
            w,
            c,
        ).recorded,
        r matches Ok((_, next)) ==> pos <= next <= t.len(),
    decreases t.len() - pos, 6nat, 4nat,
{
    let ghost tv = triples_view(t@);
    let ghost start = recoveries_view(errors@);
    let end = skip(t, pos, c);
    record(t, pos, end, w, errors);
    let ghost first = seq![entry(tv, pos as int, end as int, w)];
    assert(start.push(entry(tv, pos as int, end as int, w)) =~= start + first);
    let ghost rest = parse_resume(tv, end as int, c, NodeView::Error).recorded;
    let r = resume(t, end, c, Node::Error, errors);
    assert((start + first) + rest =~= start + (first + rest));
    r
}

/// What becomes of `node`, which is complete at `pos`, in a context.
#[verifier::rlimit(50)]
fn settle(t: &Vec<Triple>, pos: usize, c: Context, node: Node, errors: &mut Vec<ErrorRecovery>) -> (r:
    Result<(Node, usize), ParseError>)
    requires
        pos <= t.len(),
    ensures
        agrees(r, parse_settle(triples_view(t@), pos as int, c, node@)),
        recoveries_view(final(errors)@) == recoveries_view(old(errors)@) + parse_settle(
            triples_view(t@),
            pos as int,
            c,
            node@,
        ).recorded,
        r matches Ok((_, next)) ==> pos <= next <= t.len(),
    decreases t.len() - pos, 6nat, 3nat,
{
    let ghost tv = triples_view(t@);
    let ghost start = recoveries_view(errors@);
    if pos >= t.len() || closes_at(t, pos, c) {
        assert(start =~= start + Seq::<ErrorRecoveryView>::empty());
        return Ok((node, pos));
    }
    let end = skip(t, pos + 1, c);
    let w = wanted(c);
    record(t, pos, end, w, errors);
    let ghost first = seq![entry(tv, pos as int, end as int, w)];
    assert(start.push(entry(tv, pos as int, end as int, w)) =~= start + first);
    let ghost r1 = parse_resume(tv, end as int, c, NodeView::Error).recorded;
    match resume(t, end, c, Node::Error, errors) {
        Ok((other, next)) => {
            let ghost r2 = parse_settle(tv, next as int, c, other@).recorded;
            let r = settle(t, next, c, other, errors);
            assert(((start + first) + r1) + r2 =~= start + ((first + r1) + r2));
            r
        },
        Err(e) => {
            assert((start + first) + r1 =~= start + (first + r1));
            Err(e)
        },
    }
}

/// An expression at `pos` up to a token that ends it in its context.
#[verifier::rlimit(50)]
fn settled(t: &Vec<Triple>, pos: usize, c: Context, errors: &mut Vec<ErrorRecovery>) -> (r: Result<
    (Node, usize),
    ParseError,
>)
    requires
        pos <= t.len(),
    ensures
        agrees(r, parse_settled(triples_view(t@), pos as int, c)),
        recoveries_view(final(errors)@) == recoveries_view(old(errors)@) + parse_settled(
            triples_view(t@),
            pos as int,
            c,
        ).recorded,
        r matches Ok((_, next)) ==> pos <= next <= t.len(),
    decreases t.len() - pos, 7nat, 0nat,
{
    let ghost tv = triples_view(t@);
    let ghost start = recoveries_view(errors@);
    match level(t, pos, 0, c, errors) {
        Ok((node, next)) => {
            let ghost first = parse_level(tv, pos as int, 0, c).recorded;
            let ghost rest = parse_settle(tv, next as int, c, node@).recorded;
            let r = settle(t, next, c, node, errors);
            assert((start + first) + rest =~= start + (first + rest));
            r
        },
        Err(e) => Err(e),
    }
}

/// Whether what the parser of parameters gave is what the grammar says.
pub open spec fn names_agree(
    r: Result<(Vec<String>, usize), (usize, Wanted)>,
    step: Parameters,
) -> bool {
    match (r, step) {
        (Ok((names, next)), Parameters::Done { names: v, next: n }) => names_view(names@) == v
            && next == n,
        (Err((pos, wanted)), Parameters::Stuck { pos: p, wanted: w }) => pos == p && wanted == w,
        _ => false,
    }
}

/// The parameters of a definition from `pos` on.
fn parameters(t: &Vec<Triple>, pos: usize, done: Vec<String>) -> (r: Result<
    (Vec<String>, usize),
    (usize, Wanted),
>)
    requires
        pos <= t.len(),
    ensures
        names_agree(r, parse_parameters(triples_view(t@), pos as int, names_view(done@))),
        r matches Ok((_, next)) ==> pos < next <= t.len(),
        r matches Err((stuck, _)) ==> pos <= stuck <= t.len(),
    decreases t.len() - pos,
{
    let ghost before = names_view(done@);
    let mut done = done;
    if done.len() == 0 && token_is(t, pos, &Token::RParen) {
        return Ok((done, pos + 1));
    }
    if pos >= t.len() {
        return Err((pos, Wanted::Parameter));
    }
    match &t[pos].1 {
        Token::Ident(name) => {
            done.push(name.clone());
            assert(names_view(done@) =~= before.push(name@));
            if token_is(t, pos + 1, &Token::Comma) {
                parameters(t, pos + 2, done)
            } else if token_is(t, pos + 1, &Token::RParen) {
                Ok((done, pos + 2))
            } else {
                Err((pos + 1, Wanted::NextParameter))
            }
        },
        _ => Err((pos, Wanted::Parameter)),
    }
}

/// What follows `let` at `pos`.
#[verifier::rlimit(50)]
fn binding(t: &Vec<Triple>, pos: usize, c: Context, errors: &mut Vec<ErrorRecovery>) -> (r: Result<
    (Node, usize),
    ParseError,
>)
    requires
        pos <= t.len(),
    ensures
        agrees(r, parse_binding(triples_view(t@), pos as int, c)),
        recoveries_view(final(errors)@) == recoveries_view(old(errors)@) + parse_binding(
            triples_view(t@),
            pos as int,
            c,
        ).recorded,
        r matches Ok((_, next)) ==> pos <= next <= t.len(),
    decreases t.len() - pos, 10nat, 0nat,
{
    if pos >= t.len() {
        return recover(t, pos, Wanted::Name, c, errors);
    }
    match &t[pos].1 {
        Token::Ident(name) => {
            if token_is(t, pos + 1, &Token::Equals) {
                match level(t, pos + 2, 0, c, errors) {
                    Ok((value, next)) => Ok((Node::Let(name.clone(), Box::new(value)), next)),
                    Err(e) => Err(e),
                }
            } else if token_is(t, pos + 1, &Token::LParen) {
                assert(names_view(Seq::<String>::empty()) =~= Seq::<Seq<char>>::empty());
                match parameters(t, pos + 2, Vec::new()) {
                    Ok((params, next)) => {
                        if !token_is(t, next, &Token::Equals) {
                            return recover(t, next, Wanted::Equals, c, errors);
                        }
                        match body(t, next + 1, c, errors) {
                            Ok((nodes, end)) => {
                                let node = Node::FunctionDef {
                                    name: name.clone(),
                                    params,
                                    body: nodes,
                                };
                                proof {
                                    lemma_node_view_lists(node);
                                }
                                Ok((node, end))
                            },
                            Err(e) => Err(e),
                        }
                    },
                    Err((stuck, wanted)) => recover(t, stuck, wanted, c, errors),
                }
            } else {
                recover(t, pos + 1, Wanted::Binding, c, errors)
            }
        },
        _ => recover(t, pos, Wanted::Name, c, errors),
    }
}

/// The body of a definition at `pos`.
#[verifier::rlimit(50)]
fn body(t: &Vec<Triple>, pos: usize, c: Context, errors: &mut Vec<ErrorRecovery>) -> (r: Result<
    (Vec<Node>, usize),
    ParseError,
>)
    requires
        pos <= t.len(),
    ensures
        list_agrees(r, parse_body(triples_view(t@), pos as int, c)),
        recoveries_view(final(errors)@) == recoveries_view(old(errors)@) + parse_body(
            triples_view(t@),
            pos as int,
            c,
        ).recorded,
        r matches Ok((_, next)) ==> pos <= next <= t.len(),
    decreases t.len() - pos, 9nat, 0nat,
{
    if token_is(t, pos, &Token::LBrace) {
        let r = nodes(t, pos + 1, Vec::new(), true, errors);
        assert(nodes_view(Seq::<Node>::empty()) =~= Seq::<NodeView>::empty());
        r
    } else {
        match level(t, pos, 0, c, errors) {
            Ok((node, next)) => {
                let mut out: Vec<Node> = Vec::new();
                out.push(node);
                assert(nodes_view(out@) =~= seq![node@]);
                Ok((out, next))
            },
            Err(e) => Err(e),
        }
    }
}

/// A statement at `pos`.
#[verifier::rlimit(50)]
fn node(t: &Vec<Triple>, pos: usize, c: Context, errors: &mut Vec<ErrorRecovery>) -> (r: Result<
    (Node, usize),
    ParseError,
>)
    requires
        pos <= t.len(),
    ensures
        agrees(r, parse_node(triples_view(t@), pos as int, c)),
        recoveries_view(final(errors)@) == recoveries_view(old(errors)@) + parse_node(
            triples_view(t@),
            pos as int,
            c,
        ).recorded,
        r matches Ok((_, next)) ==> pos <= next <= t.len(),
    decreases t.len() - pos, 11nat, 0nat,
{
    let ghost tv = triples_view(t@);
    let ghost start = recoveries_view(errors@);
    let begun = if token_is(t, pos, &Token::Let) {
        binding(t, pos + 1, c, errors)
    } else {
        level(t, pos, 0, c, errors)
    };
    let ghost first = recoveries_view(errors@);
    match begun {
        Ok((whole, next)) => {
            let ghost rest = parse_settle(tv, next as int, c, whole@).recorded;
            let r = settle(t, next, c, whole, errors);
            proof {
                let a = if stands_at(tv, pos as int, TokenView::Let) {
                    parse_binding(tv, pos + 1, c).recorded
                } else {
                    parse_level(tv, pos as int, 0, c).recorded
                };
                assert((start + a) + rest =~= start + (a + rest));
            }
            r
        },
        Err(e) => Err(e),
    }
}

/// The context of the statements of a list.
fn context_of(block: bool) -> (c: Context)
    ensures
        c == list_context(block),
{
    if block {
        Context::Block
    } else {
        Context::Program
    }
}

/// Whether a list of statements ends at `pos`.
fn ends_at(t: &Vec<Triple>, pos: usize, block: bool) -> (r: bool)
    ensures
        r == list_ends(triples_view(t@), pos as int, block),
{
    if block {
        token_is(t, pos, &Token::RBrace)
    } else {
        pos >= t.len()
    }
}

/// Where the parse stands after a list of statements that ends at `pos`.
fn after_end(t: &Vec<Triple>, pos: usize, block: bool) -> (r: usize)
    requires
        pos <= t.len(),
        list_ends(triples_view(t@), pos as int, block),
    ensures
        r == after_list(pos as int, block),
        pos <= r <= t.len(),
{
    if block {
        pos + 1
    } else {
        pos
    }
}

/// Statements with semicolons between them from `pos` on.
#[verifier::spinoff_prover]
#[verifier::rlimit(100)]
fn nodes(
    t: &Vec<Triple>,
    pos: usize,
    done: Vec<Node>,
    block: bool,
    errors: &mut Vec<ErrorRecovery>,
) -> (r: Result<(Vec<Node>, usize), ParseError>)
    requires
        pos <= t.len(),
    ensures
        list_agrees(r, parse_nodes(triples_view(t@), pos as int, nodes_view(done@), block)),
        recoveries_view(final(errors)@) == recoveries_view(old(errors)@) + parse_nodes(
            triples_view(t@),
            pos as int,
            nodes_view(done@),
            block,
        ).recorded,
        r matches Ok((_, next)) ==> pos <= next <= t.len(),
    decreases t.len() - pos, 12nat, 0nat,
{
    let ghost tv = triples_view(t@);
    let ghost start = recoveries_view(errors@);
    let ghost before = nodes_view(done@);
    let ghost whole = parse_nodes(tv, pos as int, before, block);
    let mut done = done;
    if ends_at(t, pos, block) {
        let stop = after_end(t, pos, block);
        assert(whole == made(before, stop as int));
        assert(start =~= start + Seq::<ErrorRecoveryView>::empty());
        return Ok((done, stop));
    }
    let c = context_of(block);
    let ghost step = parse_node(tv, pos as int, c);
    match node(t, pos, c, errors) {
        Ok((statement, next)) => {
            let ghost grown = before.push(statement@);
            assert(step.outcome == Ok::<(NodeView, int), ParseErrorView>((statement@, next as int)));
            done.push(statement);
            assert(nodes_view(done@) =~= grown);
            if token_is(t, next, &Token::Semicolon) {
                let ghost rest = parse_nodes(tv, next + 1, grown, block);
                assert(whole == after(step.recorded, rest));
                let r = nodes(t, next + 1, done, block, errors);
                assert((start + step.recorded) + rest.recorded =~= start + (step.recorded
                    + rest.recorded));
                r
            } else if ends_at(t, next, block) {
                let stop = after_end(t, next, block);
                assert(whole == (Step {
                    outcome: Ok((grown, stop as int)),
                    recorded: step.recorded,
                }));
                Ok((done, stop))
            } else {
                assert(whole == (Step::<Seq<NodeView>> {
                    outcome: Err(unexpected(tv, next as int, wanted_in(c))),
                    recorded: step.recorded,
                }));
                Err(unexpected_at(t, next, wanted(c)))
            }
        },
        Err(e) => {
            assert(whole == (Step::<Seq<NodeView>> { outcome: Err(e@), recorded: step.recorded }));
            Err(e)
        },
    }
}

/// The tokens of a stream, or the first error in it.
fn unwrap_stream(stream: Vec<Result<Triple, Error>>) -> (r: Result<Vec<Triple>, Error>)
    ensures
        match r {
            Ok(t) => first_error(stream@, 0) is None && triples_view(t@) == stream_tokens(stream@),
            Err(e) => first_error(stream@, 0) == Some(e),
        },
{
    let mut out: Vec<Triple> = Vec::new();
    let mut i: usize = 0;
    while i < stream.len()
        invariant
            i <= stream.len(),
            out@.len() == i,
            first_error(stream@, 0) == first_error(stream@, i as int),
            forall|j: int| 0 <= j < i ==> triple_view(out@[j]) == #[trigger] stream_tokens(stream@)[j],
        decreases stream.len() - i,
    {
        match &stream[i] {
            Ok(triple) => {
                out.push(clone_triple(triple));
            },
            Err(e) => {
                return Err(*e);
            },
        }
        i += 1;
    }
    assert(triples_view(out@) =~= stream_tokens(stream@));
    Ok(out)
}

/// The program of a stream of tokens: what `parse` gives.
pub open spec fn parsed_program(stream: Seq<Result<Triple, Error>>) -> Parse<Seq<NodeView>> {
    match first_error(stream, 0) {
        Some(error) => Parse {
            result: Err(ParseErrorView::User { error }),
            recorded: Seq::empty(),
        },
        None => program_of(stream_tokens(stream)),
    }
}

/// The one statement of a stream of tokens: what `parse_single` gives.
pub open spec fn parsed_single(stream: Seq<Result<Triple, Error>>) -> Parse<NodeView> {
    match first_error(stream, 0) {
        Some(error) => Parse {
            result: Err(ParseErrorView::User { error }),
            recorded: Seq::empty(),
        },
        None => single_of(stream_tokens(stream)),
    }
}

/// Parses a program: statements with semicolons between them.
///
/// An error that came with the tokens ends the parse before anything is
/// read. Errors that the parser gets over are added to `errors`, in the
/// order in which they are met, also where the parse is ended by another
/// error after them.
pub fn parse(errors: &mut Vec<ErrorRecovery>, tokens: Vec<Result<Triple, Error>>) -> (r: Result<
    Vec<Node>,
    ParseError,
>)
    ensures
        match (r, parsed_program(tokens@).result) {
            (Ok(nodes), Ok(v)) => nodes_view(nodes@) == v,
            (Err(e), Err(v)) => e@ == v,
            _ => false,
        },
        recoveries_view(final(errors)@) == recoveries_view(old(errors)@) + parsed_program(
            tokens@,
        ).recorded,
{
    let ghost start = recoveries_view(errors@);
    assert(start =~= start + Seq::<ErrorRecoveryView>::empty());
    let t = match unwrap_stream(tokens) {
        Ok(t) => t,
        Err(error) => {
            return Err(ParseError::User { error });
        },
    };
    assert(nodes_view(Seq::<Node>::empty()) =~= Seq::<NodeView>::empty());
    match nodes(&t, 0, Vec::new(), false, errors) {
        Ok((all, _)) => Ok(all),
        Err(e) => Err(e),
    }
}

/// Parses one statement, which takes the whole of the input.
///
/// Errors are reported as `parse` reports them.
pub fn parse_single(errors: &mut Vec<ErrorRecovery>, tokens: Vec<Result<Triple, Error>>) -> (r:
    Result<Node, ParseError>)
    ensures
        match (r, parsed_single(tokens@).result) {
            (Ok(node), Ok(v)) => node@ == v,
            (Err(e), Err(v)) => e@ == v,
            _ => false,
        },
        recoveries_view(final(errors)@) == recoveries_view(old(errors)@) + parsed_single(
            tokens@,
        ).recorded,
{
    let ghost start = recoveries_view(errors@);
    assert(start =~= start + Seq::<ErrorRecoveryView>::empty());
    let t = match unwrap_stream(tokens) {
        Ok(t) => t,
        Err(error) => {
            return Err(ParseError::User { error });
        },
    };
    match node(&t, 0, Context::Single, errors) {
        Ok((one, _)) => Ok(one),
        Err(e) => Err(e),
    }
}

/// Whether a step that went through with no error to get over made a tree
/// that can be evaluated.
pub open spec fn clean(step: Step<NodeView>) -> bool {
    step.outcome is Ok && step.recorded.len() == 0 ==> evaluable(step.outcome->Ok_0.0)
}

/// The same for a step that made a list of trees.
pub open spec fn clean_list(step: Step<Seq<NodeView>>) -> bool {
    step.outcome is Ok && step.recorded.len() == 0 ==> all_evaluable(step.outcome->Ok_0.0)
}

/// An operator of the grammar is an operator of the language.
pub proof fn lemma_level_is_opcode(text: Seq<char>)
    requires
        level_of(text) is Some,
    ensures
        opcode_of(text) is Some,
{
}

/// Trees that can be evaluated, and one more, can be evaluated.
pub proof fn lemma_all_evaluable_push(done: Seq<NodeView>, node: NodeView)
    requires
        all_evaluable(done),
        evaluable(node),
    ensures
        all_evaluable(done.push(node)),
{
    assert forall|i: int| 0 <= i < done.push(node).len() implies evaluable(
        #[trigger] done.push(node)[i],
    ) by {
        if i < done.len() {
            assert(done.push(node)[i] == done[i]);
        }
    }
}

/// An operand that is parsed with no error to get over can be evaluated.
pub proof fn lemma_operand_clean(t: Tokens, pos: int, c: Context)
    ensures
        clean(parse_operand(t, pos, c)),
    decreases left(t, pos), 0nat, 0nat,
{
    if !(pos < 0 || pos >= t.len()) {
        match t[pos].1 {
            TokenView::Ident(name) => {
                if stands_at(t, pos + 1, TokenView::LParen) {
                    lemma_arguments_clean(t, pos + 2, Seq::empty());
                    let step = parse_arguments(t, pos + 2, Seq::empty());
                    if step.outcome is Ok {
                        lemma_evaluable_lists(name, Seq::empty(), step.outcome->Ok_0.0);
                    }
                }
            },
            TokenView::LParen => {
                lemma_settled_clean(t, pos + 1, Context::Paren);
            },
            _ => {},
        }
    }
}

/// Arguments that are parsed with no error to get over can be evaluated.
pub proof fn lemma_arguments_clean(t: Tokens, pos: int, done: Seq<NodeView>)
    requires
        all_evaluable(done),
    ensures
        clean_list(parse_arguments(t, pos, done)),
    decreases left(t, pos), 8nat, 0nat,
{
    if !(done.len() == 0 && stands_at(t, pos, TokenView::RParen)) {
        lemma_settled_clean(t, pos, Context::Args);
        let step = parse_settled(t, pos, Context::Args);
        match step.outcome {
            Ok((node, next)) => {
                if step.recorded.len() == 0 {
                    lemma_all_evaluable_push(done, node);
                    if stands_at(t, next, TokenView::Comma) && next >= pos {
                        lemma_arguments_clean(t, next + 1, done.push(node));
                    }
                }
            },
            Err(e) => {},
        }
    }
}

/// An expression that is parsed with no error to get over can be evaluated.
pub proof fn lemma_level_clean(t: Tokens, pos: int, level: nat, c: Context)
    ensures
        clean(parse_level(t, pos, level, c)),
    decreases left(t, pos),
        (if level < 4 {
            5 - level
        } else {
            1
        }) as nat,
        1nat,
{
    if level >= 4 {
        lemma_operand_clean(t, pos, c);
    } else {
        lemma_level_clean(t, pos, level + 1, c);
        let first = parse_level(t, pos, level + 1, c);
        match first.outcome {
            Ok((lhs, next)) => {
                if next >= pos && first.recorded.len() == 0 {
                    if level == 2 {
                        lemma_power_clean(t, next, lhs, c);
                    } else {
                        lemma_tail_clean(t, next, level, lhs, c);
                    }
                }
            },
            Err(e) => {},
        }
    }
}

/// What follows the left side of a power, parsed with no error to get
/// over, makes with it an expression that can be evaluated.
pub proof fn lemma_power_clean(t: Tokens, pos: int, lhs: NodeView, c: Context)
    requires
        evaluable(lhs),
    ensures
        clean(parse_power(t, pos, lhs, c)),
    decreases left(t, pos), 3nat, 0nat,
{
    match operator_at(t, pos, 2) {
        Some(op) => {
            lemma_level_is_opcode(op);
            lemma_level_clean(t, pos + 1, 2, c);
        },
        None => {},
    }
}

/// What follows an expression that can be evaluated, parsed with no error to
/// get over, makes with it an expression that can be evaluated.
pub proof fn lemma_tail_clean(t: Tokens, pos: int, level: nat, lhs: NodeView, c: Context)
    requires
        evaluable(lhs),
    ensures
        clean(parse_tail(t, pos, level, lhs, c)),
    decreases left(t, pos),
        (if level < 4 {
            5 - level
        } else {
            1
        }) as nat,
        0nat,
{
    match operator_at(t, pos, level) {
        Some(op) => {
            lemma_level_is_opcode(op);
            lemma_level_clean(t, pos + 1, level + 1, c);
            let step = parse_level(t, pos + 1, level + 1, c);
            match step.outcome {
                Ok((rhs, next)) => {
                    if next > pos && step.recorded.len() == 0 {
                        lemma_tail_clean(t, next, level, infix(lhs, op, rhs), c);
                    }
                },
                Err(e) => {},
            }
        },
        None => {},
    }
}

/// Where a token had to be got over, an error is recorded: what is settled
/// with no error recorded is what was complete.
pub proof fn lemma_settle_clean(t: Tokens, pos: int, c: Context, node: NodeView)
    requires
        evaluable(node),
    ensures
        clean(parse_settle(t, pos, c, node)),
        parse_settle(t, pos, c, node).recorded.len() == 0 ==> parse_settle(t, pos, c, node)
            == made(node, pos),
{
    if !(pos < 0 || pos >= t.len() || closes(c, t[pos].1)) {
        let end = skip_end(t, pos + 1, c, 0);
        let first = seq![entry(t, pos, end, wanted_in(c))];
        assert(first.len() == 1);
        if end > pos {
            let rest = after(first, parse_resume(t, end, c, NodeView::Error));
            assert(rest.recorded.len() >= 1);
        }
    }
}

/// An expression up to its end, parsed with no error to get over, can be
/// evaluated.
pub proof fn lemma_settled_clean(t: Tokens, pos: int, c: Context)
    ensures
        clean(parse_settled(t, pos, c)),
    decreases left(t, pos), 7nat, 0nat,
{
    lemma_level_clean(t, pos, 0, c);
    let first = parse_level(t, pos, 0, c);
    match first.outcome {
        Ok((node, next)) => {
            if next >= pos && first.recorded.len() == 0 {
                lemma_settle_clean(t, next, c, node);
            }
        },
        Err(e) => {},
    }
}

/// A binding that is parsed with no error to get over can be evaluated.
pub proof fn lemma_binding_clean(t: Tokens, pos: int, c: Context)
    ensures
        clean(parse_binding(t, pos, c)),
    decreases left(t, pos), 10nat, 0nat,
{
    if 0 <= pos < t.len() && t[pos].1 is Ident {
        let name = t[pos].1->Ident_0;
        if stands_at(t, pos + 1, TokenView::Equals) {
            lemma_level_clean(t, pos + 2, 0, c);
        } else if stands_at(t, pos + 1, TokenView::LParen) {
            lemma_parameters(t, pos + 2, Seq::empty());
            match parse_parameters(t, pos + 2, Seq::empty()) {
                Parameters::Done { names, next } => {
                    if !stands_at(t, next, TokenView::Equals) {
                        lemma_recover_records(t, next, Wanted::Equals, c);
                    } else {
                        lemma_body_clean(t, next + 1, c);
                        let step = parse_body(t, next + 1, c);
                        if step.outcome is Ok {
                            lemma_evaluable_lists(name, names, step.outcome->Ok_0.0);
                        }
                    }
                },
                Parameters::Stuck { pos: stuck, wanted } => {
                    lemma_recover_records(t, stuck, wanted, c);
                },
            }
        } else {
            lemma_recover_records(t, pos + 1, Wanted::Binding, c);
        }
    } else {
        lemma_recover_records(t, pos, Wanted::Name, c);
    }
}

/// Where a statement is made of a head that is not well formed, an error
/// is recorded.
pub proof fn lemma_recover_records(t: Tokens, pos: int, w: Wanted, c: Context)
    ensures
        parse_recover(t, pos, w, c).recorded.len() >= 1,
{
    let end = skip_end(t, pos, c, 0);
    let first = seq![entry(t, pos, end, w)];
    assert(first.len() == 1);
}

/// The parse of parameters goes on, and gets stuck within the input.
pub proof fn lemma_parameters(t: Tokens, pos: int, done: Seq<Seq<char>>)
    requires
        0 <= pos <= t.len(),
    ensures
        match parse_parameters(t, pos, done) {
            Parameters::Done { names, next } => pos < next <= t.len(),
            Parameters::Stuck { pos: stuck, wanted } => pos <= stuck <= t.len(),
        },
    decreases left(t, pos),
{
    if !(done.len() == 0 && stands_at(t, pos, TokenView::RParen)) {
        if 0 <= pos < t.len() && t[pos].1 is Ident {
            if stands_at(t, pos + 1, TokenView::Comma) {
                lemma_parameters(t, pos + 2, done.push(t[pos].1->Ident_0));
            }
        }
    }
}

/// A body that is parsed with no error to get over can be evaluated.
pub proof fn lemma_body_clean(t: Tokens, pos: int, c: Context)
    ensures
        clean_list(parse_body(t, pos, c)),
    decreases left(t, pos), 9nat, 0nat,
{
    if stands_at(t, pos, TokenView::LBrace) {
        lemma_nodes_clean(t, pos + 1, Seq::empty(), true);
    } else {
        lemma_level_clean(t, pos, 0, c);
    }
}

/// A statement that is parsed with no error to get over can be evaluated.
pub proof fn lemma_node_clean(t: Tokens, pos: int, c: Context)
    ensures
        clean(parse_node(t, pos, c)),
    decreases left(t, pos), 11nat, 0nat,
{
    if stands_at(t, pos, TokenView::Let) {
        lemma_binding_clean(t, pos + 1, c);
    } else {
        lemma_level_clean(t, pos, 0, c);
    }
    let first = if stands_at(t, pos, TokenView::Let) {
        parse_binding(t, pos + 1, c)
    } else {
        parse_level(t, pos, 0, c)
    };
    match first.outcome {
        Ok((node, next)) => {
            if next >= pos && first.recorded.len() == 0 {
                lemma_settle_clean(t, next, c, node);
            }
        },
        Err(e) => {},
    }
}

/// Statements that are parsed with no error to get over can be evaluated.
pub proof fn lemma_nodes_clean(t: Tokens, pos: int, done: Seq<NodeView>, block: bool)
    requires
        all_evaluable(done),
    ensures
        clean_list(parse_nodes(t, pos, done, block)),
    decreases left(t, pos), 12nat, 0nat,
{
    if !list_ends(t, pos, block) {
        lemma_node_clean(t, pos, list_context(block));
        let step = parse_node(t, pos, list_context(block));
        match step.outcome {
            Ok((node, next)) => {
                if step.recorded.len() == 0 {
                    lemma_all_evaluable_push(done, node);
                    if stands_at(t, next, TokenView::Semicolon) && next >= pos {
                        lemma_nodes_clean(t, next + 1, done.push(node), block);
                    }
                }
            },
            Err(e) => {},
        }
    }
}

/// A parse that ends well with no error to get over gives trees that can
/// be evaluated: no `Error` node is in them, and every operator in them is
/// one of the language.
pub proof fn law_clean_parse_is_evaluable(stream: Seq<Result<Triple, Error>>)
    ensures
        parsed_program(stream).result is Ok && parsed_program(stream).recorded.len() == 0
            ==> all_evaluable(parsed_program(stream).result->Ok_0),
        parsed_single(stream).result is Ok && parsed_single(stream).recorded.len() == 0
            ==> evaluable(parsed_single(stream).result->Ok_0),
{
    let t = stream_tokens(stream);
    lemma_nodes_clean(t, 0, Seq::empty(), false);
    lemma_node_clean(t, 0, Context::Single);
}

/// Whether a recorded error is about a token of the input, with which the
/// tokens that it dropped begin, or about the end of the input, where
/// nothing was dropped.
pub open spec fn names_token(t: Tokens, item: ErrorRecoveryView) -> bool {
    exists|pos: int, end: int, w: Wanted|
        0 <= pos <= end <= t.len() && item == #[trigger] entry(t, pos, end, w)
}

/// Whether each of some recorded errors is about a token of the input or
/// about its end.
pub open spec fn all_name_tokens(t: Tokens, recorded: Seq<ErrorRecoveryView>) -> bool {
    forall|i: int| 0 <= i < recorded.len() ==> names_token(t, #[trigger] recorded[i])
}

/// Whether an error is one that ends a parse: the end of the input where a
/// parenthesis or a brace is still open.
pub open spec fn ends_parse(t: Tokens, error: ParseErrorView) -> bool {
    exists|w: Wanted|
        error == (ParseErrorView::UnrecognizedToken {
            token: None,
            expected: #[trigger] expected_for(w),
        }) && (w == Wanted::CloseParen || w == Wanted::Argument || w == Wanted::Block)
}

/// Whether no token is an opening parenthesis.
pub open spec fn plain(t: Tokens) -> bool {
    forall|i: int| 0 <= i < t.len() ==> (#[trigger] t[i]).1 != TokenView::LParen
}

/// Whether a step from `pos` stopped within the input, recorded only
/// errors about tokens of the input or its end, and, where it ended the
/// parse, did so by an error that ends a parse.
pub open spec fn sound<T>(t: Tokens, pos: int, step: Step<T>) -> bool {
    &&& all_name_tokens(t, step.recorded)
    &&& step.outcome is Ok ==> pos <= step.outcome->Ok_0.1 <= t.len()
    &&& step.outcome is Err ==> ends_parse(t, step.outcome->Err_0)
}

/// Whether a step made a tree, where no token is an opening parenthesis.
pub open spec fn total<T>(t: Tokens, step: Step<T>) -> bool {
    plain(t) ==> step.outcome is Ok
}

/// Whether a step stopped at the end of the input or at a token that ends
/// what stands in the context.
pub open spec fn at_end<T>(t: Tokens, c: Context, step: Step<T>) -> bool {
    step.outcome is Ok ==> step.outcome->Ok_0.1 >= t.len() || closes(
        c,
        t[step.outcome->Ok_0.1].1,
    )
}

/// Errors about tokens of the input, put after others of the kind, are errors
/// about tokens of the input.
pub proof fn lemma_all_name_tokens_join(
    t: Tokens,
    a: Seq<ErrorRecoveryView>,
    b: Seq<ErrorRecoveryView>,
)
    requires
        all_name_tokens(t, a),
        all_name_tokens(t, b),
    ensures
        all_name_tokens(t, a + b),
{
    assert forall|i: int| 0 <= i < (a + b).len() implies names_token(t, #[trigger] (a + b)[i]) by {
        if i < a.len() {
            assert((a + b)[i] == a[i]);
        } else {
            assert((a + b)[i] == b[i - a.len()]);
        }
    }
}

/// The dropping of tokens stops within the input, and at a token that may
/// follow where it stops before the end.
pub proof fn lemma_skip_end(t: Tokens, pos: int, c: Context, depth: nat)
    requires
        0 <= pos <= t.len(),
    ensures
        pos <= skip_end(t, pos, c, depth) <= t.len(),
        skip_end(t, pos, c, depth) < t.len() ==> follows(c, t[skip_end(t, pos, c, depth)].1),
    decreases left(t, pos),
{
    if pos < t.len() {
        if depth == 0 && follows(c, t[pos].1) {
        } else if opens(t[pos].1) {
            lemma_skip_end(t, pos + 1, c, depth + 1);
        } else if shuts(t[pos].1) && depth > 0 {
            lemma_skip_end(t, pos + 1, c, (depth - 1) as nat);
        } else {
            lemma_skip_end(t, pos + 1, c, depth);
        }
    }
}

/// The parse of an operand is sound, and makes a tree where no token is
/// an opening parenthesis.
pub proof fn lemma_operand_sound(t: Tokens, pos: int, c: Context)
    requires
        0 <= pos <= t.len(),
    ensures
        sound(t, pos, parse_operand(t, pos, c)),
        total(t, parse_operand(t, pos, c)),
    decreases left(t, pos), 0nat, 0nat,
{
    let step = parse_operand(t, pos, c);
    if pos >= t.len() {
        assert(step.recorded[0] == entry(t, pos, pos, Wanted::Operand));
    } else {
        match t[pos].1 {
            TokenView::Integer(v) => {},
            TokenView::Float(f) => {},
            TokenView::Prev => {},
            TokenView::Ident(name) => {
                if stands_at(t, pos + 1, TokenView::LParen) {
                    lemma_arguments_sound(t, pos + 2, Seq::empty());
                    assert(t[pos + 1].1 == TokenView::LParen);
                }
            },
            TokenView::LParen => {
                lemma_settled_sound(t, pos + 1, Context::Paren);
                let inner = parse_settled(t, pos + 1, Context::Paren);
                if inner.outcome is Ok {
                    let next = inner.outcome->Ok_0.1;
                    if !stands_at(t, next, TokenView::RParen) {
                        assert(step.outcome->Err_0 == unexpected(t, next, Wanted::CloseParen));
                    }
                }
                assert(t[pos].1 == TokenView::LParen);
            },
            _ => {
                lemma_skip_end(t, pos, c, 0);
                assert(step.recorded[0] == entry(t, pos, skip_end(t, pos, c, 0), Wanted::Operand));
            },
        }
    }
}

/// The parse of arguments is sound.
pub proof fn lemma_arguments_sound(t: Tokens, pos: int, done: Seq<NodeView>)
    requires
        0 <= pos <= t.len(),
    ensures
        sound(t, pos, parse_arguments(t, pos, done)),
    decreases left(t, pos), 8nat, 0nat,
{
    if !(done.len() == 0 && stands_at(t, pos, TokenView::RParen)) {
        lemma_settled_sound(t, pos, Context::Args);
        let step = parse_settled(t, pos, Context::Args);
        match step.outcome {
            Ok((node, next)) => {
                if stands_at(t, next, TokenView::Comma) && next >= pos {
                    lemma_arguments_sound(t, next + 1, done.push(node));
                    lemma_all_name_tokens_join(
                        t,
                        step.recorded,
                        parse_arguments(t, next + 1, done.push(node)).recorded,
                    );
                } else if !stands_at(t, next, TokenView::RParen) {
                    assert(parse_arguments(t, pos, done).outcome->Err_0 == unexpected(
                        t,
                        next,
                        Wanted::Argument,
                    ));
                }
            },
            Err(e) => {},
        }
    }
}

/// The parse of an expression is sound, and makes a tree where no token is
/// an opening parenthesis.
pub proof fn lemma_level_sound(t: Tokens, pos: int, level: nat, c: Context)
    requires
        0 <= pos <= t.len(),
    ensures
        sound(t, pos, parse_level(t, pos, level, c)),
        total(t, parse_level(t, pos, level, c)),
    decreases left(t, pos),
        (if level < 4 {
            5 - level
        } else {
            1
        }) as nat,
        1nat,
{
    if level >= 4 {
        lemma_operand_sound(t, pos, c);
    } else {
        lemma_level_sound(t, pos, level + 1, c);
        let first = parse_level(t, pos, level + 1, c);
        match first.outcome {
            Ok((lhs, next)) => {
                if level == 2 {
                    lemma_power_sound(t, next, lhs, c);
                    lemma_all_name_tokens_join(
                        t,
                        first.recorded,
                        parse_power(t, next, lhs, c).recorded,
                    );
                } else {
                    lemma_tail_sound(t, next, level, lhs, c);
                    lemma_all_name_tokens_join(
                        t,
                        first.recorded,
                        parse_tail(t, next, level, lhs, c).recorded,
                    );
                }
            },
            Err(e) => {},
        }
    }
}

/// The parse of what follows the left side of a power is sound, and makes
/// a tree where no token is an opening parenthesis.
pub proof fn lemma_power_sound(t: Tokens, pos: int, lhs: NodeView, c: Context)
    requires
        0 <= pos <= t.len(),
    ensures
        sound(t, pos, parse_power(t, pos, lhs, c)),
        total(t, parse_power(t, pos, lhs, c)),
    decreases left(t, pos), 3nat, 0nat,
{
    match operator_at(t, pos, 2) {
        Some(op) => {
            lemma_level_sound(t, pos + 1, 2, c);
        },
        None => {},
    }
}

/// The parse of what follows an expression is sound, and makes a tree
/// where no token is an opening parenthesis.
pub proof fn lemma_tail_sound(t: Tokens, pos: int, level: nat, lhs: NodeView, c: Context)
    requires
        0 <= pos <= t.len(),
    ensures
        sound(t, pos, parse_tail(t, pos, level, lhs, c)),
        total(t, parse_tail(t, pos, level, lhs, c)),
    decreases left(t, pos),
        (if level < 4 {
            5 - level
        } else {
            1
        }) as nat,
        0nat,
{
    match operator_at(t, pos, level) {
        Some(op) => {
            lemma_level_sound(t, pos + 1, level + 1, c);
            let step = parse_level(t, pos + 1, level + 1, c);
            match step.outcome {
                Ok((rhs, next)) => {
                    lemma_tail_sound(t, next, level, infix(lhs, op, rhs), c);
                    lemma_all_name_tokens_join(
                        t,
                        step.recorded,
                        parse_tail(t, next, level, infix(lhs, op, rhs), c).recorded,
                    );
                },
                Err(e) => {},
            }
        },
        None => {},
    }
}

/// The parse of an expression that goes on from an operand is sound, and
/// makes a tree where no token is an opening parenthesis.
pub proof fn lemma_resume_sound(t: Tokens, pos: int, c: Context, lhs: NodeView)
    requires
        0 <= pos <= t.len(),
    ensures
        sound(t, pos, parse_resume(t, pos, c, lhs)),
        total(t, parse_resume(t, pos, c, lhs)),
    decreases left(t, pos), 6nat, 2nat,
{
    lemma_tail_sound(t, pos, 3, lhs, c);
    let first = parse_tail(t, pos, 3, lhs, c);
    match first.outcome {
        Ok((a, next)) => {
            lemma_resume_power_sound(t, next, c, a);
            lemma_all_name_tokens_join(t, first.recorded, parse_resume_power(t, next, c, a).recorded);
        },
        Err(e) => {},
    }
}

/// The same for what goes on from a chain of shifts.
pub proof fn lemma_resume_power_sound(t: Tokens, pos: int, c: Context, lhs: NodeView)
    requires
        0 <= pos <= t.len(),
    ensures
        sound(t, pos, parse_resume_power(t, pos, c, lhs)),
        total(t, parse_resume_power(t, pos, c, lhs)),
    decreases left(t, pos), 6nat, 1nat,
{
    lemma_power_sound(t, pos, lhs, c);
    let first = parse_power(t, pos, lhs, c);
    match first.outcome {
        Ok((a, next)) => {
            lemma_resume_products_sound(t, next, c, a);
            lemma_all_name_tokens_join(t, first.recorded, parse_resume_products(t, next, c, a).recorded);
        },
        Err(e) => {},
    }
}

/// The same for what goes on from a power.
pub proof fn lemma_resume_products_sound(t: Tokens, pos: int, c: Context, lhs: NodeView)
    requires
        0 <= pos <= t.len(),
    ensures
        sound(t, pos, parse_resume_products(t, pos, c, lhs)),
        total(t, parse_resume_products(t, pos, c, lhs)),
    decreases left(t, pos), 6nat, 0nat,
{
    lemma_tail_sound(t, pos, 1, lhs, c);
    let first = parse_tail(t, pos, 1, lhs, c);
    match first.outcome {
        Ok((a, next)) => {
            lemma_tail_sound(t, next, 0, a, c);
            lemma_all_name_tokens_join(t, first.recorded, parse_tail(t, next, 0, a, c).recorded);
        },
        Err(e) => {},
    }
}

/// What is settled is sound, stops where its context ends or the input
/// does, and is a tree where no token is an opening parenthesis.
pub proof fn lemma_settle_sound(t: Tokens, pos: int, c: Context, node: NodeView)
    requires
        0 <= pos <= t.len(),
    ensures
        sound(t, pos, parse_settle(t, pos, c, node)),
        total(t, parse_settle(t, pos, c, node)),
        at_end(t, c, parse_settle(t, pos, c, node)),
    decreases left(t, pos), 6nat, 3nat,
{
    if !(pos >= t.len() || closes(c, t[pos].1)) {
        lemma_skip_end(t, pos + 1, c, 0);
        let end = skip_end(t, pos + 1, c, 0);
        let first = seq![entry(t, pos, end, wanted_in(c))];
        assert(first[0] == entry(t, pos, end, wanted_in(c)));
        assert(all_name_tokens(t, first));
        lemma_resume_sound(t, end, c, NodeView::Error);
        let resumed = parse_resume(t, end, c, NodeView::Error);
        lemma_all_name_tokens_join(t, first, resumed.recorded);
        let rest = after(first, resumed);
        match rest.outcome {
            Ok((other, next)) => {
                lemma_settle_sound(t, next, c, other);
                lemma_all_name_tokens_join(
                    t,
                    rest.recorded,
                    parse_settle(t, next, c, other).recorded,
                );
            },
            Err(e) => {},
        }
    }
}

/// The parse of an expression up to its end is sound, stops where its
/// context ends or the input does, and makes a tree where no token is
/// an opening parenthesis.
pub proof fn lemma_settled_sound(t: Tokens, pos: int, c: Context)
    requires
        0 <= pos <= t.len(),
    ensures
        sound(t, pos, parse_settled(t, pos, c)),
        total(t, parse_settled(t, pos, c)),
        at_end(t, c, parse_settled(t, pos, c)),
    decreases left(t, pos), 7nat, 0nat,
{
    lemma_level_sound(t, pos, 0, c);
    let first = parse_level(t, pos, 0, c);
    match first.outcome {
        Ok((node, next)) => {
            lemma_settle_sound(t, next, c, node);
            lemma_all_name_tokens_join(t, first.recorded, parse_settle(t, next, c, node).recorded);
        },
        Err(e) => {},
    }
}

/// What is made of a statement whose head is not well formed is sound, and
/// is a tree where no token is an opening parenthesis.
pub proof fn lemma_recover_sound(t: Tokens, pos: int, w: Wanted, c: Context)
    requires
        0 <= pos <= t.len(),
    ensures
        sound(t, pos, parse_recover(t, pos, w, c)),
        total(t, parse_recover(t, pos, w, c)),
{
    lemma_skip_end(t, pos, c, 0);
    let end = skip_end(t, pos, c, 0);
    let first = seq![entry(t, pos, end, w)];
    assert(first[0] == entry(t, pos, end, w));
    assert(all_name_tokens(t, first));
    lemma_resume_sound(t, end, c, NodeView::Error);
    lemma_all_name_tokens_join(t, first, parse_resume(t, end, c, NodeView::Error).recorded);
}

/// The parse of a binding is sound, and makes a tree where no token is an
/// opening parenthesis.
pub proof fn lemma_binding_sound(t: Tokens, pos: int, c: Context)
    requires
        0 <= pos <= t.len(),
    ensures
        sound(t, pos, parse_binding(t, pos, c)),
        total(t, parse_binding(t, pos, c)),
    decreases left(t, pos), 10nat, 0nat,
{
    if 0 <= pos < t.len() && t[pos].1 is Ident {
        if stands_at(t, pos + 1, TokenView::Equals) {
            lemma_level_sound(t, pos + 2, 0, c);
        } else if stands_at(t, pos + 1, TokenView::LParen) {
            assert(t[pos + 1].1 == TokenView::LParen);
            lemma_parameters(t, pos + 2, Seq::empty());
            match parse_parameters(t, pos + 2, Seq::empty()) {
                Parameters::Done { names, next } => {
                    if stands_at(t, next, TokenView::Equals) {
                        lemma_body_sound(t, next + 1, c);
                    } else {
                        lemma_recover_sound(t, next, Wanted::Equals, c);
                    }
                },
                Parameters::Stuck { pos: stuck, wanted } => {
                    lemma_recover_sound(t, stuck, wanted, c);
                },
            }
        } else {
            lemma_recover_sound(t, pos + 1, Wanted::Binding, c);
        }
    } else {
        lemma_recover_sound(t, pos, Wanted::Name, c);
    }
}

/// The parse of a body is sound.
pub proof fn lemma_body_sound(t: Tokens, pos: int, c: Context)
    requires
        0 <= pos <= t.len(),
    ensures
        sound(t, pos, parse_body(t, pos, c)),
    decreases left(t, pos), 9nat, 0nat,
{
    if stands_at(t, pos, TokenView::LBrace) {
        lemma_nodes_sound(t, pos + 1, Seq::empty(), true);
    } else {
        lemma_level_sound(t, pos, 0, c);
    }
}

/// The parse of a statement is sound, stops where its context ends or the
/// input does, and makes a tree where no token is an opening
/// parenthesis.
pub proof fn lemma_node_sound(t: Tokens, pos: int, c: Context)
    requires
        0 <= pos <= t.len(),
    ensures
        sound(t, pos, parse_node(t, pos, c)),
        total(t, parse_node(t, pos, c)),
        at_end(t, c, parse_node(t, pos, c)),
    decreases left(t, pos), 11nat, 0nat,
{
    if stands_at(t, pos, TokenView::Let) {
        lemma_binding_sound(t, pos + 1, c);
    } else {
        lemma_level_sound(t, pos, 0, c);
    }
    let first = if stands_at(t, pos, TokenView::Let) {
        parse_binding(t, pos + 1, c)
    } else {
        parse_level(t, pos, 0, c)
    };
    match first.outcome {
        Ok((node, next)) => {
            lemma_settle_sound(t, next, c, node);
            lemma_all_name_tokens_join(t, first.recorded, parse_settle(t, next, c, node).recorded);
        },
        Err(e) => {},
    }
}

/// The parse of statements is sound, and makes trees where they are those
/// of a program and no token is `let` or an opening parenthesis.
pub proof fn lemma_nodes_sound(t: Tokens, pos: int, done: Seq<NodeView>, block: bool)
    requires
        0 <= pos <= t.len(),
    ensures
        sound(t, pos, parse_nodes(t, pos, done, block)),
        !block ==> total(t, parse_nodes(t, pos, done, block)),
    decreases left(t, pos), 12nat, 0nat,
{
    if !list_ends(t, pos, block) {
        let c = list_context(block);
        lemma_node_sound(t, pos, c);
        let step = parse_node(t, pos, c);
        match step.outcome {
            Ok((node, next)) => {
                if stands_at(t, next, TokenView::Semicolon) {
                    lemma_nodes_sound(t, next + 1, done.push(node), block);
                    lemma_all_name_tokens_join(
                        t,
                        step.recorded,
                        parse_nodes(t, next + 1, done.push(node), block).recorded,
                    );
                } else if !list_ends(t, next, block) {
                    assert(parse_nodes(t, pos, done, block).outcome->Err_0 == unexpected(
                        t,
                        next,
                        wanted_in(c),
                    ));
                }
            },
            Err(e) => {},
        }
    }
}

/// Every error that a parse gets over is about a token of the input that
/// did not fit, which it names with its offsets, and the tokens that were
/// dropped for it are tokens of the input from that one on; or it is about
/// the end of the input, where no token is dropped.
pub proof fn law_recorded_errors_name_tokens(stream: Seq<Result<Triple, Error>>)
    ensures
        all_name_tokens(stream_tokens(stream), parsed_program(stream).recorded),
        all_name_tokens(stream_tokens(stream), parsed_single(stream).recorded),
{
    let t = stream_tokens(stream);
    lemma_nodes_sound(t, 0, Seq::empty(), false);
    lemma_node_sound(t, 0, Context::Single);
}

/// A parse is ended only where nothing can be gone on with: by an error
/// that came with the tokens, or by the end of the input where a
/// parenthesis or a brace is still open. No token ends a parse.
pub proof fn law_fatal_error_kinds(stream: Seq<Result<Triple, Error>>)
    ensures
        parsed_program(stream).result is Err ==> parsed_program(stream).result->Err_0 is User
            || ends_parse(stream_tokens(stream), parsed_program(stream).result->Err_0),
        parsed_single(stream).result is Err ==> parsed_single(stream).result->Err_0 is User
            || ends_parse(stream_tokens(stream), parsed_single(stream).result->Err_0),
{
    let t = stream_tokens(stream);
    lemma_nodes_sound(t, 0, Seq::empty(), false);
    lemma_node_sound(t, 0, Context::Single);
}

/// Tokens among which is no opening parenthesis, and with which no error
/// came, always give a tree: whatever does not fit is got over.
pub proof fn law_plain_tokens_give_a_tree(stream: Seq<Result<Triple, Error>>)
    requires
        first_error(stream, 0) is None,
        plain(stream_tokens(stream)),
    ensures
        parsed_program(stream).result is Ok,
        parsed_single(stream).result is Ok,
{
    let t = stream_tokens(stream);
    lemma_nodes_sound(t, 0, Seq::empty(), false);
    lemma_node_sound(t, 0, Context::Single);
}

/// A token that begins no operand where an operand is due is got over:
/// `Node::Error` stands for the operand, and exactly one error is
/// recorded, which names that token and holds the tokens dropped from it
/// on, up to the next that may follow.
pub proof fn law_token_in_place_of_operand_is_got_over(t: Tokens, pos: int, c: Context)
    requires
        0 <= pos < t.len(),
        !(t[pos].1 is Integer || t[pos].1 is Float || t[pos].1 is Prev || t[pos].1 is Ident
            || t[pos].1 is LParen),
    ensures
        pos <= skip_end(t, pos, c, 0) <= t.len(),
        parse_operand(t, pos, c) == (Step {
            outcome: Ok((NodeView::Error, skip_end(t, pos, c, 0))),
            recorded: seq![entry(t, pos, skip_end(t, pos, c, 0), Wanted::Operand)],
        }),
        entry(t, pos, skip_end(t, pos, c, 0), Wanted::Operand).error == (
        ParseErrorView::UnrecognizedToken {
            token: Some(t[pos]),
            expected: expected_for(Wanted::Operand),
        }),
        entry(t, pos, skip_end(t, pos, c, 0), Wanted::Operand).dropped_tokens == t.subrange(
            pos,
            skip_end(t, pos, c, 0),
        ),
{
    lemma_skip_end(t, pos, c, 0);
}

/// A token that does not fit after a complete statement is got over. Where
/// the statement, which begins with no `let`, is complete at `k` with no
/// error, the token at `k` neither goes on with it nor ends it, and what
/// goes on after the dropped tokens does so with no error up to the end of
/// the input: then the parse gives a tree, and records exactly one error,
/// which names the token at `k` and holds the tokens dropped from `k` on.
pub proof fn law_token_after_statement_is_got_over(
    t: Tokens,
    c: Context,
    whole: NodeView,
    k: int,
    tree: NodeView,
)
    requires
        c == Context::Single || c == Context::Program,
        !stands_at(t, 0, TokenView::Let),
        parse_level(t, 0, 0, c) == made(whole, k),
        0 <= k < t.len(),
        !closes(c, t[k].1),
        parse_resume(t, skip_end(t, k + 1, c, 0), c, NodeView::Error) == made(tree, t.len() as int),
    ensures
        k < skip_end(t, k + 1, c, 0) <= t.len(),
        parse_node(t, 0, c) == (Step {
            outcome: Ok((tree, t.len() as int)),
            recorded: seq![entry(t, k, skip_end(t, k + 1, c, 0), wanted_in(c))],
        }),
        entry(t, k, skip_end(t, k + 1, c, 0), wanted_in(c)).error == (
        ParseErrorView::UnrecognizedToken {
            token: Some(t[k]),
            expected: expected_for(wanted_in(c)),
        }),
        entry(t, k, skip_end(t, k + 1, c, 0), wanted_in(c)).dropped_tokens == t.subrange(
            k,
            skip_end(t, k + 1, c, 0),
        ),
        c == Context::Single ==> single_of(t).result == Ok::<NodeView, ParseErrorView>(tree)
            && single_of(t).recorded.len() == 1,
        c == Context::Program ==> program_of(t).result == Ok::<Seq<NodeView>, ParseErrorView>(
            seq![tree],
        ) && program_of(t).recorded.len() == 1,
{
    let end = skip_end(t, k + 1, c, 0);
    lemma_skip_end(t, k + 1, c, 0);
    let none = Seq::<ErrorRecoveryView>::empty();
    let first = seq![entry(t, k, end, wanted_in(c))];
    let resumed = parse_resume(t, end, c, NodeView::Error);
    let rest = after(first, resumed);
    assert(first + none =~= first);
    assert(rest.recorded =~= first);
    let last = parse_settle(t, t.len() as int, c, tree);
    assert(last == made(tree, t.len() as int));
    assert(rest.recorded + none =~= first);
    let settled = parse_settle(t, k, c, whole);
    assert(settled.outcome == Ok::<(NodeView, int), ParseErrorView>((tree, t.len() as int)));
    assert(settled.recorded =~= first);
    assert(none + first =~= first);
    let node = parse_node(t, 0, c);
    assert(node.recorded =~= first);
    if c == Context::Program {
        let list = parse_nodes(t, 0, Seq::empty(), false);
        assert(Seq::<NodeView>::empty().push(tree) =~= seq![tree]);
        assert(list.recorded =~= first);
    }
}

/// A step with the place where it stopped moved by `d`.
pub open spec fn moved<T>(step: Step<T>, d: int) -> Step<T> {
    Step {
        outcome: match step.outcome {
            Ok((value, next)) => Ok((value, next + d)),
            Err(e) => Err(e),
        },
        recorded: step.recorded,
    }
}

/// What the tokens from `d` on hold at a place, the whole holds `d` places
/// later.
pub proof fn lemma_moved_tokens(t: Tokens, d: int, pos: int)
    requires
        0 <= d <= t.len(),
        0 <= pos,
    ensures
        forall|token: TokenView| stands_at(t, pos + d, token) == stands_at(t.skip(d), pos, token),
        forall|level: nat| operator_at(t, pos + d, level) == operator_at(t.skip(d), pos, level),
        forall|w: Wanted| unexpected(t, pos + d, w) == unexpected(t.skip(d), pos, w),
        pos < t.skip(d).len() ==> t.skip(d)[pos] == t[pos + d],
        (pos >= t.skip(d).len()) == (pos + d >= t.len()),
{
}

/// The same for a record of tokens dropped.
pub proof fn lemma_moved_entry(t: Tokens, d: int, pos: int, end: int, w: Wanted)
    requires
        0 <= d <= t.len(),
        0 <= pos,
    ensures
        entry(t, pos + d, end + d, w) == entry(t.skip(d), pos, end, w),
{
    lemma_moved_tokens(t, d, pos);
    if 0 <= pos <= end <= t.skip(d).len() {
        assert(t.subrange(pos + d, end + d) =~= t.skip(d).subrange(pos, end));
    }
}

/// The same for the place where the dropping of tokens stops.
pub proof fn lemma_moved_skip_end(t: Tokens, d: int, pos: int, c: Context, depth: nat)
    requires
        0 <= d <= t.len(),
        0 <= pos,
    ensures
        skip_end(t, pos + d, c, depth) == skip_end(t.skip(d), pos, c, depth) + d,
    decreases left(t.skip(d), pos),
{
    lemma_moved_tokens(t, d, pos);
    if pos < t.skip(d).len() {
        if depth == 0 && follows(c, t[pos + d].1) {
        } else if opens(t[pos + d].1) {
            lemma_moved_skip_end(t, d, pos + 1, c, depth + 1);
        } else if shuts(t[pos + d].1) && depth > 0 {
            lemma_moved_skip_end(t, d, pos + 1, c, (depth - 1) as nat);
        } else {
            lemma_moved_skip_end(t, d, pos + 1, c, depth);
        }
    }
}

/// The parse of an operand does not depend on what stands before it.
pub proof fn lemma_moved_operand(t: Tokens, d: int, pos: int, c: Context)
    requires
        0 <= d <= t.len(),
        0 <= pos,
    ensures
        parse_operand(t, pos + d, c) == moved(parse_operand(t.skip(d), pos, c), d),
    decreases left(t.skip(d), pos), 0nat, 0nat,
{
    let s = t.skip(d);
    lemma_moved_tokens(t, d, pos);
    lemma_moved_tokens(t, d, pos + 1);
    if pos >= s.len() {
        lemma_moved_entry(t, d, pos, pos, Wanted::Operand);
    } else {
        match s[pos].1 {
            TokenView::Integer(v) => {},
            TokenView::Float(f) => {},
            TokenView::Prev => {},
            TokenView::Ident(name) => {
                if stands_at(s, pos + 1, TokenView::LParen) {
                    lemma_moved_arguments(t, d, pos + 2, Seq::empty());
                }
            },
            TokenView::LParen => {
                lemma_moved_settled(t, d, pos + 1, Context::Paren);
                let inner = parse_settled(s, pos + 1, Context::Paren);
                if inner.outcome is Ok {
                    let next = inner.outcome->Ok_0.1;
                    lemma_settled_sound(s, pos + 1, Context::Paren);
                    lemma_moved_tokens(t, d, next);
                }
            },
            _ => {
                lemma_moved_skip_end(t, d, pos, c, 0);
                lemma_moved_entry(t, d, pos, skip_end(s, pos, c, 0), Wanted::Operand);
            },
        }
    }
}

/// The parse of arguments does not depend on what stands before them.
pub proof fn lemma_moved_arguments(t: Tokens, d: int, pos: int, done: Seq<NodeView>)
    requires
        0 <= d <= t.len(),
        0 <= pos,
    ensures
        parse_arguments(t, pos + d, done) == moved(parse_arguments(t.skip(d), pos, done), d),
    decreases left(t.skip(d), pos), 8nat, 0nat,
{
    let s = t.skip(d);
    lemma_moved_tokens(t, d, pos);
    if !(done.len() == 0 && stands_at(s, pos, TokenView::RParen)) {
        lemma_moved_settled(t, d, pos, Context::Args);
        let step = parse_settled(s, pos, Context::Args);
        match step.outcome {
            Ok((node, next)) => {
                if pos <= s.len() {
                    lemma_settled_sound(s, pos, Context::Args);
                    lemma_moved_tokens(t, d, next);
                    if stands_at(s, next, TokenView::Comma) && next >= pos {
                        lemma_moved_arguments(t, d, next + 1, done.push(node));
                    }
                } else {
                    lemma_beyond_settled(s, pos, Context::Args);
                    lemma_moved_tokens(t, d, next);
                }
            },
            Err(e) => {},
        }
    }
}

/// Beyond the end of the input an operand is missing, and nothing more
/// is read.
pub proof fn lemma_beyond_settled(s: Tokens, pos: int, c: Context)
    requires
        pos >= s.len(),
    ensures
        parse_settled(s, pos, c).outcome == Ok::<(NodeView, int), ParseErrorView>(
            (NodeView::Error, pos),
        ),
        parse_level(s, pos, 0, c).outcome == Ok::<(NodeView, int), ParseErrorView>(
            (NodeView::Error, pos),
        ),
{
    assert(parse_operand(s, pos, c).outcome == Ok::<(NodeView, int), ParseErrorView>(
        (NodeView::Error, pos),
    ));
    assert(parse_level(s, pos, 4, c) == parse_operand(s, pos, c));
    let e = NodeView::Error;
    assert(parse_tail(s, pos, 3, e, c) == made(e, pos));
    assert(parse_level(s, pos, 3, c).outcome == Ok::<(NodeView, int), ParseErrorView>((e, pos)));
    assert(parse_power(s, pos, e, c) == made(e, pos));
    assert(parse_level(s, pos, 2, c).outcome == Ok::<(NodeView, int), ParseErrorView>((e, pos)));
    assert(parse_tail(s, pos, 1, e, c) == made(e, pos));
    assert(parse_level(s, pos, 1, c).outcome == Ok::<(NodeView, int), ParseErrorView>((e, pos)));
    assert(parse_tail(s, pos, 0, e, c) == made(e, pos));
    assert(parse_level(s, pos, 0, c).outcome == Ok::<(NodeView, int), ParseErrorView>((e, pos)));
    assert(parse_settle(s, pos, c, e) == made(e, pos));
}

/// The parse of an expression does not depend on what stands before it.
pub proof fn lemma_moved_level(t: Tokens, d: int, pos: int, level: nat, c: Context)
    requires
        0 <= d <= t.len(),
        0 <= pos,
    ensures
        parse_level(t, pos + d, level, c) == moved(parse_level(t.skip(d), pos, level, c), d),
    decreases left(t.skip(d), pos),
        (if level < 4 {
            5 - level
        } else {
            1
        }) as nat,
        1nat,
{
    let s = t.skip(d);
    if level >= 4 {
        lemma_moved_operand(t, d, pos, c);
    } else {
        lemma_moved_level(t, d, pos, level + 1, c);
        let first = parse_level(s, pos, level + 1, c);
        match first.outcome {
            Ok((lhs, next)) => {
                if next >= pos {
                    if level == 2 {
                        lemma_moved_power(t, d, next, lhs, c);
                    } else {
                        lemma_moved_tail(t, d, next, level, lhs, c);
                    }
                }
            },
            Err(e) => {},
        }
    }
}

/// The parse of what follows the left side of a power does not depend on
/// what stands before it.
pub proof fn lemma_moved_power(t: Tokens, d: int, pos: int, lhs: NodeView, c: Context)
    requires
        0 <= d <= t.len(),
        0 <= pos,
    ensures
        parse_power(t, pos + d, lhs, c) == moved(parse_power(t.skip(d), pos, lhs, c), d),
    decreases left(t.skip(d), pos), 3nat, 0nat,
{
    let s = t.skip(d);
    lemma_moved_tokens(t, d, pos);
    match operator_at(s, pos, 2) {
        Some(op) => {
            lemma_moved_level(t, d, pos + 1, 2, c);
        },
        None => {},
    }
}

/// The parse of what follows an expression does not depend on what stands
/// before it.
pub proof fn lemma_moved_tail(t: Tokens, d: int, pos: int, level: nat, lhs: NodeView, c: Context)
    requires
        0 <= d <= t.len(),
        0 <= pos,
    ensures
        parse_tail(t, pos + d, level, lhs, c) == moved(
            parse_tail(t.skip(d), pos, level, lhs, c),
            d,
        ),
    decreases left(t.skip(d), pos),
        (if level < 4 {
            5 - level
        } else {
            1
        }) as nat,
        0nat,
{
    let s = t.skip(d);
    lemma_moved_tokens(t, d, pos);
    match operator_at(s, pos, level) {
        Some(op) => {
            lemma_moved_level(t, d, pos + 1, level + 1, c);
            let step = parse_level(s, pos + 1, level + 1, c);
            match step.outcome {
                Ok((rhs, next)) => {
                    if next > pos {
                        lemma_moved_tail(t, d, next, level, infix(lhs, op, rhs), c);
                    }
                },
                Err(e) => {},
            }
        },
        None => {},
    }
}

/// The parse of an expression that goes on from an operand does not depend
/// on what stands before it.
pub proof fn lemma_moved_resume(t: Tokens, d: int, pos: int, c: Context, lhs: NodeView)
    requires
        0 <= d <= t.len(),
        0 <= pos,
    ensures
        parse_resume(t, pos + d, c, lhs) == moved(parse_resume(t.skip(d), pos, c, lhs), d),
    decreases left(t.skip(d), pos), 6nat, 2nat,
{
    let s = t.skip(d);
    lemma_moved_tail(t, d, pos, 3, lhs, c);
    let first = parse_tail(s, pos, 3, lhs, c);
    match first.outcome {
        Ok((a, next)) => {
            if next >= pos {
                lemma_moved_resume_power(t, d, next, c, a);
            }
        },
        Err(e) => {},
    }
}

/// The same for what goes on from a chain of shifts.
pub proof fn lemma_moved_resume_power(t: Tokens, d: int, pos: int, c: Context, lhs: NodeView)
    requires
        0 <= d <= t.len(),
        0 <= pos,
    ensures
        parse_resume_power(t, pos + d, c, lhs) == moved(
            parse_resume_power(t.skip(d), pos, c, lhs),
            d,
        ),
    decreases left(t.skip(d), pos), 6nat, 1nat,
{
    let s = t.skip(d);
    lemma_moved_power(t, d, pos, lhs, c);
    let first = parse_power(s, pos, lhs, c);
    match first.outcome {
        Ok((a, next)) => {
            if next >= pos {
                lemma_moved_resume_products(t, d, next, c, a);
            }
        },
        Err(e) => {},
    }
}

/// The same for what goes on from a power.
pub proof fn lemma_moved_resume_products(t: Tokens, d: int, pos: int, c: Context, lhs: NodeView)
    requires
        0 <= d <= t.len(),
        0 <= pos,
    ensures
        parse_resume_products(t, pos + d, c, lhs) == moved(
            parse_resume_products(t.skip(d), pos, c, lhs),
            d,
        ),
    decreases left(t.skip(d), pos), 6nat, 0nat,
{
    let s = t.skip(d);
    lemma_moved_tail(t, d, pos, 1, lhs, c);
    let first = parse_tail(s, pos, 1, lhs, c);
    match first.outcome {
        Ok((a, next)) => {
            if next >= pos {
                lemma_moved_tail(t, d, next, 0, a, c);
            }
        },
        Err(e) => {},
    }
}

/// What is settled does not depend on what stands before it.
pub proof fn lemma_moved_settle(t: Tokens, d: int, pos: int, c: Context, node: NodeView)
    requires
        0 <= d <= t.len(),
        0 <= pos,
    ensures
        parse_settle(t, pos + d, c, node) == moved(parse_settle(t.skip(d), pos, c, node), d),
    decreases left(t.skip(d), pos), 6nat, 3nat,
{
    let s = t.skip(d);
    lemma_moved_tokens(t, d, pos);
    if !(pos >= s.len() || closes(c, s[pos].1)) {
        lemma_moved_skip_end(t, d, pos + 1, c, 0);
        lemma_skip_end(s, pos + 1, c, 0);
        let end = skip_end(s, pos + 1, c, 0);
        lemma_moved_entry(t, d, pos, end, wanted_in(c));
        lemma_moved_resume(t, d, end, c, NodeView::Error);
        let first = seq![entry(s, pos, end, wanted_in(c))];
        let rest = after(first, parse_resume(s, end, c, NodeView::Error));
        match rest.outcome {
            Ok((other, next)) => {
                if next >= end {
                    lemma_moved_settle(t, d, next, c, other);
                }
            },
            Err(e) => {},
        }
    }
}

/// The parse of an expression up to its end does not depend on what stands
/// before it.
pub proof fn lemma_moved_settled(t: Tokens, d: int, pos: int, c: Context)
    requires
        0 <= d <= t.len(),
        0 <= pos,
    ensures
        parse_settled(t, pos + d, c) == moved(parse_settled(t.skip(d), pos, c), d),
    decreases left(t.skip(d), pos), 7nat, 0nat,
{
    let s = t.skip(d);
    lemma_moved_level(t, d, pos, 0, c);
    let first = parse_level(s, pos, 0, c);
    match first.outcome {
        Ok((node, next)) => {
            if next >= pos {
                lemma_moved_settle(t, d, next, c, node);
            }
        },
        Err(e) => {},
    }
}

/// Beyond the end of the input, the parse of an expression records that an
/// operand is missing.
pub proof fn lemma_beyond_level(s: Tokens, pos: int, level: nat, c: Context)
    requires
        pos >= s.len(),
    ensures
        parse_level(s, pos, level, c).recorded.len() >= 1,
    decreases (if level < 4 {
            5 - level
        } else {
            1
        }) as nat,
{
    if level >= 4 {
        assert(parse_operand(s, pos, c).recorded.len() == 1);
    } else {
        lemma_beyond_level(s, pos, level + 1, c);
    }
}

/// What is settled with nothing recorded is what was complete, and it
/// stands at the end of the input or before a token that ends it.
pub proof fn lemma_settle_unrecorded(t: Tokens, pos: int, c: Context, node: NodeView)
    requires
        0 <= pos,
        parse_settle(t, pos, c, node).recorded.len() == 0,
    ensures
        parse_settle(t, pos, c, node) == made(node, pos),
        pos >= t.len() || closes(c, t[pos].1),
{
    if !(pos >= t.len() || closes(c, t[pos].1)) {
        let end = skip_end(t, pos + 1, c, 0);
        let first = seq![entry(t, pos, end, wanted_in(c))];
        assert(first.len() == 1);
        if end > pos {
            let rest = after(first, parse_resume(t, end, c, NodeView::Error));
            assert(rest.recorded.len() >= 1);
        }
    }
}

/// Whether a step made something with no error to get over.
pub open spec fn went_well<T>(step: Step<T>) -> bool {
    step.outcome is Ok && step.recorded.len() == 0
}

/// An operand that is parsed with no error in the first `k` tokens alone is
/// parsed in the same way before a token at `k` that goes on with nothing.
pub proof fn lemma_prefix_operand(t: Tokens, k: int, pos: int, c: Context)
    requires
        0 <= pos <= k < t.len(),
        !is_operator(t[k].1),
        t[k].1 != TokenView::LParen,
        went_well(parse_operand(t.take(k), pos, c)),
    ensures
        parse_operand(t, pos, c) == parse_operand(t.take(k), pos, c),
    decreases left(t.take(k), pos), 0nat, 0nat,
{
    let s = t.take(k);
    if pos < k {
        assert(s[pos] == t[pos]);
        if pos + 1 < k {
            assert(s[pos + 1] == t[pos + 1]);
        }
        match s[pos].1 {
            TokenView::Ident(name) => {
                if stands_at(s, pos + 1, TokenView::LParen) {
                    lemma_prefix_arguments(t, k, pos + 2, Seq::empty());
                }
            },
            TokenView::LParen => {
                let inner = parse_settled(s, pos + 1, Context::Paren);
                let next = inner.outcome->Ok_0.1;
                assert(stands_at(s, next, TokenView::RParen));
                lemma_prefix_settled(t, k, pos + 1, Context::Paren);
                assert(s[next] == t[next]);
            },
            _ => {},
        }
    }
}

/// The same for arguments.
pub proof fn lemma_prefix_arguments(t: Tokens, k: int, pos: int, done: Seq<NodeView>)
    requires
        0 <= pos <= k < t.len(),
        !is_operator(t[k].1),
        t[k].1 != TokenView::LParen,
        went_well(parse_arguments(t.take(k), pos, done)),
    ensures
        parse_arguments(t, pos, done) == parse_arguments(t.take(k), pos, done),
    decreases left(t.take(k), pos), 8nat, 0nat,
{
    let s = t.take(k);
    if pos < k {
        assert(s[pos] == t[pos]);
    }
    if !(done.len() == 0 && stands_at(s, pos, TokenView::RParen)) {
        let step = parse_settled(s, pos, Context::Args);
        if pos >= k {
            lemma_beyond_level(s, pos, 0, Context::Args);
        } else {
            match step.outcome {
                Ok((node, next)) => {
                    assert(stands_at(s, next, TokenView::Comma) || stands_at(
                        s,
                        next,
                        TokenView::RParen,
                    ));
                    lemma_prefix_settled(t, k, pos, Context::Args);
                    assert(s[next] == t[next]);
                    if stands_at(s, next, TokenView::Comma) && next >= pos {
                        lemma_prefix_arguments(t, k, next + 1, done.push(node));
                    }
                },
                Err(e) => {},
            }
        }
    }
}

/// The same for an expression.
pub proof fn lemma_prefix_level(t: Tokens, k: int, pos: int, level: nat, c: Context)
    requires
        0 <= pos <= k < t.len(),
        !is_operator(t[k].1),
        t[k].1 != TokenView::LParen,
        went_well(parse_level(t.take(k), pos, level, c)),
    ensures
        parse_level(t, pos, level, c) == parse_level(t.take(k), pos, level, c),
    decreases left(t.take(k), pos),
        (if level < 4 {
            5 - level
        } else {
            1
        }) as nat,
        1nat,
{
    let s = t.take(k);
    if level >= 4 {
        lemma_prefix_operand(t, k, pos, c);
    } else {
        let first = parse_level(s, pos, level + 1, c);
        lemma_level_sound(s, pos, level + 1, c);
        match first.outcome {
            Ok((lhs, next)) => {
                lemma_prefix_level(t, k, pos, level + 1, c);
                if level == 2 {
                    lemma_prefix_power(t, k, next, lhs, c);
                } else {
                    lemma_prefix_tail(t, k, next, level, lhs, c);
                }
            },
            Err(e) => {},
        }
    }
}

/// The same for what follows the left side of a power.
pub proof fn lemma_prefix_power(t: Tokens, k: int, pos: int, lhs: NodeView, c: Context)
    requires
        0 <= pos <= k < t.len(),
        !is_operator(t[k].1),
        t[k].1 != TokenView::LParen,
        went_well(parse_power(t.take(k), pos, lhs, c)),
    ensures
        parse_power(t, pos, lhs, c) == parse_power(t.take(k), pos, lhs, c),
    decreases left(t.take(k), pos), 3nat, 0nat,
{
    let s = t.take(k);
    if pos < k {
        assert(s[pos] == t[pos]);
    }
    match operator_at(s, pos, 2) {
        Some(op) => {
            lemma_prefix_level(t, k, pos + 1, 2, c);
        },
        None => {},
    }
}

/// The same for what follows an expression.
pub proof fn lemma_prefix_tail(t: Tokens, k: int, pos: int, level: nat, lhs: NodeView, c: Context)
    requires
        0 <= pos <= k < t.len(),
        !is_operator(t[k].1),
        t[k].1 != TokenView::LParen,
        went_well(parse_tail(t.take(k), pos, level, lhs, c)),
    ensures
        parse_tail(t, pos, level, lhs, c) == parse_tail(t.take(k), pos, level, lhs, c),
    decreases left(t.take(k), pos),
        (if level < 4 {
            5 - level
        } else {
            1
        }) as nat,
        0nat,
{
    let s = t.take(k);
    if pos < k {
        assert(s[pos] == t[pos]);
    }
    match operator_at(s, pos, level) {
        Some(op) => {
            let step = parse_level(s, pos + 1, level + 1, c);
            lemma_level_sound(s, pos + 1, level + 1, c);
            match step.outcome {
                Ok((rhs, next)) => {
                    lemma_prefix_level(t, k, pos + 1, level + 1, c);
                    if next > pos {
                        lemma_prefix_tail(t, k, next, level, infix(lhs, op, rhs), c);
                    }
                },
                Err(e) => {},
            }
        },
        None => {},
    }
}

/// The same for an expression up to its end, where that is before `k`.
pub proof fn lemma_prefix_settled(t: Tokens, k: int, pos: int, c: Context)
    requires
        0 <= pos <= k < t.len(),
        !is_operator(t[k].1),
        t[k].1 != TokenView::LParen,
        went_well(parse_settled(t.take(k), pos, c)),
        parse_settled(t.take(k), pos, c).outcome->Ok_0.1 < k,
    ensures
        parse_settled(t, pos, c) == parse_settled(t.take(k), pos, c),
    decreases left(t.take(k), pos), 7nat, 0nat,
{
    let s = t.take(k);
    let first = parse_level(s, pos, 0, c);
    lemma_level_sound(s, pos, 0, c);
    match first.outcome {
        Ok((node, next)) => {
            lemma_prefix_level(t, k, pos, 0, c);
            lemma_settle_unrecorded(s, next, c, node);
            assert(s[next] == t[next]);
        },
        Err(e) => {},
    }
}

/// Tokens, one token, and tokens, put together.
pub open spec fn with_stray(before: Tokens, stray: (usize, TokenView, usize), behind: Tokens) -> Tokens {
    before.push(stray) + behind
}

/// The record of a token that did not fit after what was complete in a
/// context, where it is the one token dropped.
pub open spec fn stray_record(stray: (usize, TokenView, usize), c: Context) -> ErrorRecoveryView {
    ErrorRecoveryView {
        error: ParseErrorView::UnrecognizedToken {
            token: Some(stray),
            expected: expected_for(wanted_in(c)),
        },
        dropped_tokens: seq![stray],
    }
}

/// The parts of tokens that were put together.
pub proof fn lemma_with_stray(before: Tokens, stray: (usize, TokenView, usize), behind: Tokens)
    ensures
        with_stray(before, stray, behind).len() == before.len() + 1 + behind.len(),
        with_stray(before, stray, behind).take(before.len() as int) == before,
        with_stray(before, stray, behind).skip(before.len() as int + 1) == behind,
        with_stray(before, stray, behind)[before.len() as int] == stray,
        before.len() > 0 ==> with_stray(before, stray, behind)[0] == before[0],
        behind.len() > 0 ==> with_stray(before, stray, behind)[before.len() as int + 1] == behind[0],
{
    let t = with_stray(before, stray, behind);
    assert(t.take(before.len() as int) =~= before);
    assert(t.skip(before.len() as int + 1) =~= behind);
}

/// The statement that tokens with one stray token among them spell.
#[verifier::spinoff_prover]
#[verifier::rlimit(100)]
pub proof fn lemma_stray_statement(
    before: Tokens,
    stray: (usize, TokenView, usize),
    behind: Tokens,
    c: Context,
    whole: NodeView,
    tree: NodeView,
)
    requires
        c == Context::Single || c == Context::Program,
        before.len() > 0,
        before[0].1 != TokenView::Let,
        parse_level(before, 0, 0, c) == made(whole, before.len() as int),
        !is_operator(stray.1),
        stray.1 != TokenView::LParen,
        !closes(c, stray.1),
        behind.len() == 0 || is_operator(behind[0].1),
        parse_resume(behind, 0, c, NodeView::Error) == made(tree, behind.len() as int),
    ensures
        parse_node(with_stray(before, stray, behind), 0, c) == (Step {
            outcome: Ok((tree, with_stray(before, stray, behind).len() as int)),
            recorded: seq![stray_record(stray, c)],
        }),
{
    let t = with_stray(before, stray, behind);
    let k = before.len() as int;
    lemma_with_stray(before, stray, behind);
    assert(parse_level(t, 0, 0, c) == made(whole, k)) by {
        lemma_prefix_level(t, k, 0, 0, c);
    }
    assert(skip_end(t, k + 1, c, 0) == k + 1) by {
        if behind.len() > 0 {
            assert(follows(c, t[k + 1].1));
        }
    }
    assert(parse_resume(t, k + 1, c, NodeView::Error) == made(tree, t.len() as int)) by {
        lemma_moved_resume(t, k + 1, 0, c, NodeView::Error);
    }
    assert(!stands_at(t, 0, TokenView::Let));
    law_token_after_statement_is_got_over(t, c, whole, k, tree);
    assert(entry(t, k, k + 1, wanted_in(c)) == stray_record(stray, c)) by {
        assert(t.subrange(k, k + 1) =~= seq![stray]);
    }
}

/// One token that fits nowhere, between an expression and what goes on
/// after it, is got over. Let `before` be tokens that alone are one
/// expression, parsed with no error. Let `stray` be a token that is no
/// operator and no opening parenthesis, and does not end a statement. Let
/// `behind` be tokens that go on from an operand with no error and to
/// their end: they are none, or begin with an operator. Then the parse of
/// `before`, `stray`, `behind` gives the tree that `behind` makes of
/// `Node::Error`, and records exactly one error: it names `stray`, and
/// `stray` is the one token dropped.
pub proof fn law_stray_token_is_got_over(
    before: Tokens,
    stray: (usize, TokenView, usize),
    behind: Tokens,
    c: Context,
    whole: NodeView,
    tree: NodeView,
)
    requires
        c == Context::Single || c == Context::Program,
        before.len() > 0,
        before[0].1 != TokenView::Let,
        parse_level(before, 0, 0, c) == made(whole, before.len() as int),
        !is_operator(stray.1),
        stray.1 != TokenView::LParen,
        !closes(c, stray.1),
        behind.len() == 0 || is_operator(behind[0].1),
        parse_resume(behind, 0, c, NodeView::Error) == made(tree, behind.len() as int),
    ensures
        c == Context::Single ==> single_of(with_stray(before, stray, behind)) == (Parse {
            result: Ok(tree),
            recorded: seq![stray_record(stray, c)],
        }),
        c == Context::Program ==> program_of(with_stray(before, stray, behind)) == (Parse {
            result: Ok(seq![tree]),
            recorded: seq![stray_record(stray, c)],
        }),
{
    let t = with_stray(before, stray, behind);
    lemma_stray_statement(before, stray, behind, c, whole, tree);
    lemma_with_stray(before, stray, behind);
    if c == Context::Program {
        let step = parse_node(t, 0, c);
        let list = parse_nodes(t, 0, Seq::empty(), false);
        assert(!list_ends(t, 0, false));
        assert(list_ends(t, t.len() as int, false));
        assert(!stands_at(t, t.len() as int, TokenView::Semicolon));
        assert(Seq::<NodeView>::empty().push(tree) =~= seq![tree]);
        assert(list == (Step {
            outcome: Ok((seq![tree], t.len() as int)),
            recorded: step.recorded,
        }));
    }
}

} // verus!
