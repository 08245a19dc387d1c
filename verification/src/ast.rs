//! The syntax tree, and what a parse can report.
use crate::float::{FloatValue, FloatValueView};
use crate::integer::{decimal_text, Integer};
use crate::number::{Number, NumberView};
use crate::text::push_text;
use crate::token::{Token, TokenView};
use vstd::prelude::*;
use vstd::string::{StrSliceExecFns, StringExecFns};

verus! {

/// The seven binary operators of the language.
#[derive(Copy, Clone, Debug, PartialEq, Eq, Structural)]
pub enum Opcode {
    Mul,
    Div,
    Add,
    Sub,
    Pow,
    Shl,
    Shr,
}

/// The spelling of an operator.
pub open spec fn symbol_of(op: Opcode) -> Seq<char> {
    match op {
        Opcode::Mul => "*"@,
        Opcode::Div => "/"@,
        Opcode::Add => "+"@,
        Opcode::Sub => "-"@,
        Opcode::Pow => "**"@,
        Opcode::Shl => "<<"@,
        Opcode::Shr => ">>"@,
    }
}

/// The operator that a text spells, if it spells one.
pub open spec fn opcode_of(text: Seq<char>) -> Option<Opcode> {
    if text == "+"@ {
        Some(Opcode::Add)
    } else if text == "-"@ {
        Some(Opcode::Sub)
    } else if text == "*"@ {
        Some(Opcode::Mul)
    } else if text == "/"@ {
        Some(Opcode::Div)
    } else if text == "**"@ {
        Some(Opcode::Pow)
    } else if text == "<<"@ {
        Some(Opcode::Shl)
    } else if text == ">>"@ {
        Some(Opcode::Shr)
    } else {
        None
    }
}

/// Whether two string slices hold the same text.
pub fn same_text(a: &str, b: &str) -> (r: bool)
    ensures
        r == (a@ == b@),
{
    let n = a.unicode_len();
    if n != b.unicode_len() {
        return false;
    }
    let mut i: usize = 0;
    while i < n
        invariant
            i <= n,
            n == a@.len(),
            n == b@.len(),
            a@.take(i as int) == b@.take(i as int),
        decreases n - i,
    {
        if a.get_char(i) != b.get_char(i) {
            return false;
        }
        i += 1;
        assert(a@.take(i as int) =~= a@.take(i - 1).push(a@[i - 1]));
        assert(b@.take(i as int) =~= b@.take(i - 1).push(b@[i - 1]));
    }
    assert(a@.take(n as int) =~= a@);
    assert(b@.take(n as int) =~= b@);
    true
}

impl Opcode {
    /// The spelling of the operator.
    pub fn symbol(&self) -> (r: &'static str)
        ensures
            r@ == symbol_of(*self),
    {
        match self {
            Opcode::Mul => "*",
            Opcode::Div => "/",
            Opcode::Add => "+",
            Opcode::Sub => "-",
            Opcode::Pow => "**",
            Opcode::Shl => "<<",
            Opcode::Shr => ">>",
        }
    }

    /// The spelling of the operator, as a string of its own.
    pub fn to_string(&self) -> (r: String)
        ensures
            r@ == symbol_of(*self),
    {
        let mut out = String::new();
        push_text(&mut out, self.symbol());
        assert(out@ =~= symbol_of(*self));
        out
    }

    /// The operator that a text spells.
    pub fn from_symbol(text: &str) -> (r: Option<Opcode>)
        ensures
            r == opcode_of(text@),
    {
        if same_text(text, "+") {
            Some(Opcode::Add)
        } else if same_text(text, "-") {
            Some(Opcode::Sub)
        } else if same_text(text, "*") {
            Some(Opcode::Mul)
        } else if same_text(text, "/") {
            Some(Opcode::Div)
        } else if same_text(text, "**") {
            Some(Opcode::Pow)
        } else if same_text(text, "<<") {
            Some(Opcode::Shl)
        } else if same_text(text, ">>") {
            Some(Opcode::Shr)
        } else {
            None
        }
    }
}

/// Every operator is spelled in its own way: the spelling gives it back.
pub proof fn law_symbol_names_operator(op: Opcode)
    ensures
        opcode_of(symbol_of(op)) == Some(op),
{
    reveal_strlit("+");
    reveal_strlit("-");
    reveal_strlit("*");
    reveal_strlit("/");
    reveal_strlit("**");
    reveal_strlit("<<");
    reveal_strlit(">>");
    assert("+"@.len() == 1 && "-"@.len() == 1 && "*"@.len() == 1 && "/"@.len() == 1);
    assert("**"@.len() == 2 && "<<"@.len() == 2 && ">>"@.len() == 2);
    assert("+"@[0] == '+');
    assert("-"@[0] == '-');
    assert("*"@[0] == '*');
    assert("/"@[0] == '/');
    assert("**"@[0] == '*');
    assert("<<"@[0] == '<');
    assert(">>"@[0] == '>');
}

/// A node of the syntax tree.
#[derive(Debug, PartialEq, Eq)]
pub enum Node {
    Number(Number),
    String(String),
    Ident(String),
    Infix { lhs: Box<Node>, op: String, rhs: Box<Node> },
    FunctionDef { name: String, params: Vec<String>, body: Vec<Node> },
    FunctionCall { name: String, args: Vec<Node> },
    Let(String, Box<Node>),
    Prev,
    /// What stands where a fragment could not be parsed.
    Error,
}

/// The mathematical content of a `Node`.
pub enum NodeView {
    Number(NumberView),
    String(Seq<char>),
    Ident(Seq<char>),
    Infix { lhs: Box<NodeView>, op: Seq<char>, rhs: Box<NodeView> },
    FunctionDef { name: Seq<char>, params: Seq<Seq<char>>, body: Seq<NodeView> },
    FunctionCall { name: Seq<char>, args: Seq<NodeView> },
    Let(Seq<char>, Box<NodeView>),
    Prev,
    Error,
}

/// The texts of some strings.
pub open spec fn names_view(v: Seq<String>) -> Seq<Seq<char>> {
    Seq::new(v.len(), |i: int| v[i]@)
}

/// The content of a node.
pub open spec fn node_view(n: Node) -> NodeView
    decreases n,
{
    match n {
        Node::Number(x) => NodeView::Number(x@),
        Node::String(s) => NodeView::String(s@),
        Node::Ident(s) => NodeView::Ident(s@),
        Node::Infix { lhs, op, rhs } => NodeView::Infix {
            lhs: Box::new(node_view(*lhs)),
            op: op@,
            rhs: Box::new(node_view(*rhs)),
        },
        Node::FunctionDef { name, params, body } => NodeView::FunctionDef {
            name: name@,
            params: names_view(params@),
            body: Seq::new(
                body.len() as nat,
                |i: int|
                    if 0 <= i < body.len() {
                        node_view(body[i])
                    } else {
                        NodeView::Error
                    },
            ),
        },
        Node::FunctionCall { name, args } => NodeView::FunctionCall {
            name: name@,
            args: Seq::new(
                args.len() as nat,
                |i: int|
                    if 0 <= i < args.len() {
                        node_view(args[i])
                    } else {
                        NodeView::Error
                    },
            ),
        },
        Node::Let(name, value) => NodeView::Let(name@, Box::new(node_view(*value))),
        Node::Prev => NodeView::Prev,
        Node::Error => NodeView::Error,
    }
}

impl View for Node {
    type V = NodeView;

    open spec fn view(&self) -> NodeView {
        node_view(*self)
    }
}

/// The contents of some nodes.
pub open spec fn nodes_view(v: Seq<Node>) -> Seq<NodeView> {
    Seq::new(v.len(), |i: int| v[i]@)
}

/// The view of a definition's body or of a call's arguments is the view of
/// each node in turn.
pub proof fn lemma_node_view_lists(n: Node)
    ensures
        n matches Node::FunctionDef { name, params, body } ==> n@ == (NodeView::FunctionDef {
            name: name@,
            params: names_view(params@),
            body: nodes_view(body@),
        }),
        n matches Node::FunctionCall { name, args } ==> n@ == (NodeView::FunctionCall {
            name: name@,
            args: nodes_view(args@),
        }),
{
    match n {
        Node::FunctionDef { name, params, body } => {
            assert(n@->FunctionDef_body =~= nodes_view(body@));
        },
        Node::FunctionCall { name, args } => {
            assert(n@->FunctionCall_args =~= nodes_view(args@));
        },
        _ => {},
    }
}

/// A copy of some strings.
pub fn clone_names(v: &Vec<String>) -> (r: Vec<String>)
    ensures
        names_view(r@) == names_view(v@),
{
    let mut out: Vec<String> = Vec::new();
    let mut i: usize = 0;
    while i < v.len()
        invariant
            i <= v.len(),
            out@.len() == i,
            forall|j: int| 0 <= j < i ==> out@[j]@ == v@[j]@,
        decreases v.len() - i,
    {
        out.push(v[i].clone());
        i += 1;
    }
    assert(names_view(out@) =~= names_view(v@));
    out
}

/// A copy of some nodes.
pub fn clone_nodes(v: &Vec<Node>) -> (r: Vec<Node>)
    ensures
        nodes_view(r@) == nodes_view(v@),
    decreases v,
{
    let mut out: Vec<Node> = Vec::new();
    let mut i: usize = 0;
    while i < v.len()
        invariant
            i <= v.len(),
            out@.len() == i,
            forall|j: int| 0 <= j < i ==> out@[j]@ == v@[j]@,
            forall|j: int| 0 <= j < v.len() ==> decreases_to!(v => #[trigger] v[j]),
        decreases v.len() - i,
    {
        out.push(clone_node(&v[i]));
        i += 1;
    }
    assert(nodes_view(out@) =~= nodes_view(v@));
    out
}

/// A copy of a node.
pub fn clone_node(n: &Node) -> (r: Node)
    ensures
        r@ == n@,
    decreases n,
{
    proof {
        lemma_node_view_lists(*n);
    }
    let r = match n {
        Node::Number(x) => Node::Number(x.clone()),
        Node::String(s) => Node::String(s.clone()),
        Node::Ident(s) => Node::Ident(s.clone()),
        Node::Infix { lhs, op, rhs } => Node::Infix {
            lhs: Box::new(clone_node(lhs)),
            op: op.clone(),
            rhs: Box::new(clone_node(rhs)),
        },
        Node::FunctionDef { name, params, body } => Node::FunctionDef {
            name: name.clone(),
            params: clone_names(params),
            body: clone_nodes(body),
        },
        Node::FunctionCall { name, args } => Node::FunctionCall {
            name: name.clone(),
            args: clone_nodes(args),
        },
        Node::Let(name, value) => Node::Let(name.clone(), Box::new(clone_node(value))),
        Node::Prev => Node::Prev,
        Node::Error => Node::Error,
    };
    proof {
        lemma_node_view_lists(r);
    }
    r
}

impl Clone for Node {
    fn clone(&self) -> (r: Self)
        ensures
            r@ == self@,
    {
        clone_node(self)
    }
}

/// An error of the parser's caller, put into the stream of tokens.
#[derive(Copy, Clone, Debug, PartialEq, Eq, Structural)]
pub enum Error {
    /// The source of the tokens had none to give at this place.
    Rejected,
}

/// A token with the offsets at which it begins and ends.
pub type Triple = (usize, Token, usize);

/// What the parser reports.
#[allow(inconsistent_fields)]
#[derive(Debug, PartialEq, Eq)]
pub enum ParseError {
    /// A token that cannot be read, at `location`.
    InvalidToken { location: usize },
    /// A token that does not fit where it stands, or the end of the input
    /// where a token is still needed; `expected` names what would fit.
    UnrecognizedToken { token: Option<Triple>, expected: Vec<String> },
    /// A token after the end of what was parsed.
    ExtraToken { token: Triple },
    /// An error that came with the tokens.
    User { error: Error },
}

/// The mathematical content of a `ParseError`.
#[allow(inconsistent_fields)]
pub enum ParseErrorView {
    InvalidToken { location: usize },
    UnrecognizedToken { token: Option<(usize, TokenView, usize)>, expected: Seq<Seq<char>> },
    ExtraToken { token: (usize, TokenView, usize) },
    User { error: Error },
}

/// The content of a token with its offsets.
pub open spec fn triple_view(t: Triple) -> (usize, TokenView, usize) {
    (t.0, t.1@, t.2)
}

/// The contents of some tokens with their offsets.
pub open spec fn triples_view(v: Seq<Triple>) -> Seq<(usize, TokenView, usize)> {
    Seq::new(v.len(), |i: int| triple_view(v[i]))
}

impl View for ParseError {
    type V = ParseErrorView;

    open spec fn view(&self) -> ParseErrorView {
        match self {
            ParseError::InvalidToken { location } => ParseErrorView::InvalidToken {
                location: *location,
            },
            ParseError::UnrecognizedToken { token, expected } => ParseErrorView::UnrecognizedToken {
                token: match token {
                    Some(t) => Some(triple_view(*t)),
                    None => None,
                },
                expected: names_view(expected@),
            },
            ParseError::ExtraToken { token } => ParseErrorView::ExtraToken {
                token: triple_view(*token),
            },
            ParseError::User { error } => ParseErrorView::User { error: *error },
        }
    }
}

/// An error that the parser got over, with the tokens it dropped to go on.
#[derive(Debug, PartialEq, Eq)]
pub struct ErrorRecovery {
    pub error: ParseError,
    pub dropped_tokens: Vec<Triple>,
}

/// The mathematical content of an `ErrorRecovery`.
pub struct ErrorRecoveryView {
    pub error: ParseErrorView,
    pub dropped_tokens: Seq<(usize, TokenView, usize)>,
}

impl View for ErrorRecovery {
    type V = ErrorRecoveryView;

    open spec fn view(&self) -> ErrorRecoveryView {
        ErrorRecoveryView {
            error: self.error@,
            dropped_tokens: triples_view(self.dropped_tokens@),
        }
    }
}

/// The contents of some recorded errors.
pub open spec fn recoveries_view(v: Seq<ErrorRecovery>) -> Seq<ErrorRecoveryView> {
    Seq::new(v.len(), |i: int| v[i]@)
}

/// An expression in its plain form: names, numbers and operators only.
#[derive(Debug, PartialEq, Eq)]
pub enum Expr {
    Prev,
    Ident(String),
    Number(Number),
    Op(Box<Expr>, Opcode, Box<Expr>),
    /// What stands where a fragment could not be parsed.
    Error,
}

/// The mathematical content of an `Expr`.
pub enum ExprView {
    Prev,
    Ident(Seq<char>),
    Number(NumberView),
    Op(Box<ExprView>, Opcode, Box<ExprView>),
    Error,
}

/// The content of an expression.
pub open spec fn expr_view(e: Expr) -> ExprView
    decreases e,
{
    match e {
        Expr::Prev => ExprView::Prev,
        Expr::Ident(name) => ExprView::Ident(name@),
        Expr::Number(n) => ExprView::Number(n@),
        Expr::Op(l, op, r) => ExprView::Op(Box::new(expr_view(*l)), op, Box::new(expr_view(*r))),
        Expr::Error => ExprView::Error,
    }
}

impl View for Expr {
    type V = ExprView;

    open spec fn view(&self) -> ExprView {
        expr_view(*self)
    }
}

/// How a float is written in an expression: exactly, as its mantissa, the
/// letter `p`, and its exponent of two.
pub open spec fn float_notation(v: FloatValueView) -> Seq<char> {
    match v {
        FloatValueView::Nan => "NaN"@,
        FloatValueView::Infinity { negative } => if negative {
            "-inf"@
        } else {
            "inf"@
        },
        FloatValueView::Zero { negative } => if negative {
            "-0.0"@
        } else {
            "0.0"@
        },
        FloatValueView::Finite { mantissa, exponent } => decimal_text(mantissa) + "p"@
            + decimal_text(exponent as int),
    }
}

/// How a number is written in an expression: an integer in decimal, a
/// float exactly.
pub open spec fn number_notation(n: NumberView) -> Seq<char> {
    match n {
        NumberView::Int(v) => decimal_text(v),
        NumberView::Float(f) => float_notation(f.value),
    }
}

/// How an expression is written: `#` for the last result, a name as it is,
/// a number in its notation, an operator with its sides in parentheses
/// with one blank on each side of it, and `[error]` for what could not
/// be parsed.
pub open spec fn expr_text(e: ExprView) -> Seq<char>
    decreases e,
{
    match e {
        ExprView::Prev => "#"@,
        ExprView::Ident(name) => name,
        ExprView::Number(n) => number_notation(n),
        ExprView::Op(l, op, r) => "("@ + expr_text(*l) + " "@ + symbol_of(op) + " "@ + expr_text(
            *r,
        ) + ")"@,
        ExprView::Error => "[error]"@,
    }
}

/// A number as it is written in an expression.
pub fn notation(n: &Number) -> (r: String)
    ensures
        r@ == number_notation(n@),
{
    match n {
        Number::Int(v) => v.to_string(),
        Number::Float(f) => match &f.value {
            FloatValue::Nan => String::from_str("NaN"),
            FloatValue::Infinity { negative } => if *negative {
                String::from_str("-inf")
            } else {
                String::from_str("inf")
            },
            FloatValue::Zero { negative } => if *negative {
                String::from_str("-0.0")
            } else {
                String::from_str("0.0")
            },
            FloatValue::Finite { mantissa, exponent } => {
                let mut out = mantissa.to_string();
                push_text(&mut out, "p");
                let e = Integer::from_i64(*exponent).to_string();
                push_text(&mut out, e.as_str());
                out
            },
        },
    }
}

impl Expr {
    /// The expression as it is written.
    pub fn to_string(&self) -> (r: String)
        ensures
            r@ == expr_text(self@),
        decreases self,
    {
        match self {
            Expr::Prev => String::from_str("#"),
            Expr::Ident(name) => name.clone(),
            Expr::Number(n) => notation(n),
            Expr::Op(l, op, r) => {
                let mut out = String::from_str("(");
                let left = l.to_string();
                push_text(&mut out, left.as_str());
                push_text(&mut out, " ");
                push_text(&mut out, op.symbol());
                push_text(&mut out, " ");
                let right = r.to_string();
                push_text(&mut out, right.as_str());
                push_text(&mut out, ")");
                assert(self@ == ExprView::Op(Box::new(l@), *op, Box::new(r@)));
                out
            },
            Expr::Error => String::from_str("[error]"),
        }
    }
}

impl Clone for Expr {
    fn clone(&self) -> (r: Self)
        ensures
            r@ == self@,
        decreases self,
    {
        match self {
            Expr::Prev => Expr::Prev,
            Expr::Ident(name) => Expr::Ident(name.clone()),
            Expr::Number(n) => Expr::Number(n.clone()),
            Expr::Op(l, op, r) => {
                let left = (**l).clone();
                let right = (**r).clone();
                Expr::Op(Box::new(left), *op, Box::new(right))
            },
            Expr::Error => Expr::Error,
        }
    }
}

} // verus!
