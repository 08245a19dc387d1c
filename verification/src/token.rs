//! From a line of text to its tokens.
use crate::float::{negated_value, Float, FloatValue, FloatView, DEFAULT_PRECISION};
use crate::integer::{decimal_text, digits_value, Integer};
use crate::number::{answer, ask, dependable, FloatRequest, FloatRequestView};
use crate::scan::{
    double_operator_at, in_class, is_digit, is_grouping, is_letter, is_separator,
    is_single_operator, lemma_run_end_bounds, lemma_run_end_is, lemma_scan_advances, run_end,
    scan, scan_at, scan_number, CharClass, Rule,
};
use crate::text::push_char;
use vstd::prelude::*;
use vstd::slice::slice_subrange;
use vstd::string::{StrSliceExecFns, StringSliceAdditionalSpecFns};

verus! {

/// What can be wrong with a line before it is parsed.
#[derive(Debug, PartialEq, Eq)]
pub enum Error {
    /// No lexeme can begin with the character at `location`.
    Grammar { location: usize },
    InvalidInteger,
    InvalidHex,
    InvalidBinary,
    InvalidFloat,
    UnknownKeyword,
    UnknownGrouping,
    UnknownSymbol(String),
}

/// The mathematical content of an `Error`.
pub enum ErrorView {
    Grammar { location: usize },
    InvalidInteger,
    InvalidHex,
    InvalidBinary,
    InvalidFloat,
    UnknownKeyword,
    UnknownGrouping,
    UnknownSymbol(Seq<char>),
}

impl View for Error {
    type V = ErrorView;

    open spec fn view(&self) -> ErrorView {
        match self {
            Error::Grammar { location } => ErrorView::Grammar { location: *location },
            Error::InvalidInteger => ErrorView::InvalidInteger,
            Error::InvalidHex => ErrorView::InvalidHex,
            Error::InvalidBinary => ErrorView::InvalidBinary,
            Error::InvalidFloat => ErrorView::InvalidFloat,
            Error::UnknownKeyword => ErrorView::UnknownKeyword,
            Error::UnknownGrouping => ErrorView::UnknownGrouping,
            Error::UnknownSymbol(s) => ErrorView::UnknownSymbol(s@),
        }
    }
}

/// A token of the language.
#[derive(Debug, PartialEq, Eq)]
pub enum Token {
    Ident(String),
    Integer(Integer),
    Float(Float),
    Operator(String),
    Let,
    Prev,
    Comma,
    Semicolon,
    Equals,
    LParen,
    RParen,
    LBracket,
    RBracket,
    LBrace,
    RBrace,
}

/// The mathematical content of a `Token`.
pub enum TokenView {
    Ident(Seq<char>),
    Integer(int),
    Float(FloatView),
    Operator(Seq<char>),
    Let,
    Prev,
    Comma,
    Semicolon,
    Equals,
    LParen,
    RParen,
    LBracket,
    RBracket,
    LBrace,
    RBrace,
}

impl View for Token {
    type V = TokenView;

    open spec fn view(&self) -> TokenView {
        match self {
            Token::Ident(s) => TokenView::Ident(s@),
            Token::Integer(i) => TokenView::Integer(i@),
            Token::Float(f) => TokenView::Float(f@),
            Token::Operator(s) => TokenView::Operator(s@),
            Token::Let => TokenView::Let,
            Token::Prev => TokenView::Prev,
            Token::Comma => TokenView::Comma,
            Token::Semicolon => TokenView::Semicolon,
            Token::Equals => TokenView::Equals,
            Token::LParen => TokenView::LParen,
            Token::RParen => TokenView::RParen,
            Token::LBracket => TokenView::LBracket,
            Token::RBracket => TokenView::RBracket,
            Token::LBrace => TokenView::LBrace,
            Token::RBrace => TokenView::RBrace,
        }
    }
}

impl Clone for Token {
    fn clone(&self) -> (r: Self)
        ensures
            r@ == self@,
    {
        match self {
            Token::Ident(s) => Token::Ident(s.clone()),
            Token::Integer(i) => Token::Integer(i.clone()),
            Token::Float(f) => Token::Float(f.clone()),
            Token::Operator(s) => Token::Operator(s.clone()),
            Token::Let => Token::Let,
            Token::Prev => Token::Prev,
            Token::Comma => Token::Comma,
            Token::Semicolon => Token::Semicolon,
            Token::Equals => Token::Equals,
            Token::LParen => Token::LParen,
            Token::RParen => Token::RParen,
            Token::LBracket => Token::LBracket,
            Token::RBracket => Token::RBracket,
            Token::LBrace => Token::LBrace,
            Token::RBrace => Token::RBrace,
        }
    }
}

/// Where a token stands in its line: the bytes from `start` up to `end`.
#[derive(Copy, Clone, Debug, PartialEq, Eq, Structural)]
pub struct Span {
    pub start: usize,
    pub end: usize,
}

impl Span {
    /// The two offsets in decimal with a hyphen between them.
    pub fn to_string(&self) -> (r: String)
        ensures
            r@ == decimal_text(self.start as int) + seq!['-'] + decimal_text(self.end as int),
    {
        let mut out = Integer::from_u64(self.start as u64).to_string();
        push_char(&mut out, '-');
        let end = Integer::from_u64(self.end as u64).to_string();
        out.append(end.as_str());
        out
    }
}

/// A token and where it stands.
#[derive(Debug, PartialEq, Eq)]
pub struct SpannedToken(pub Token, pub Span);

impl View for SpannedToken {
    type V = (TokenView, Span);

    open spec fn view(&self) -> (TokenView, Span) {
        (self.0@, self.1)
    }
}

impl Clone for SpannedToken {
    fn clone(&self) -> (r: Self)
        ensures
            r@ == self@,
    {
        SpannedToken(self.0.clone(), self.1)
    }
}

impl SpannedToken {
    pub fn new(token: Token, span: Span) -> (r: Self)
        ensures
            r.0 == token,
            r.1 == span,
    {
        SpannedToken(token, span)
    }
}

/// An error and, where it has one, the place it is about.
#[derive(Debug, PartialEq, Eq)]
pub struct SpannedError(pub Error, pub Option<Span>);

impl View for SpannedError {
    type V = (ErrorView, Option<Span>);

    open spec fn view(&self) -> (ErrorView, Option<Span>) {
        (self.0@, self.1)
    }
}

impl SpannedError {
    /// The failure that carries `err` and the place it is about.
    pub fn spanned<O>(err: Error, span: Span) -> (r: Result<O, SpannedError>)
        ensures
            r is Err,
            r->Err_0.0 == err,
            r->Err_0.1 == Some(span),
    {
        Err(SpannedError(err, Some(span)))
    }

    /// The failure that carries `err` and no place.
    pub fn spanless<O>(err: Error) -> (r: Result<O, SpannedError>)
        ensures
            r is Err,
            r->Err_0.0 == err,
            r->Err_0.1 is None,
    {
        Err(SpannedError(err, None))
    }
}

/// The tokens of a vector, each by its content.
pub open spec fn tokens_view(v: Seq<SpannedToken>) -> Seq<(TokenView, Span)> {
    Seq::new(v.len(), |i: int| v[i]@)
}

/// Bytes read as characters, one for one.
pub open spec fn as_text(t: Seq<u8>) -> Seq<char> {
    Seq::new(t.len(), |i: int| t[i] as char)
}

/// The value of a character as a digit in a radix of at most sixteen.
pub open spec fn digit_of(b: u8, radix: nat) -> Option<u8> {
    let v: int = if 48 <= b <= 57 {
        b - 48
    } else if 97 <= b <= 102 {
        b - 87
    } else if 65 <= b <= 70 {
        b - 55
    } else {
        255
    };
    if v < radix {
        Some(v as u8)
    } else {
        None
    }
}

/// The digits of a literal in a radix, underscores left out; nothing where
/// a character is neither an underscore nor a digit of the radix.
pub open spec fn literal_digits(t: Seq<u8>, radix: nat) -> Option<Seq<u8>>
    decreases t.len(),
{
    if t.len() == 0 {
        Some(Seq::empty())
    } else {
        match literal_digits(t.drop_last(), radix) {
            None => None,
            Some(d) => if t.last() == 95 {
                Some(d)
            } else {
                match digit_of(t.last(), radix) {
                    Some(v) => Some(d.push(v)),
                    None => None,
                }
            },
        }
    }
}

/// The number that a literal stands for in a radix; nothing where it has
/// no digit or a character that is no digit.
pub open spec fn literal_value(t: Seq<u8>, radix: nat) -> Option<int> {
    match literal_digits(t, radix) {
        Some(d) => if d.len() > 0 {
            Some(digits_value(d, radix) as int)
        } else {
            None
        },
        None => None,
    }
}

/// The digits of a hexadecimal literal: what follows `0x`, or what stands
/// before the closing `h`.
pub open spec fn hex_body(t: Seq<u8>) -> Seq<u8> {
    if t.len() >= 2 && t[1] == 120 {
        t.skip(2)
    } else if t.len() >= 1 {
        t.drop_last()
    } else {
        t
    }
}

/// The value of an integer lexeme, or the error of its kind.
pub open spec fn integer_at(rule: Rule, t: Seq<u8>) -> Result<int, ErrorView> {
    match rule {
        Rule::Hex => match literal_value(hex_body(t), 16) {
            Some(v) => Ok(v),
            None => Err(ErrorView::InvalidHex),
        },
        Rule::Binary => match literal_value(t.skip(2), 2) {
            Some(v) => if t.len() >= 2 {
                Ok(v)
            } else {
                Err(ErrorView::InvalidBinary)
            },
            None => Err(ErrorView::InvalidBinary),
        },
        _ => match literal_value(t, 10) {
            Some(v) => Ok(v),
            None => Err(ErrorView::InvalidInteger),
        },
    }
}

/// Where the first point of a lexeme stands at or after `from`, or its length.
pub open spec fn first_point(t: Seq<u8>, from: int) -> int
    decreases t.len() - from,
{
    if 0 <= from < t.len() && t[from] != 46 {
        first_point(t, from + 1)
    } else {
        from
    }
}

/// The digits before and after the point of a float literal; nothing
/// where there is no point, or no digit on one side of it, or a character
/// that is neither digit nor underscore.
pub open spec fn float_parts(t: Seq<u8>) -> Option<(Seq<u8>, Seq<u8>)> {
    let p = first_point(t, 0);
    if p >= t.len() {
        None
    } else {
        match (literal_digits(t.take(p), 10), literal_digits(t.skip(p + 1), 10)) {
            (Some(a), Some(b)) => if a.len() > 0 && b.len() > 0 {
                Some((a, b))
            } else {
                None
            },
            _ => None,
        }
    }
}

/// The float of a literal: its digits over ten to the number of digits
/// after the point, at the default precision.
pub open spec fn float_at<A: Fn(FloatRequest) -> FloatValue>(arith: &A, t: Seq<u8>) -> Option<
    FloatView,
> {
    match float_parts(t) {
        Some((a, b)) => Some(
            FloatView {
                prec: DEFAULT_PRECISION,
                value: answer(
                    arith,
                    FloatRequestView::Decimal {
                        digits: digits_value(a + b, 10) as int,
                        scale: b.len() as u64,
                        prec: DEFAULT_PRECISION,
                    },
                ),
            },
        ),
        None => None,
    }
}

/// The token of a lexeme of a kind: nothing for blank space, an error
/// where the lexeme is no token of its kind.
pub open spec fn token_at<A: Fn(FloatRequest) -> FloatValue>(
    arith: &A,
    rule: Rule,
    t: Seq<u8>,
) -> Result<Option<TokenView>, ErrorView> {
    match rule {
        Rule::Ident => Ok(Some(TokenView::Ident(as_text(t)))),
        Rule::Decimal | Rule::Hex | Rule::Binary => match integer_at(rule, t) {
            Ok(v) => Ok(Some(TokenView::Integer(v))),
            Err(e) => Err(e),
        },
        Rule::Float => match float_at(arith, t) {
            Some(f) => Ok(Some(TokenView::Float(f))),
            None => Err(ErrorView::InvalidFloat),
        },
        Rule::Operator => Ok(Some(TokenView::Operator(as_text(t)))),
        Rule::Keyword => if t == seq![108u8, 101u8, 116u8] {
            Ok(Some(TokenView::Let))
        } else if t == seq![35u8] {
            Ok(Some(TokenView::Prev))
        } else {
            Err(ErrorView::UnknownKeyword)
        },
        Rule::Grouping => if t == seq![40u8] {
            Ok(Some(TokenView::LParen))
        } else if t == seq![41u8] {
            Ok(Some(TokenView::RParen))
        } else if t == seq![91u8] {
            Ok(Some(TokenView::LBracket))
        } else if t == seq![93u8] {
            Ok(Some(TokenView::RBracket))
        } else if t == seq![123u8] {
            Ok(Some(TokenView::LBrace))
        } else if t == seq![125u8] {
            Ok(Some(TokenView::RBrace))
        } else {
            Err(ErrorView::UnknownGrouping)
        },
        Rule::Separator => if t == seq![32u8] || t == seq![10u8] {
            Ok(None)
        } else if t == seq![44u8] {
            Ok(Some(TokenView::Comma))
        } else if t == seq![59u8] {
            Ok(Some(TokenView::Semicolon))
        } else {
            Err(ErrorView::UnknownSymbol(as_text(t)))
        },
        Rule::Symbol => if t == seq![61u8] {
            Ok(Some(TokenView::Equals))
        } else {
            Err(ErrorView::UnknownSymbol(as_text(t)))
        },
    }
}

/// Whether a token is a numeric literal.
pub open spec fn is_number(t: TokenView) -> bool {
    t is Integer || t is Float
}

/// Whether a numeric literal that comes next takes the sign of the minus
/// before it: the last token is the operator `-`, and the token before that
/// is no numeric literal.
pub open spec fn folds_sign(prev: Seq<(TokenView, Span)>) -> bool {
    &&& prev.len() >= 1
    &&& prev.last().0 == TokenView::Operator(seq!['-'])
    &&& !(prev.len() >= 2 && is_number(prev[prev.len() - 2].0))
}

/// A numeric literal with its sign turned; any other token as it is.
pub open spec fn negated_token(t: TokenView) -> TokenView {
    match t {
        TokenView::Integer(v) => TokenView::Integer(-v),
        TokenView::Float(f) => TokenView::Float(
            FloatView { prec: f.prec, value: negated_value(f.value) },
        ),
        _ => t,
    }
}

/// The tokens after one more is put out. A numeric literal that takes the
/// sign of the minus before it replaces that minus, with the sign turned
/// and under its own span.
pub open spec fn emit(prev: Seq<(TokenView, Span)>, token: TokenView, span: Span) -> Seq<
    (TokenView, Span),
> {
    if is_number(token) && folds_sign(prev) {
        prev.drop_last().push((negated_token(token), span))
    } else {
        prev.push((token, span))
    }
}

/// The tokens of a line from `pos` on, after those in `done`.
pub open spec fn lex_from<A: Fn(FloatRequest) -> FloatValue>(
    arith: &A,
    s: Seq<u8>,
    pos: int,
    done: Seq<(TokenView, Span)>,
) -> Result<Seq<(TokenView, Span)>, (ErrorView, Option<Span>)>
    decreases s.len() - pos,
{
    if pos < 0 || pos >= s.len() {
        Ok(done)
    } else {
        match scan_at(s, pos) {
            None => Err((ErrorView::Grammar { location: pos as usize }, None)),
            Some((rule, end)) => {
                proof {
                    lemma_scan_advances(s, pos);
                }
                let span = Span { start: pos as usize, end: end as usize };
                match token_at(arith, rule, s.subrange(pos, end)) {
                    Err(e) => Err((e, Some(span))),
                    Ok(None) => lex_from(arith, s, end, done),
                    Ok(Some(t)) => lex_from(arith, s, end, emit(done, t, span)),
                }
            },
        }
    }
}

/// The tokens of a line, or the first error in it.
///
/// Lexemes are taken from left to right, each the longest of its kind.
/// Blank space gives no token. The first lexeme that is no token ends the
/// work with its error and its span; a character with which no lexeme
/// begins ends it with a `Grammar` error and no span.
pub open spec fn lex<A: Fn(FloatRequest) -> FloatValue>(arith: &A, s: Seq<u8>) -> Result<
    Seq<(TokenView, Span)>,
    (ErrorView, Option<Span>),
> {
    lex_from(arith, s, 0, Seq::empty())
}

/// Once a prefix of a literal has failed, the literal has failed.
pub proof fn lemma_literal_digits_fail(t: Seq<u8>, n: int, radix: nat)
    requires
        0 <= n <= t.len(),
        literal_digits(t.take(n), radix) is None,
    ensures
        literal_digits(t, radix) is None,
    decreases t.len() - n,
{
    if n == t.len() {
        assert(t.take(n) =~= t);
    } else {
        assert(t.take(n + 1).drop_last() =~= t.take(n));
        lemma_literal_digits_fail(t, n + 1, radix);
    }
}

/// The text of some bytes.
pub fn text_of(t: &[u8]) -> (r: String)
    ensures
        r@ == as_text(t@),
{
    let mut out = String::new();
    let mut i: usize = 0;
    while i < t.len()
        invariant
            i <= t@.len(),
            out@ == as_text(t@.take(i as int)),
        decreases t@.len() - i,
    {
        push_char(&mut out, t[i] as char);
        i += 1;
        assert(out@ =~= as_text(t@.take(i as int)));
    }
    assert(t@.take(t@.len() as int) =~= t@);
    out
}

/// The value of a character as a digit in a radix.
pub fn digit_value(b: u8, radix: u32) -> (r: Option<u8>)
    ensures
        r == digit_of(b, radix as nat),
{
    let v: u8 = if 48 <= b && b <= 57 {
        b - 48
    } else if 97 <= b && b <= 102 {
        b - 87
    } else if 65 <= b && b <= 70 {
        b - 55
    } else {
        255
    };
    if (v as u32) < radix {
        Some(v)
    } else {
        None
    }
}

/// The digits of a literal in a radix.
pub fn read_digits(t: &[u8], radix: u32) -> (r: Option<Vec<u8>>)
    ensures
        match r {
            Some(v) => literal_digits(t@, radix as nat) == Some(v@),
            None => literal_digits(t@, radix as nat) is None,
        },
{
    let mut out: Vec<u8> = Vec::new();
    let mut i: usize = 0;
    while i < t.len()
        invariant
            i <= t@.len(),
            literal_digits(t@.take(i as int), radix as nat) == Some(out@),
        decreases t@.len() - i,
    {
        let b: u8 = t[i];
        proof {
            assert(t@.take(i + 1).drop_last() =~= t@.take(i as int));
        }
        if b != 95 {
            match digit_value(b, radix) {
                Some(v) => {
                    out.push(v);
                },
                None => {
                    proof {
                        lemma_literal_digits_fail(t@, i + 1, radix as nat);
                    }
                    return None;
                },
            }
        }
        i += 1;
    }
    assert(t@.take(t@.len() as int) =~= t@);
    Some(out)
}

/// The number of a literal in a radix.
pub fn read_literal(t: &[u8], radix: u32) -> (r: Option<Integer>)
    ensures
        match r {
            Some(v) => literal_value(t@, radix as nat) == Some(v@),
            None => literal_value(t@, radix as nat) is None,
        },
{
    match read_digits(t, radix) {
        Some(d) => if d.len() > 0 {
            Some(Integer::from_digits(&d, radix))
        } else {
            None
        },
        None => None,
    }
}

/// The value of an integer lexeme.
pub fn read_integer(rule: Rule, t: &[u8]) -> (r: Result<Integer, Error>)
    ensures
        match r {
            Ok(v) => integer_at(rule, t@) == Ok::<int, ErrorView>(v@),
            Err(e) => integer_at(rule, t@) == Err::<int, ErrorView>(e@),
        },
{
    match rule {
        Rule::Hex => {
            let body = if t.len() >= 2 && t[1] == 120 {
                slice_subrange(t, 2, t.len())
            } else if t.len() >= 1 {
                slice_subrange(t, 0, t.len() - 1)
            } else {
                t
            };
            assert(body@ =~= hex_body(t@));
            match read_literal(body, 16) {
                Some(v) => Ok(v),
                None => Err(Error::InvalidHex),
            }
        },
        Rule::Binary => {
            if t.len() < 2 {
                return Err(Error::InvalidBinary);
            }
            let body = slice_subrange(t, 2, t.len());
            assert(body@ =~= t@.skip(2));
            match read_literal(body, 2) {
                Some(v) => Ok(v),
                None => Err(Error::InvalidBinary),
            }
        },
        _ => match read_literal(t, 10) {
            Some(v) => Ok(v),
            None => Err(Error::InvalidInteger),
        },
    }
}

/// The float of a literal.
pub fn read_float<A: Fn(FloatRequest) -> FloatValue>(arith: &A, t: &[u8]) -> (r: Option<Float>)
    requires
        dependable(arith),
    ensures
        match r {
            Some(f) => float_at(arith, t@) == Some(f@),
            None => float_at(arith, t@) is None,
        },
{
    let mut p: usize = 0;
    while p < t.len() && t[p] != 46
        invariant
            p <= t@.len(),
            first_point(t@, 0) == first_point(t@, p as int),
        decreases t@.len() - p,
    {
        p += 1;
    }
    if p >= t.len() {
        return None;
    }
    let head = slice_subrange(t, 0, p);
    let tail = slice_subrange(t, p + 1, t.len());
    assert(head@ =~= t@.take(p as int));
    assert(tail@ =~= t@.skip(p + 1));
    let a = match read_digits(head, 10) {
        Some(a) => a,
        None => {
            return None;
        },
    };
    let b = match read_digits(tail, 10) {
        Some(b) => b,
        None => {
            return None;
        },
    };
    if a.len() == 0 || b.len() == 0 {
        return None;
    }
    let mut all: Vec<u8> = a;
    let ghost before = all@;
    let mut i: usize = 0;
    while i < b.len()
        invariant
            i <= b@.len(),
            all@ == before + b@.take(i as int),
        decreases b@.len() - i,
    {
        all.push(b[i]);
        i += 1;
        assert(all@ =~= before + b@.take(i as int));
    }
    assert(b@.take(b@.len() as int) =~= b@);
    let digits = Integer::from_digits(&all, 10);
    let value = ask(
        arith,
        FloatRequest::Decimal { digits, scale: b.len() as u64, prec: DEFAULT_PRECISION },
    );
    Some(Float { prec: DEFAULT_PRECISION, value })
}

/// Whether some bytes are exactly one given byte.
fn is_byte(t: &[u8], b: u8) -> (r: bool)
    ensures
        r == (t@ == seq![b]),
{
    let r = t.len() == 1 && t[0] == b;
    proof {
        if r {
            assert(t@ =~= seq![b]);
        } else if t@ == seq![b] {
            assert(t@.len() == 1);
            assert(t@[0] == b);
        }
    }
    r
}

/// The token of a lexeme of a kind.
pub fn token_of<A: Fn(FloatRequest) -> FloatValue>(arith: &A, rule: Rule, t: &[u8]) -> (r: Result<
    Option<Token>,
    Error,
>)
    requires
        dependable(arith),
    ensures
        match r {
            Ok(Some(token)) => token_at(arith, rule, t@) == Ok::<Option<TokenView>, ErrorView>(
                Some(token@),
            ),
            Ok(None) => token_at(arith, rule, t@) == Ok::<Option<TokenView>, ErrorView>(None),
            Err(e) => token_at(arith, rule, t@) == Err::<Option<TokenView>, ErrorView>(e@),
        },
{
    match rule {
        Rule::Ident => Ok(Some(Token::Ident(text_of(t)))),
        Rule::Decimal | Rule::Hex | Rule::Binary => match read_integer(rule, t) {
            Ok(v) => Ok(Some(Token::Integer(v))),
            Err(e) => Err(e),
        },
        Rule::Float => match read_float(arith, t) {
            Some(f) => Ok(Some(Token::Float(f))),
            None => Err(Error::InvalidFloat),
        },
        Rule::Operator => Ok(Some(Token::Operator(text_of(t)))),
        Rule::Keyword => {
            let is_let = t.len() == 3 && t[0] == 108 && t[1] == 101 && t[2] == 116;
            proof {
                let w = seq![108u8, 101u8, 116u8];
                if is_let {
                    assert(t@ =~= w);
                } else if t@ == w {
                    assert(w.len() == 3 && w[0] == 108 && w[1] == 101 && w[2] == 116);
                }
                assert(seq![35u8].len() == 1);
            }
            if is_let {
                Ok(Some(Token::Let))
            } else if is_byte(t, 35) {
                Ok(Some(Token::Prev))
            } else {
                Err(Error::UnknownKeyword)
            }
        },
        Rule::Grouping => if is_byte(t, 40) {
            Ok(Some(Token::LParen))
        } else if is_byte(t, 41) {
            Ok(Some(Token::RParen))
        } else if is_byte(t, 91) {
            Ok(Some(Token::LBracket))
        } else if is_byte(t, 93) {
            Ok(Some(Token::RBracket))
        } else if is_byte(t, 123) {
            Ok(Some(Token::LBrace))
        } else if is_byte(t, 125) {
            Ok(Some(Token::RBrace))
        } else {
            Err(Error::UnknownGrouping)
        },
        Rule::Separator => if is_byte(t, 32) || is_byte(t, 10) {
            Ok(None)
        } else if is_byte(t, 44) {
            Ok(Some(Token::Comma))
        } else if is_byte(t, 59) {
            Ok(Some(Token::Semicolon))
        } else {
            Err(Error::UnknownSymbol(text_of(t)))
        },
        Rule::Symbol => if is_byte(t, 61) {
            Ok(Some(Token::Equals))
        } else {
            Err(Error::UnknownSymbol(text_of(t)))
        },
    }
}

/// Whether a string is the one character `-`.
fn is_minus(s: &String) -> (r: bool)
    ensures
        r == (s@ == seq!['-']),
{
    let t = s.as_str();
    let r = t.unicode_len() == 1 && t.get_char(0) == '-';
    proof {
        if r {
            assert(s@ =~= seq!['-']);
        } else if s@ == seq!['-'] {
            assert(s@.len() == 1);
            assert(s@[0] == '-');
        }
    }
    r
}

/// Whether a numeric literal that comes after these tokens takes the sign
/// of a minus that they end with.
pub fn detect_negative(prev_tokens: &Vec<SpannedToken>) -> (negative: bool)
    ensures
        negative == folds_sign(tokens_view(prev_tokens@)),
{
    let n: usize = prev_tokens.len();
    if n == 0 {
        return false;
    }
    let minus = match &prev_tokens[n - 1].0 {
        Token::Operator(op) => is_minus(op),
        _ => false,
    };
    if !minus {
        return false;
    }
    if n >= 2 {
        match &prev_tokens[n - 2].0 {
            Token::Integer(_) => false,
            Token::Float(_) => false,
            _ => true,
        }
    } else {
        true
    }
}

/// A numeric literal with its sign turned.
fn negate(token: Token) -> (r: Token)
    ensures
        r@ == negated_token(token@),
{
    match token {
        Token::Integer(i) => Token::Integer(i.negated()),
        Token::Float(f) => Token::Float(Float { prec: f.prec, value: f.value.negated() }),
        other => other,
    }
}

/// Tokenizes a line into its tokens.
pub fn tokenize<A: Fn(FloatRequest) -> FloatValue>(input: &str, arith: &A) -> (r: Result<
    Vec<SpannedToken>,
    SpannedError,
>)
    requires
        dependable(arith),
    ensures
        match r {
            Ok(tokens) => lex(arith, input.spec_bytes()) == Ok::<
                Seq<(TokenView, Span)>,
                (ErrorView, Option<Span>),
            >(tokens_view(tokens@)),
            Err(e) => lex(arith, input.spec_bytes()) == Err::<
                Seq<(TokenView, Span)>,
                (ErrorView, Option<Span>),
            >(e@),
        },
{
    let s = input.as_bytes();
    let mut out: Vec<SpannedToken> = Vec::new();
    let mut pos: usize = 0;
    assert(tokens_view(out@) =~= Seq::empty());
    while pos < s.len()
        invariant
            dependable(arith),
            pos <= s@.len(),
            s@ == input.spec_bytes(),
            lex(arith, s@) == lex_from(arith, s@, pos as int, tokens_view(out@)),
        decreases s@.len() - pos,
    {
        let (rule, end) = match scan(s, pos) {
            Some(found) => found,
            None => {
                return SpannedError::spanless(Error::Grammar { location: pos });
            },
        };
        let span = Span { start: pos, end };
        let text = slice_subrange(s, pos, end);
        match token_of(arith, rule, text) {
            Err(e) => {
                return SpannedError::spanned(e, span);
            },
            Ok(None) => {},
            Ok(Some(token)) => {
                let number = match &token {
                    Token::Integer(_) => true,
                    Token::Float(_) => true,
                    _ => false,
                };
                let ghost before = tokens_view(out@);
                if number && detect_negative(&out) {
                    out.pop();
                    let turned = negate(token);
                    out.push(SpannedToken::new(turned, span));
                    assert(tokens_view(out@) =~= emit(before, token@, span));
                } else {
                    out.push(SpannedToken::new(token, span));
                    assert(tokens_view(out@) =~= emit(before, token@, span));
                }
            },
        }
        pos = end;
    }
    Ok(out)
}

/// Every character of a literal that has digits in a radix of at most
/// sixteen is a letter, a digit or an underscore.
pub proof fn lemma_literal_is_word(t: Seq<u8>, radix: nat)
    requires
        literal_digits(t, radix) is Some,
        radix <= 16,
    ensures
        forall|i: int| 0 <= i < t.len() ==> in_class(CharClass::Word, #[trigger] t[i]),
        forall|i: int|
            0 <= i < t.len() ==> (#[trigger] t[i]) == 95 || digit_of(t[i], radix) is Some,
    decreases t.len(),
{
    if t.len() > 0 {
        lemma_literal_is_word(t.drop_last(), radix);
        assert forall|i: int| 0 <= i < t.len() implies in_class(CharClass::Word, #[trigger] t[i])
            && (t[i] == 95 || digit_of(t[i], radix) is Some) by {
            if i < t.len() - 1 {
                assert(t.drop_last()[i] == t[i]);
            }
        }
    }
}

/// A decimal literal that stands from `pos` up to `end`, with no letter,
/// digit, underscore or point after it, is put out as one integer token.
pub proof fn lemma_decimal_at<A: Fn(FloatRequest) -> FloatValue>(
    arith: &A,
    text: Seq<u8>,
    pos: int,
    end: int,
    done: Seq<(TokenView, Span)>,
)
    requires
        0 <= pos < end <= text.len(),
        is_digit(text[pos]),
        literal_value(text.subrange(pos, end), 10) is Some,
        end < text.len() ==> !in_class(CharClass::Word, text[end]) && text[end] != 46,
    ensures
        lex_from(arith, text, pos, done) == lex_from(
            arith,
            text,
            end,
            emit(
                done,
                TokenView::Integer(literal_value(text.subrange(pos, end), 10)->Some_0),
                Span { start: pos as usize, end: end as usize },
            ),
        ),
{
    let literal = text.subrange(pos, end);
    lemma_literal_is_word(literal, 10);
    assert forall|i: int| pos <= i < end implies in_class(CharClass::Word, #[trigger] text[i]) by {
        assert(text[i] == literal[i - pos]);
    }
    lemma_run_end_is(text, pos, end, CharClass::Word);
    assert(text[end - 1] == literal[end - pos - 1]);
    assert(literal[end - pos - 1] == 95 || digit_of(literal[end - pos - 1], 10) is Some);
    if end - pos >= 2 {
        assert(text[pos + 1] == literal[1]);
        assert(literal[1] == 95 || digit_of(literal[1], 10) is Some);
    }
    if end < text.len() {
        lemma_run_end_bounds(text, pos, CharClass::DigitMark);
    }
    assert(scan_number(text, pos) == (Rule::Decimal, end));
    assert(scan_at(text, pos) == Some((Rule::Decimal, end)));
}

/// A minus at the start of a line is folded into the decimal literal after
/// it: the line is one token, the negative integer, under the span of the
/// literal.
pub proof fn law_leading_minus_folds<A: Fn(FloatRequest) -> FloatValue>(
    arith: &A,
    literal: Seq<u8>,
)
    requires
        literal.len() > 0,
        is_digit(literal[0]),
        literal_value(literal, 10) is Some,
    ensures
        lex(arith, seq![45u8] + literal) == Ok::<Seq<(TokenView, Span)>, (ErrorView, Option<Span>)>(
            seq![
                (
                    TokenView::Integer(-literal_value(literal, 10)->Some_0),
                    Span { start: 1usize, end: (literal.len() + 1) as usize },
                ),
            ],
        ),
{
    let text = seq![45u8] + literal;
    let len = text.len() as int;
    let minus = (TokenView::Operator(seq!['-']), Span { start: 0usize, end: 1usize });
    let none = Seq::<(TokenView, Span)>::empty();
    assert(scan_at(text, 0) == Some((Rule::Operator, 1int)));
    assert(text.subrange(0, 1) =~= seq![45u8]);
    assert(as_text(seq![45u8]) =~= seq!['-']);
    let first = emit(none, minus.0, minus.1);
    assert(first =~= seq![minus]);
    assert(lex_from(arith, text, 0, none) == lex_from(arith, text, 1, first));
    assert(text.subrange(1, len) =~= literal);
    lemma_decimal_at(arith, text, 1, len, first);
    let v = literal_value(literal, 10)->Some_0;
    let span = Span { start: 1usize, end: len as usize };
    let folded = emit(first, TokenView::Integer(v), span);
    assert(folds_sign(first));
    assert(folded =~= seq![(TokenView::Integer(-v), span)]);
}

/// A minus between two decimal literals is subtraction: the line is three
/// tokens, and neither literal takes a sign.
pub proof fn law_minus_between_literals<A: Fn(FloatRequest) -> FloatValue>(
    arith: &A,
    left: Seq<u8>,
    right: Seq<u8>,
)
    requires
        left.len() > 0,
        right.len() > 0,
        is_digit(left[0]),
        is_digit(right[0]),
        literal_value(left, 10) is Some,
        literal_value(right, 10) is Some,
    ensures
        lex(arith, left + seq![45u8] + right) == Ok::<
            Seq<(TokenView, Span)>,
            (ErrorView, Option<Span>),
        >(
            seq![
                (
                    TokenView::Integer(literal_value(left, 10)->Some_0),
                    Span { start: 0usize, end: left.len() as usize },
                ),
                (
                    TokenView::Operator(seq!['-']),
                    Span { start: left.len() as usize, end: (left.len() + 1) as usize },
                ),
                (
                    TokenView::Integer(literal_value(right, 10)->Some_0),
                    Span {
                        start: (left.len() + 1) as usize,
                        end: (left.len() + 1 + right.len()) as usize,
                    },
                ),
            ],
        ),
{
    let text = left + seq![45u8] + right;
    let mid = left.len() as int;
    let len = text.len() as int;
    let none = Seq::<(TokenView, Span)>::empty();
    assert(text.subrange(0, mid) =~= left);
    assert(text[mid] == 45);
    lemma_decimal_at(arith, text, 0, mid, none);
    let a = (
        TokenView::Integer(literal_value(left, 10)->Some_0),
        Span { start: 0usize, end: mid as usize },
    );
    let one = emit(none, a.0, a.1);
    assert(one =~= seq![a]);
    assert(scan_at(text, mid) == Some((Rule::Operator, mid + 1)));
    assert(text.subrange(mid, mid + 1) =~= seq![45u8]);
    assert(as_text(seq![45u8]) =~= seq!['-']);
    let m = (
        TokenView::Operator(seq!['-']),
        Span { start: mid as usize, end: (mid + 1) as usize },
    );
    let two = emit(one, m.0, m.1);
    assert(two =~= seq![a, m]);
    assert(lex_from(arith, text, mid, one) == lex_from(arith, text, mid + 1, two));
    assert(text.subrange(mid + 1, len) =~= right);
    assert(text[mid + 1] == right[0]);
    lemma_decimal_at(arith, text, mid + 1, len, two);
    let b = (
        TokenView::Integer(literal_value(right, 10)->Some_0),
        Span { start: (mid + 1) as usize, end: len as usize },
    );
    let three = emit(two, b.0, b.1);
    assert(!folds_sign(two));
    assert(three =~= seq![a, m, b]);
}

/// A lexeme made of digits and underscores has digits of ten, and at least
/// one where it begins with a digit.
pub proof fn lemma_digit_marks(t: Seq<u8>)
    requires
        forall|i: int| 0 <= i < t.len() ==> in_class(CharClass::DigitMark, #[trigger] t[i]),
    ensures
        literal_digits(t, 10) is Some,
        t.len() > 0 && is_digit(t[0]) ==> literal_digits(t, 10)->Some_0.len() > 0,
    decreases t.len(),
{
    if t.len() > 0 {
        let rest = t.drop_last();
        assert forall|i: int| 0 <= i < rest.len() implies in_class(
            CharClass::DigitMark,
            #[trigger] rest[i],
        ) by {
            assert(rest[i] == t[i]);
        }
        lemma_digit_marks(rest);
        assert(in_class(CharClass::DigitMark, t[t.len() - 1]));
        if rest.len() > 0 {
            assert(rest[0] == t[0]);
        }
    }
}

/// Where the first point of a lexeme stands, when no point stands before `p`.
pub proof fn lemma_first_point(t: Seq<u8>, from: int, p: int)
    requires
        0 <= from <= p <= t.len(),
        forall|i: int| from <= i < p ==> (#[trigger] t[i]) != 46,
        p < t.len() ==> t[p] == 46,
    ensures
        first_point(t, from) == p,
    decreases p - from,
{
    if from < p {
        lemma_first_point(t, from + 1, p);
    }
}

/// Whether an error is one that a line can have: a character with which no
/// lexeme begins, which has no span, or an integer literal that is none or
/// a symbol that is no token, each with its span.
pub open spec fn line_error(e: (ErrorView, Option<Span>)) -> bool {
    ||| e.0 is Grammar && e.1 is None
    ||| (e.0 is InvalidInteger || e.0 is InvalidHex || e.0 is InvalidBinary || e.0
        is UnknownSymbol) && e.1 is Some
}

/// The lexeme that the scan finds at a place is a token of its kind, unless
/// it is an integer literal that has no value or a symbol other than `=`.
pub proof fn lemma_scanned_token<A: Fn(FloatRequest) -> FloatValue>(
    arith: &A,
    s: Seq<u8>,
    pos: int,
)
    requires
        0 <= pos < s.len(),
        scan_at(s, pos) is Some,
    ensures
        ({
            let (rule, end) = scan_at(s, pos)->Some_0;
            match token_at(arith, rule, s.subrange(pos, end)) {
                Ok(_) => true,
                Err(e) => e is InvalidInteger || e is InvalidHex || e is InvalidBinary || e
                    is UnknownSymbol,
            }
        }),
{
    let (rule, end) = scan_at(s, pos)->Some_0;
    let lexeme = s.subrange(pos, end);
    lemma_scan_advances(s, pos);
    let b = s[pos];
    if is_letter(b) {
    } else if is_digit(b) {
        if rule == Rule::Float {
            let word_end = run_end(s, pos, CharClass::Word);
            lemma_run_end_bounds(s, pos, CharClass::DigitMark);
            lemma_run_end_bounds(s, word_end + 1, CharClass::DigitMark);
            let p = word_end - pos;
            let head = lexeme.take(p);
            let tail = lexeme.skip(p + 1);
            assert forall|i: int| 0 <= i < head.len() implies in_class(
                CharClass::DigitMark,
                #[trigger] head[i],
            ) by {
                assert(head[i] == s[pos + i]);
            }
            assert forall|i: int| 0 <= i < tail.len() implies in_class(
                CharClass::DigitMark,
                #[trigger] tail[i],
            ) by {
                assert(tail[i] == s[word_end + 1 + i]);
            }
            assert forall|i: int| 0 <= i < p implies (#[trigger] lexeme[i]) != 46 by {
                assert(lexeme[i] == s[pos + i]);
                assert(in_class(CharClass::DigitMark, s[pos + i]));
            }
            assert(lexeme[p] == s[word_end]);
            lemma_first_point(lexeme, 0, p);
            assert(head[0] == s[pos]);
            assert(tail[0] == s[word_end + 1]);
            lemma_digit_marks(head);
            lemma_digit_marks(tail);
            assert(float_parts(lexeme) is Some);
        }
    } else if b == 35 {
        assert(lexeme =~= seq![35u8]);
    } else if double_operator_at(s, pos) {
    } else if is_single_operator(b) {
    } else if is_grouping(b) {
        assert(lexeme =~= seq![b]);
    } else if is_separator(b) {
        assert(lexeme =~= seq![b]);
    } else {
    }
}

/// The errors from a place on are errors that a line can have.
pub proof fn lemma_lex_from_errors<A: Fn(FloatRequest) -> FloatValue>(
    arith: &A,
    s: Seq<u8>,
    pos: int,
    done: Seq<(TokenView, Span)>,
)
    ensures
        lex_from(arith, s, pos, done) is Err ==> line_error(lex_from(arith, s, pos, done)->Err_0),
    decreases s.len() - pos,
{
    if !(pos < 0 || pos >= s.len()) {
        match scan_at(s, pos) {
            None => {},
            Some((rule, end)) => {
                lemma_scan_advances(s, pos);
                lemma_scanned_token(arith, s, pos);
                let span = Span { start: pos as usize, end: end as usize };
                match token_at(arith, rule, s.subrange(pos, end)) {
                    Err(e) => {},
                    Ok(None) => {
                        lemma_lex_from_errors(arith, s, end, done);
                    },
                    Ok(Some(t)) => {
                        lemma_lex_from_errors(arith, s, end, emit(done, t, span));
                    },
                }
            },
        }
    }
}

/// A line fails only on a character with which no lexeme begins, on an
/// integer literal that has no value, or on a symbol that is no token. A
/// keyword, a grouping character and a float literal of a line are always
/// tokens.
pub proof fn law_line_errors<A: Fn(FloatRequest) -> FloatValue>(arith: &A, s: Seq<u8>)
    ensures
        lex(arith, s) is Err ==> line_error(lex(arith, s)->Err_0),
{
    lemma_lex_from_errors(arith, s, 0, Seq::empty());
}

} // verus!
