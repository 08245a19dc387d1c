//! The numbers of the calculator and the rules by which they combine.
//!
//! An integer is exact and of any size. A float carries its own precision.
//! Integer arithmetic is done here. Floating-point arithmetic is not: it is
//! put as a `FloatRequest` to an arithmetic service that the caller brings,
//! and this module decides which request is made, on which operands, and at
//! which precision the answer is carried.
use crate::ast::Opcode;
use crate::float::{
    rounded_count, Float, FloatValue, FloatValueView, FloatView, DEFAULT_PRECISION,
};
use crate::integer::Integer;
use vstd::arithmetic::power::pow;
use vstd::arithmetic::power2::pow2;
use vstd::prelude::*;

verus! {

/// A number: an exact integer or a float.
#[derive(Debug, PartialEq, Eq)]
pub enum Number {
    Int(Integer),
    Float(Float),
}

/// The mathematical content of a `Number`.
pub enum NumberView {
    Int(int),
    Float(FloatView),
}

impl View for Number {
    type V = NumberView;

    open spec fn view(&self) -> NumberView {
        match self {
            Number::Int(i) => NumberView::Int(i@),
            Number::Float(f) => NumberView::Float(f@),
        }
    }
}

impl Clone for Number {
    fn clone(&self) -> (r: Self)
        ensures
            r@ == self@,
    {
        match self {
            Number::Int(i) => Number::Int(i.clone()),
            Number::Float(f) => Number::Float(f.clone()),
        }
    }
}

impl From<Integer> for Number {
    fn from(x: Integer) -> (r: Number) {
        Number::Int(x)
    }
}

impl vstd::std_specs::convert::FromSpecImpl<Integer> for Number {
    open spec fn obeys_from_spec() -> bool {
        true
    }

    open spec fn from_spec(x: Integer) -> Number {
        Number::Int(x)
    }
}

impl From<Float> for Number {
    fn from(x: Float) -> (r: Number) {
        Number::Float(x)
    }
}

impl vstd::std_specs::convert::FromSpecImpl<Float> for Number {
    open spec fn obeys_from_spec() -> bool {
        true
    }

    open spec fn from_spec(x: Float) -> Number {
        Number::Float(x)
    }
}

impl Default for Number {
    /// The integer zero: what a failed lookup gives.
    fn default() -> (r: Number)
        ensures
            r@ == NumberView::Int(0),
    {
        Number::Int(Integer::zero())
    }
}

/// The functions that are built in: they take one float and give one.
#[derive(Copy, Clone, Debug, PartialEq, Eq, Structural)]
pub enum Builtin {
    Sin,
    Cos,
    Tan,
    Asin,
    Acos,
    Atan,
    Csc,
    Sec,
    Cot,
}

/// One piece of floating-point work. Each asks for a value correctly
/// rounded to the nearest at `prec` bits.
#[derive(Debug, PartialEq, Eq)]
pub enum FloatRequest {
    /// The decimal number `digits / 10^scale`.
    Decimal { digits: Integer, scale: u64, prec: u32 },
    /// An integer as a float.
    Convert { value: Integer, prec: u32 },
    /// `lhs op rhs` for one of `+ - * / **`, where at least one side is a
    /// float. The operation is first carried out at the precision of the
    /// left float, or of the only float, and then brought to `prec` bits.
    Compute { op: Opcode, lhs: Number, rhs: Number, prec: u32 },
    /// `operand * 2^amount` where `up` holds, `operand / 2^amount` where not.
    Scale { operand: Float, amount: u32, up: bool, prec: u32 },
    /// A built-in function of a float, at the precision of that float.
    Apply { function: Builtin, argument: Float },
}

/// The mathematical content of a `FloatRequest`.
pub enum FloatRequestView {
    Decimal { digits: int, scale: u64, prec: u32 },
    Convert { value: int, prec: u32 },
    Compute { op: Opcode, lhs: NumberView, rhs: NumberView, prec: u32 },
    Scale { operand: FloatView, amount: u32, up: bool, prec: u32 },
    Apply { function: Builtin, argument: FloatView },
}

impl View for FloatRequest {
    type V = FloatRequestView;

    open spec fn view(&self) -> FloatRequestView {
        match self {
            FloatRequest::Decimal { digits, scale, prec } => FloatRequestView::Decimal {
                digits: digits@,
                scale: *scale,
                prec: *prec,
            },
            FloatRequest::Convert { value, prec } => FloatRequestView::Convert {
                value: value@,
                prec: *prec,
            },
            FloatRequest::Compute { op, lhs, rhs, prec } => FloatRequestView::Compute {
                op: *op,
                lhs: lhs@,
                rhs: rhs@,
                prec: *prec,
            },
            FloatRequest::Scale { operand, amount, up, prec } => FloatRequestView::Scale {
                operand: operand@,
                amount: *amount,
                up: *up,
                prec: *prec,
            },
            FloatRequest::Apply { function, argument } => FloatRequestView::Apply {
                function: *function,
                argument: argument@,
            },
        }
    }
}

/// Whether the service may give `value` in answer to a request that says `request`.
pub open spec fn answers<A: Fn(FloatRequest) -> FloatValue>(
    arith: &A,
    request: FloatRequestView,
    value: FloatValueView,
) -> bool {
    exists|r: FloatRequest, v: FloatValue|
        r@ == request && v@ == value && #[trigger] arith.ensures((r,), v)
}

/// An arithmetic service can be relied on when it takes every request and
/// its answer depends on nothing but what the request says.
pub open spec fn dependable<A: Fn(FloatRequest) -> FloatValue>(arith: &A) -> bool {
    &&& forall|r: FloatRequest| #[trigger] arith.requires((r,))
    &&& forall|r1: FloatRequest, r2: FloatRequest, v1: FloatValue, v2: FloatValue|
        #[trigger] arith.ensures((r1,), v1) && #[trigger] arith.ensures((r2,), v2) && r1@ == r2@
            ==> v1@ == v2@
}

/// The answer of a dependable service to a request.
pub open spec fn answer<A: Fn(FloatRequest) -> FloatValue>(
    arith: &A,
    request: FloatRequestView,
) -> FloatValueView {
    choose|value: FloatValueView| answers(arith, request, value)
}

/// Puts a request to the service.
pub fn ask<A: Fn(FloatRequest) -> FloatValue>(arith: &A, request: FloatRequest) -> (value:
    FloatValue)
    requires
        dependable(arith),
    ensures
        value@ == answer(arith, request@),
        answers(arith, request@, value@),
{
    let ghost asked = request;
    let value = arith(request);
    proof {
        assert(arith.ensures((asked,), value));
        assert(answers(arith, asked@, value@));
    }
    value
}

/// The larger of two precisions.
pub open spec fn wider(a: u32, b: u32) -> u32 {
    if a >= b {
        a
    } else {
        b
    }
}

/// An integer as a count of shifts or as an exponent: itself where it is a
/// `u32`, the largest `u32` where it is not.
pub open spec fn saturated(v: int) -> u32 {
    if 0 <= v <= u32::MAX {
        v as u32
    } else {
        u32::MAX
    }
}

/// A float as a count of shifts or as an exponent: rounded to the nearest
/// `u32`, and the largest `u32` for not-a-number.
pub open spec fn float_saturated(v: FloatValueView) -> u32 {
    match rounded_count(v) {
        Some(n) => n,
        None => u32::MAX,
    }
}

/// The float that the service makes of an integer.
pub open spec fn converted_float<A: Fn(FloatRequest) -> FloatValue>(
    arith: &A,
    value: int,
    prec: u32,
) -> FloatView {
    FloatView { prec, value: answer(arith, FloatRequestView::Convert { value, prec }) }
}

/// The float that the service makes of an integer, as a number.
pub open spec fn converted<A: Fn(FloatRequest) -> FloatValue>(
    arith: &A,
    value: int,
    prec: u32,
) -> NumberView {
    NumberView::Float(
        FloatView { prec, value: answer(arith, FloatRequestView::Convert { value, prec }) },
    )
}

/// The float that the service computes from two operands.
pub open spec fn computed<A: Fn(FloatRequest) -> FloatValue>(
    arith: &A,
    op: Opcode,
    lhs: NumberView,
    rhs: NumberView,
    prec: u32,
) -> NumberView {
    NumberView::Float(
        FloatView { prec, value: answer(arith, FloatRequestView::Compute { op, lhs, rhs, prec }) },
    )
}

/// The float that the service makes by scaling with a power of two.
pub open spec fn scaled<A: Fn(FloatRequest) -> FloatValue>(
    arith: &A,
    value: FloatView,
    amount: u32,
    up: bool,
    prec: u32,
) -> NumberView {
    NumberView::Float(
        FloatView {
            prec,
            value: answer(
                arith,
                FloatRequestView::Scale { operand: value, amount, up, prec },
            ),
        },
    )
}

/// The result of an operator on two integers, where it is an integer:
/// every operator but division.
pub open spec fn integer_result(op: Opcode, a: int, b: int) -> int {
    match op {
        Opcode::Add => a + b,
        Opcode::Sub => a - b,
        Opcode::Mul => a * b,
        Opcode::Pow => pow(a, saturated(b) as nat),
        Opcode::Shl => a * pow2(saturated(b) as nat),
        Opcode::Shr => a / (pow2(saturated(b) as nat) as int),
        Opcode::Div => 0,
    }
}

/// The quotient of two integers: both are made floats at the default
/// precision, and the quotient is computed at it.
pub open spec fn integer_quotient<A: Fn(FloatRequest) -> FloatValue>(
    arith: &A,
    a: int,
    b: int,
) -> NumberView {
    computed(
        arith,
        Opcode::Div,
        converted(arith, a, DEFAULT_PRECISION),
        converted(arith, b, DEFAULT_PRECISION),
        DEFAULT_PRECISION,
    )
}

/// What an operator gives on two numbers.
///
/// Two integers give an integer, but for division, which always gives a
/// float. With one float the result is a float at the precision of that
/// float, with two at the larger of their precisions.
///
/// A shift with a float on either side scales a float by a power of two:
/// an integer on the left is made a float first. The count of a shift is
/// the right operand saturated into `u32`. So is the exponent of a power,
/// where it is a float or where both sides are integers: a float exponent
/// is rounded to the nearest `u32` before anything is raised to it.
pub open spec fn apply<A: Fn(FloatRequest) -> FloatValue>(
    arith: &A,
    op: Opcode,
    l: NumberView,
    r: NumberView,
) -> NumberView {
    match (l, r) {
        (NumberView::Int(a), NumberView::Int(b)) => match op {
            Opcode::Div => integer_quotient(arith, a, b),
            _ => NumberView::Int(integer_result(op, a, b)),
        },
        (NumberView::Int(a), NumberView::Float(g)) => match op {
            Opcode::Pow => converted(arith, pow(a, float_saturated(g.value) as nat), g.prec),
            Opcode::Shl => scaled(
                arith,
                converted_float(arith, a, g.prec),
                float_saturated(g.value),
                true,
                g.prec,
            ),
            Opcode::Shr => scaled(
                arith,
                converted_float(arith, a, g.prec),
                float_saturated(g.value),
                false,
                g.prec,
            ),
            _ => computed(arith, op, l, r, g.prec),
        },
        (NumberView::Float(f), NumberView::Int(b)) => match op {
            Opcode::Shl => scaled(arith, f, saturated(b), true, f.prec),
            Opcode::Shr => scaled(arith, f, saturated(b), false, f.prec),
            _ => computed(arith, op, l, r, f.prec),
        },
        (NumberView::Float(f), NumberView::Float(g)) => match op {
            Opcode::Shl => scaled(arith, f, float_saturated(g.value), true, wider(f.prec, g.prec)),
            Opcode::Shr => scaled(
                arith,
                f,
                float_saturated(g.value),
                false,
                wider(f.prec, g.prec),
            ),
            Opcode::Pow => computed(
                arith,
                op,
                l,
                NumberView::Int(float_saturated(g.value) as int),
                wider(f.prec, g.prec),
            ),
            _ => computed(arith, op, l, r, wider(f.prec, g.prec)),
        },
    }
}

/// Division never gives an integer.
pub proof fn law_division_gives_float<A: Fn(FloatRequest) -> FloatValue>(
    arith: &A,
    l: NumberView,
    r: NumberView,
)
    ensures
        apply(arith, Opcode::Div, l, r) is Float,
{
}

/// Any operator but division gives an integer on two integers, and every
/// operator gives a float as soon as one operand is a float.
pub proof fn law_result_kind<A: Fn(FloatRequest) -> FloatValue>(
    arith: &A,
    op: Opcode,
    l: NumberView,
    r: NumberView,
)
    ensures
        apply(arith, op, l, r) is Int <==> (l is Int && r is Int && op != Opcode::Div),
{
}

/// A float result is carried at the precision of the only float operand,
/// at the larger precision of two, and at the default precision where two
/// integers are divided.
pub proof fn law_result_precision<A: Fn(FloatRequest) -> FloatValue>(
    arith: &A,
    op: Opcode,
    l: NumberView,
    r: NumberView,
)
    requires
        apply(arith, op, l, r) is Float,
    ensures
        apply(arith, op, l, r)->Float_0.prec == match (l, r) {
            (NumberView::Int(_), NumberView::Int(_)) => DEFAULT_PRECISION,
            (NumberView::Int(_), NumberView::Float(g)) => g.prec,
            (NumberView::Float(f), NumberView::Int(_)) => f.prec,
            (NumberView::Float(f), NumberView::Float(g)) => wider(f.prec, g.prec),
        },
{
}

/// The integer as a `u32`, or the largest `u32` where it is none.
pub fn saturate(v: &Integer) -> (n: u32)
    ensures
        n == saturated(v@),
{
    match v.to_u32() {
        Some(n) => n,
        None => u32::MAX,
    }
}

/// The float rounded to a `u32`, or the largest `u32` for not-a-number.
pub fn saturate_float(v: &Float) -> (n: u32)
    ensures
        n == float_saturated(v@.value),
{
    match v.value.to_u32_saturating() {
        Some(n) => n,
        None => u32::MAX,
    }
}

/// The larger of two precisions.
pub fn max_prec(a: u32, b: u32) -> (r: u32)
    ensures
        r == wider(a, b),
{
    if a >= b {
        a
    } else {
        b
    }
}

/// An integer as a float at a precision.
pub fn convert_float<A: Fn(FloatRequest) -> FloatValue>(
    arith: &A,
    value: Integer,
    prec: u32,
) -> (r: Float)
    requires
        dependable(arith),
    ensures
        r@ == converted_float(arith, value@, prec),
{
    let v = ask(arith, FloatRequest::Convert { value, prec });
    Float { prec, value: v }
}

/// An integer as a float at a precision, as a number.
pub fn convert<A: Fn(FloatRequest) -> FloatValue>(arith: &A, value: Integer, prec: u32) -> (r:
    Number)
    requires
        dependable(arith),
    ensures
        r@ == converted(arith, value@, prec),
{
    Number::Float(convert_float(arith, value, prec))
}

/// Two operands through the service, at a precision.
fn compute<A: Fn(FloatRequest) -> FloatValue>(
    arith: &A,
    op: Opcode,
    lhs: Number,
    rhs: Number,
    prec: u32,
) -> (r: Number)
    requires
        dependable(arith),
    ensures
        r@ == computed(arith, op, lhs@, rhs@, prec),
{
    let v = ask(arith, FloatRequest::Compute { op, lhs, rhs, prec });
    Number::Float(Float { prec, value: v })
}

/// A float scaled by a power of two through the service.
fn scale<A: Fn(FloatRequest) -> FloatValue>(
    arith: &A,
    value: Float,
    amount: u32,
    up: bool,
    prec: u32,
) -> (r: Number)
    requires
        dependable(arith),
    ensures
        r@ == scaled(arith, value@, amount, up, prec),
{
    let v = ask(arith, FloatRequest::Scale { operand: value, amount, up, prec });
    Number::Float(Float { prec, value: v })
}

/// An operator of plain arithmetic, `+ - * /`, where a float is at hand.
fn compute_mixed<A: Fn(FloatRequest) -> FloatValue>(
    arith: &A,
    op: Opcode,
    lhs: Number,
    rhs: Number,
) -> (r: Number)
    requires
        dependable(arith),
        lhs is Float || rhs is Float,
        op != Opcode::Shl && op != Opcode::Shr,
        op == Opcode::Pow ==> lhs is Float && rhs is Int,
    ensures
        r@ == apply(arith, op, lhs@, rhs@),
{
    let prec: u32 = match (&lhs, &rhs) {
        (Number::Float(f), Number::Float(g)) => max_prec(f.prec, g.prec),
        (Number::Float(f), Number::Int(_)) => f.prec,
        (Number::Int(_), Number::Float(g)) => g.prec,
        (Number::Int(_), Number::Int(_)) => DEFAULT_PRECISION,
    };
    compute(arith, op, lhs, rhs, prec)
}

impl Number {
    /// The sum.
    pub fn add<A: Fn(FloatRequest) -> FloatValue>(self, other: Number, arith: &A) -> (r: Number)
        requires
            dependable(arith),
        ensures
            r@ == apply(arith, Opcode::Add, self@, other@),
    {
        match (self, other) {
            (Number::Int(a), Number::Int(b)) => Number::Int(a.add(&b)),
            (l, r) => compute_mixed(arith, Opcode::Add, l, r),
        }
    }

    /// The difference.
    pub fn sub<A: Fn(FloatRequest) -> FloatValue>(self, other: Number, arith: &A) -> (r: Number)
        requires
            dependable(arith),
        ensures
            r@ == apply(arith, Opcode::Sub, self@, other@),
    {
        match (self, other) {
            (Number::Int(a), Number::Int(b)) => Number::Int(a.sub(&b)),
            (l, r) => compute_mixed(arith, Opcode::Sub, l, r),
        }
    }

    /// The product.
    pub fn mul<A: Fn(FloatRequest) -> FloatValue>(self, other: Number, arith: &A) -> (r: Number)
        requires
            dependable(arith),
        ensures
            r@ == apply(arith, Opcode::Mul, self@, other@),
    {
        match (self, other) {
            (Number::Int(a), Number::Int(b)) => Number::Int(a.mul(&b)),
            (l, r) => compute_mixed(arith, Opcode::Mul, l, r),
        }
    }

    /// The quotient, which is always a float.
    pub fn div<A: Fn(FloatRequest) -> FloatValue>(self, other: Number, arith: &A) -> (r: Number)
        requires
            dependable(arith),
        ensures
            r@ == apply(arith, Opcode::Div, self@, other@),
            r is Float,
    {
        match (self, other) {
            (Number::Int(a), Number::Int(b)) => {
                let l = convert(arith, a, DEFAULT_PRECISION);
                let r = convert(arith, b, DEFAULT_PRECISION);
                compute(arith, Opcode::Div, l, r, DEFAULT_PRECISION)
            },
            (l, r) => compute_mixed(arith, Opcode::Div, l, r),
        }
    }

    /// The power. An integer raised to an integer or to a float is raised
    /// to the exponent saturated into `u32`; so is a float raised to a
    /// float, whose exponent is rounded to the nearest `u32` first.
    pub fn pow<A: Fn(FloatRequest) -> FloatValue>(self, other: Number, arith: &A) -> (r: Number)
        requires
            dependable(arith),
        ensures
            r@ == apply(arith, Opcode::Pow, self@, other@),
    {
        match (self, other) {
            (Number::Int(a), Number::Int(b)) => Number::Int(a.pow(saturate(&b))),
            (Number::Int(a), Number::Float(g)) => {
                let whole = a.pow(saturate_float(&g));
                convert(arith, whole, g.prec)
            },
            (Number::Float(f), Number::Float(g)) => {
                let prec: u32 = max_prec(f.prec, g.prec);
                let exponent = Number::Int(Integer::from_u64(saturate_float(&g) as u64));
                compute(arith, Opcode::Pow, Number::Float(f), exponent, prec)
            },
            (l, r) => compute_mixed(arith, Opcode::Pow, l, r),
        }
    }

    /// The left shift: the number times two raised to the count, which is
    /// the right operand saturated into `u32`.
    pub fn shl<A: Fn(FloatRequest) -> FloatValue>(self, other: Number, arith: &A) -> (r: Number)
        requires
            dependable(arith),
        ensures
            r@ == apply(arith, Opcode::Shl, self@, other@),
    {
        match (self, other) {
            (Number::Int(a), Number::Int(b)) => Number::Int(a.shl(saturate(&b))),
            (Number::Int(a), Number::Float(g)) => {
                let prec: u32 = g.prec;
                let amount: u32 = saturate_float(&g);
                scale(arith, convert_float(arith, a, prec), amount, true, prec)
            },
            (Number::Float(f), Number::Int(b)) => {
                let prec: u32 = f.prec;
                scale(arith, f, saturate(&b), true, prec)
            },
            (Number::Float(f), Number::Float(g)) => {
                let prec: u32 = max_prec(f.prec, g.prec);
                scale(arith, f, saturate_float(&g), true, prec)
            },
        }
    }

    /// The right shift: the number divided by two raised to the count,
    /// which is the right operand saturated into `u32`; an integer is
    /// rounded down.
    pub fn shr<A: Fn(FloatRequest) -> FloatValue>(self, other: Number, arith: &A) -> (r: Number)
        requires
            dependable(arith),
        ensures
            r@ == apply(arith, Opcode::Shr, self@, other@),
    {
        match (self, other) {
            (Number::Int(a), Number::Int(b)) => Number::Int(a.shr(saturate(&b))),
            (Number::Int(a), Number::Float(g)) => {
                let prec: u32 = g.prec;
                let amount: u32 = saturate_float(&g);
                scale(arith, convert_float(arith, a, prec), amount, false, prec)
            },
            (Number::Float(f), Number::Int(b)) => {
                let prec: u32 = f.prec;
                scale(arith, f, saturate(&b), false, prec)
            },
            (Number::Float(f), Number::Float(g)) => {
                let prec: u32 = max_prec(f.prec, g.prec);
                scale(arith, f, saturate_float(&g), false, prec)
            },
        }
    }

    /// The number as a float: a float as it is, an integer made a float at
    /// the default precision.
    pub fn into_float<A: Fn(FloatRequest) -> FloatValue>(self, arith: &A) -> (r: Float)
        requires
            dependable(arith),
        ensures
            NumberView::Float(r@) == as_float(arith, self@),
    {
        match self {
            Number::Float(f) => f,
            Number::Int(a) => convert_float(arith, a, DEFAULT_PRECISION),
        }
    }
}

/// A number as a float: see `Number::into_float`.
pub open spec fn as_float<A: Fn(FloatRequest) -> FloatValue>(
    arith: &A,
    v: NumberView,
) -> NumberView {
    match v {
        NumberView::Float(f) => v,
        NumberView::Int(a) => converted(arith, a, DEFAULT_PRECISION),
    }
}

} // verus!
