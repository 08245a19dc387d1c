//! Binary floating-point values with a stated precision.
//!
//! A value is held exactly, as an integer mantissa times a power of two.
//! Nothing here rounds a result of arithmetic: that work is handed to the
//! arithmetic service of the `number` module.
use crate::integer::Integer;
use vstd::arithmetic::div_mod::{lemma_fundamental_div_mod, lemma_fundamental_div_mod_converse};
use vstd::arithmetic::power2::{
    lemma2_to64, lemma_pow2_adds, lemma_pow2_pos, lemma_pow2_strictly_increases, pow2,
};
use vstd::prelude::*;

verus! {

/// The precision, in bits, of a float made from an integer with no float at hand.
pub const DEFAULT_PRECISION: u32 = 53;

/// What a float holds, apart from its precision.
#[derive(Debug, PartialEq, Eq)]
pub enum FloatValue {
    /// Not a number.
    Nan,
    /// An infinity of either sign.
    Infinity { negative: bool },
    /// A zero of either sign.
    Zero { negative: bool },
    /// The number `mantissa * 2^exponent`. An arithmetic service gives it
    /// with an odd mantissa, so that one number is held in one way.
    Finite { mantissa: Integer, exponent: i64 },
}

/// The mathematical content of a `FloatValue`.
pub enum FloatValueView {
    Nan,
    Infinity { negative: bool },
    Zero { negative: bool },
    Finite { mantissa: int, exponent: i64 },
}

impl View for FloatValue {
    type V = FloatValueView;

    open spec fn view(&self) -> FloatValueView {
        match self {
            FloatValue::Nan => FloatValueView::Nan,
            FloatValue::Infinity { negative } => FloatValueView::Infinity { negative: *negative },
            FloatValue::Zero { negative } => FloatValueView::Zero { negative: *negative },
            FloatValue::Finite { mantissa, exponent } => FloatValueView::Finite {
                mantissa: mantissa@,
                exponent: *exponent,
            },
        }
    }
}

impl Clone for FloatValue {
    fn clone(&self) -> (r: Self)
        ensures
            r@ == self@,
    {
        match self {
            FloatValue::Nan => FloatValue::Nan,
            FloatValue::Infinity { negative } => FloatValue::Infinity { negative: *negative },
            FloatValue::Zero { negative } => FloatValue::Zero { negative: *negative },
            FloatValue::Finite { mantissa, exponent } => FloatValue::Finite {
                mantissa: mantissa.clone(),
                exponent: *exponent,
            },
        }
    }
}

/// A float: a value and the number of significant bits it is carried at.
#[derive(Debug, PartialEq, Eq)]
pub struct Float {
    pub prec: u32,
    pub value: FloatValue,
}

/// The mathematical content of a `Float`.
pub struct FloatView {
    pub prec: u32,
    pub value: FloatValueView,
}

impl View for Float {
    type V = FloatView;

    open spec fn view(&self) -> FloatView {
        FloatView { prec: self.prec, value: self.value@ }
    }
}

impl Clone for Float {
    fn clone(&self) -> (r: Self)
        ensures
            r@ == self@,
    {
        Float { prec: self.prec, value: self.value.clone() }
    }
}

/// The value with its sign turned; not-a-number stays as it is.
pub open spec fn negated_value(v: FloatValueView) -> FloatValueView {
    match v {
        FloatValueView::Nan => FloatValueView::Nan,
        FloatValueView::Infinity { negative } => FloatValueView::Infinity { negative: !negative },
        FloatValueView::Zero { negative } => FloatValueView::Zero { negative: !negative },
        FloatValueView::Finite { mantissa, exponent } => FloatValueView::Finite {
            mantissa: -mantissa,
            exponent,
        },
    }
}

/// An integer brought into the range of `u32`.
pub open spec fn clamped(v: int) -> u32 {
    if v < 0 {
        0
    } else if v > u32::MAX {
        u32::MAX
    } else {
        v as u32
    }
}

/// `m / 2^k` rounded to the nearest integer, a tie going to the even one.
pub open spec fn nearest_even(m: int, k: nat) -> int {
    let q = m / (pow2(k) as int);
    let r = m % (pow2(k) as int);
    if 2 * r > pow2(k) || (2 * r == pow2(k) && q % 2 == 1) {
        q + 1
    } else {
        q
    }
}

/// The value rounded to the nearest integer and brought into the range of
/// `u32`; nothing for not-a-number.
pub open spec fn rounded_count(v: FloatValueView) -> Option<u32> {
    match v {
        FloatValueView::Nan => None,
        FloatValueView::Infinity { negative } => Some(
            if negative {
                0u32
            } else {
                u32::MAX
            },
        ),
        FloatValueView::Zero { negative } => Some(0u32),
        FloatValueView::Finite { mantissa, exponent } => Some(
            if exponent >= 0 {
                clamped(mantissa * pow2(exponent as nat))
            } else {
                clamped(nearest_even(mantissa, (-exponent) as nat))
            },
        ),
    }
}

/// A number at or below zero rounds to a number at or below zero.
pub proof fn lemma_nearest_even_not_positive(m: int, k: nat)
    requires
        m <= 0,
    ensures
        nearest_even(m, k) <= 0,
{
    lemma_pow2_pos(k);
    let p = pow2(k) as int;
    lemma_fundamental_div_mod(m, p);
    let q = m / p;
    let r = m % p;
    if q >= 0 {
        assert(p * q >= 0) by (nonlinear_arith)
            requires
                p > 0,
                q >= 0,
        ;
        assert(q == 0) by (nonlinear_arith)
            requires
                p * q + r <= 0,
                p * q >= 0,
                r >= 0,
                p > 0,
                q >= 0,
        ;
    }
}

/// Rounding by way of one bit more than is kept: with `t = m / 2^(k-1)`,
/// the kept part is `t / 2`, the half bit is `t % 2`, and the rest is
/// whatever `t * 2^(k-1)` falls short of `m`.
pub proof fn lemma_nearest_even_by_half(m: int, k: nat)
    requires
        k >= 1,
    ensures
        ({
            let h = pow2((k - 1) as nat) as int;
            let t = m / h;
            let up = t % 2 == 1 && (m != t * h || (t / 2) % 2 == 1);
            nearest_even(m, k) == if up {
                t / 2 + 1
            } else {
                t / 2
            }
        }),
{
    let h = pow2((k - 1) as nat) as int;
    let p = pow2(k) as int;
    lemma_pow2_pos((k - 1) as nat);
    lemma_pow2_adds((k - 1) as nat, 1);
    lemma2_to64();
    assert(p == h * 2);
    let t = m / h;
    let s = m % h;
    lemma_fundamental_div_mod(m, h);
    lemma_fundamental_div_mod(t, 2);
    let q = t / 2;
    let b = t % 2;
    assert(m == p * q + (h * b + s)) by (nonlinear_arith)
        requires
            m == h * t + s,
            t == 2 * q + b,
            p == h * 2,
    ;
    assert(0 <= h * b + s < p) by (nonlinear_arith)
        requires
            0 <= b < 2,
            0 <= s < h,
            p == h * 2,
    ;
    lemma_fundamental_div_mod_converse(m, p, q, h * b + s);
    assert(t * h == h * t) by (nonlinear_arith);
    if b == 0 {
        assert(h * b == 0) by (nonlinear_arith)
            requires
                b == 0,
        ;
    } else {
        assert(h * b == h) by (nonlinear_arith)
            requires
                b == 1,
        ;
    }
}

impl FloatValue {
    /// The value with its sign turned.
    pub fn negated(self) -> (r: FloatValue)
        ensures
            r@ == negated_value(self@),
    {
        match self {
            FloatValue::Nan => FloatValue::Nan,
            FloatValue::Infinity { negative } => FloatValue::Infinity { negative: !negative },
            FloatValue::Zero { negative } => FloatValue::Zero { negative: !negative },
            FloatValue::Finite { mantissa, exponent } => FloatValue::Finite {
                mantissa: mantissa.negated(),
                exponent,
            },
        }
    }

    /// The value rounded to the nearest `u32`, a tie going to the even
    /// number; what lies outside the range goes to its nearer end, and
    /// not-a-number gives nothing.
    pub fn to_u32_saturating(&self) -> (r: Option<u32>)
        ensures
            r == rounded_count(self@),
    {
        match self {
            FloatValue::Nan => None,
            FloatValue::Infinity { negative } => Some(
                if *negative {
                    0
                } else {
                    u32::MAX
                },
            ),
            FloatValue::Zero { negative } => Some(0),
            FloatValue::Finite { mantissa, exponent } => {
                let e: i64 = *exponent;
                if mantissa.is_negative() || mantissa.is_zero() {
                    proof {
                        if e >= 0 {
                            lemma_pow2_pos(e as nat);
                            assert(mantissa@ * pow2(e as nat) <= 0) by (nonlinear_arith)
                                requires
                                    mantissa@ <= 0,
                                    pow2(e as nat) > 0,
                            ;
                        } else {
                            lemma_nearest_even_not_positive(mantissa@, (-e) as nat);
                        }
                    }
                    Some(0)
                } else if e >= 32 {
                    proof {
                        lemma2_to64();
                        if e > 32 {
                            lemma_pow2_strictly_increases(32, e as nat);
                        }
                        assert(mantissa@ * pow2(e as nat) > u32::MAX) by (nonlinear_arith)
                            requires
                                mantissa@ >= 1,
                                pow2(e as nat) >= 0x1_0000_0000,
                        ;
                    }
                    Some(u32::MAX)
                } else if e >= 0 {
                    let whole = mantissa.shl(e as u32);
                    proof {
                        lemma_pow2_pos(e as nat);
                        assert(mantissa@ * pow2(e as nat) > 0) by (nonlinear_arith)
                            requires
                                mantissa@ >= 1,
                                pow2(e as nat) > 0,
                        ;
                    }
                    match whole.to_u32() {
                        Some(n) => Some(n),
                        None => Some(u32::MAX),
                    }
                } else {
                    let k: u64 = if e == i64::MIN {
                        0x8000_0000_0000_0000
                    } else {
                        (-e) as u64
                    };
                    let t = mantissa.shr_wide(k - 1);
                    let q = t.shr(1);
                    let twice = q.shl(1);
                    let half = !t.equals(&twice);
                    let back = t.shl_wide(k - 1);
                    let rest = !mantissa.equals(&back);
                    let odd = !q.equals(&q.shr(1).shl(1));
                    proof {
                        lemma2_to64();
                        lemma_nearest_even_by_half(mantissa@, k as nat);
                        lemma_fundamental_div_mod(t@, 2);
                        lemma_fundamental_div_mod(q@, 2);
                        lemma_pow2_pos((k - 1) as nat);
                        let h = pow2((k - 1) as nat) as int;
                        lemma_fundamental_div_mod(mantissa@, h);
                        assert(t@ >= 0) by (nonlinear_arith)
                            requires
                                mantissa@ == h * t@ + mantissa@ % h,
                                mantissa@ % h < h,
                                mantissa@ >= 1,
                                h > 0,
                        ;
                    }
                    let rounded = if half && (rest || odd) {
                        q.add(&Integer::from_u64(1))
                    } else {
                        q
                    };
                    match rounded.to_u32() {
                        Some(n) => Some(n),
                        None => Some(u32::MAX),
                    }
                }
            },
        }
    }
}

} // verus!
