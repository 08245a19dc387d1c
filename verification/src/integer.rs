//! Signed integers of any size.
use crate::limbs::{
    base_pow, lemma_base_pow_is_pow2, lemma_base_pow_positive, lemma_trimmed_positive,
    lemma_trimmed_unique, limbs_value, trimmed,
};
use crate::magnitude;
use crate::text::push_char;
use vstd::arithmetic::div_mod::{
    lemma_div_denominator, lemma_fundamental_div_mod, lemma_fundamental_div_mod_converse,
};
use vstd::arithmetic::power::{lemma_pow0, lemma_pow1, lemma_pow_adds, lemma_pow_multiplies, pow};
use vstd::arithmetic::power2::{lemma2_to64, lemma_pow2_adds, lemma_pow2_pos, pow2};
use vstd::prelude::*;

verus! {

/// A signed integer of any size, held as a sign and a magnitude.
#[derive(Debug, PartialEq, Eq)]
pub struct Integer {
    negative: bool,
    magnitude: Vec<u32>,
}

impl View for Integer {
    type V = int;

    closed spec fn view(&self) -> int {
        if self.negative {
            -(limbs_value(self.magnitude@) as int)
        } else {
            limbs_value(self.magnitude@) as int
        }
    }
}

impl Clone for Integer {
    fn clone(&self) -> (r: Self)
        ensures
            r@ == self@,
    {
        proof {
            use_type_invariant(self);
        }
        Integer { negative: self.negative, magnitude: magnitude::copy(&self.magnitude) }
    }
}

/// The number that a string of digit values stands for in a radix, the most
/// significant digit first.
pub open spec fn digits_value(digits: Seq<u8>, radix: nat) -> nat
    decreases digits.len(),
{
    if digits.len() == 0 {
        0
    } else {
        digits_value(digits.drop_last(), radix) * radix + digits.last() as nat
    }
}

/// The character of a decimal digit.
pub open spec fn digit_char(d: nat) -> char {
    (48 + d) as u8 as char
}

/// The decimal digits of a natural number, the most significant first.
pub open spec fn decimal_digits(n: nat) -> Seq<char>
    decreases n,
{
    if n < 10 {
        seq![digit_char(n)]
    } else {
        decimal_digits(n / 10).push(digit_char(n % 10))
    }
}

/// The decimal text of an integer: a minus sign where it is negative, then
/// its digits.
pub open spec fn decimal_text(v: int) -> Seq<char> {
    if v < 0 {
        seq!['-'] + decimal_digits((-v) as nat)
    } else {
        decimal_digits(v as nat)
    }
}

/// Squaring the base halves the exponent.
pub proof fn lemma_pow_square(b: int, k: nat)
    ensures
        pow(b * b, k) == pow(b, 2 * k),
{
    lemma_pow_multiplies(b, 2, k);
    lemma_pow1(b);
    lemma_pow_adds(b, 1, 1);
}

/// Dividing by `c` and then by `d`, rounding down each time, divides by `c * d`.
pub proof fn lemma_divide_twice(x: int, c: int, d: int)
    requires
        0 < c,
        0 < d,
    ensures
        c * d > 0,
        (x / c) / d == x / (c * d),
{
    lemma_fundamental_div_mod(x, c);
    lemma_fundamental_div_mod(x / c, d);
    let q = (x / c) / d;
    let r = (x / c) % d;
    let s = x % c;
    assert(c * d > 0) by (nonlinear_arith)
        requires
            0 < c,
            0 < d,
    ;
    assert(x == (c * d) * q + (c * r + s)) by (nonlinear_arith)
        requires
            x == c * (x / c) + s,
            x / c == d * q + r,
    ;
    assert(0 <= c * r + s < c * d) by (nonlinear_arith)
        requires
            0 <= r < d,
            0 <= s < c,
    ;
    lemma_fundamental_div_mod_converse(x, c * d, q, c * r + s);
}

/// Two raised to `r`, for `r` below 32.
fn small_power_of_two(r: u32) -> (p: u32)
    requires
        r < 32,
    ensures
        p == pow2(r as nat),
        p > 0,
{
    let mut p: u32 = 1;
    let mut j: u32 = 0;
    proof {
        lemma2_to64();
    }
    while j < r
        invariant
            j <= r,
            r < 32,
            p == pow2(j as nat),
            p <= 0x8000_0000,
            p > 0,
        decreases r - j,
    {
        proof {
            lemma_pow2_adds(j as nat, 1);
            lemma2_to64();
            if j < 31 {
                vstd::arithmetic::power2::lemma_pow2_strictly_increases((j + 1) as nat, 32);
            }
        }
        assert(j < 31);
        assert(p * 2 < 0x1_0000_0000) by {
            vstd::arithmetic::power2::lemma_pow2_strictly_increases(j as nat, 31);
        }
        p = p * 2;
        j += 1;
    }
    p
}

impl Integer {
    /// The magnitude has no zero limb at the top, and zero has no sign.
    #[verifier::type_invariant]
    pub closed spec fn well_formed(&self) -> bool {
        &&& trimmed(self.magnitude@)
        &&& self.magnitude@.len() == 0 ==> !self.negative
    }

    /// Zero.
    pub fn zero() -> (r: Integer)
        ensures
            r@ == 0,
    {
        Integer { negative: false, magnitude: Vec::new() }
    }

    /// The integer of a machine number.
    pub fn from_u64(x: u64) -> (r: Integer)
        ensures
            r@ == x,
    {
        Integer { negative: false, magnitude: magnitude::from_u64(x) }
    }

    /// The integer with the given sign and magnitude.
    fn with_sign(negative: bool, magnitude: Vec<u32>) -> (r: Integer)
        requires
            trimmed(magnitude@),
        ensures
            r@ == if negative {
                -(limbs_value(magnitude@) as int)
            } else {
                limbs_value(magnitude@) as int
            },
    {
        if magnitude.len() == 0 {
            Integer { negative: false, magnitude }
        } else {
            Integer { negative, magnitude }
        }
    }

    /// The integer of a signed machine number.
    pub fn from_i64(x: i64) -> (r: Integer)
        ensures
            r@ == x,
    {
        if x >= 0 {
            Integer::from_u64(x as u64)
        } else {
            let m: u64 = if x == i64::MIN {
                0x8000_0000_0000_0000
            } else {
                (-x) as u64
            };
            Integer::with_sign(true, magnitude::from_u64(m))
        }
    }

    /// Whether this is below zero.
    pub fn is_negative(&self) -> (r: bool)
        ensures
            r == (self@ < 0),
    {
        proof {
            use_type_invariant(self);
            if self.magnitude@.len() > 0 {
                lemma_trimmed_positive(self.magnitude@);
                lemma_base_pow_positive((self.magnitude@.len() - 1) as nat);
            }
        }
        self.negative
    }

    /// Whether two integers are the same number.
    pub fn equals(&self, other: &Integer) -> (r: bool)
        ensures
            r == (self@ == other@),
    {
        proof {
            use_type_invariant(self);
            use_type_invariant(other);
            if self.magnitude@.len() > 0 {
                lemma_trimmed_positive(self.magnitude@);
                lemma_base_pow_positive((self.magnitude@.len() - 1) as nat);
            }
            if other.magnitude@.len() > 0 {
                lemma_trimmed_positive(other.magnitude@);
                lemma_base_pow_positive((other.magnitude@.len() - 1) as nat);
            }
            if limbs_value(self.magnitude@) == limbs_value(other.magnitude@) {
                lemma_trimmed_unique(self.magnitude@, other.magnitude@);
            }
        }
        self.negative == other.negative && magnitude::same(&self.magnitude, &other.magnitude)
    }

    /// The number with its sign turned.
    pub fn negated(&self) -> (r: Integer)
        ensures
            r@ == -self@,
    {
        proof {
            use_type_invariant(self);
        }
        Integer::with_sign(!self.negative, magnitude::copy(&self.magnitude))
    }

    /// The sum of two integers.
    pub fn add(&self, other: &Integer) -> (r: Integer)
        ensures
            r@ == self@ + other@,
    {
        proof {
            use_type_invariant(self);
            use_type_invariant(other);
        }
        if self.negative == other.negative {
            Integer::with_sign(self.negative, magnitude::sum(&self.magnitude, &other.magnitude))
        } else {
            let (d, smaller) = magnitude::difference(&self.magnitude, &other.magnitude);
            if smaller {
                let (e, _) = magnitude::difference(&other.magnitude, &self.magnitude);
                Integer::with_sign(other.negative, e)
            } else {
                Integer::with_sign(self.negative, d)
            }
        }
    }

    /// The difference of two integers.
    pub fn sub(&self, other: &Integer) -> (r: Integer)
        ensures
            r@ == self@ - other@,
    {
        let turned = other.negated();
        self.add(&turned)
    }

    /// The product of two integers.
    pub fn mul(&self, other: &Integer) -> (r: Integer)
        ensures
            r@ == self@ * other@,
    {
        proof {
            use_type_invariant(self);
            use_type_invariant(other);
            let a = limbs_value(self.magnitude@) as int;
            let b = limbs_value(other.magnitude@) as int;
            assert((-a) * b == -(a * b)) by (nonlinear_arith);
            assert(a * (-b) == -(a * b)) by (nonlinear_arith);
            assert((-a) * (-b) == a * b) by (nonlinear_arith);
        }
        Integer::with_sign(
            self.negative != other.negative,
            magnitude::product(&self.magnitude, &other.magnitude),
        )
    }

    /// The integer raised to a power; anything raised to zero is one.
    pub fn pow(&self, exponent: u32) -> (r: Integer)
        ensures
            r@ == pow(self@, exponent as nat),
    {
        let mut result = Integer::from_u64(1);
        let mut b = self.clone();
        let mut e: u32 = exponent;
        proof {
            assert(1 * pow(self@, exponent as nat) == pow(self@, exponent as nat));
        }
        while e > 0
            invariant
                result@ * pow(b@, e as nat) == pow(self@, exponent as nat),
            decreases e,
        {
            let ghost half = (e / 2) as nat;
            proof {
                lemma_pow_square(b@, half);
                lemma_pow0(b@ * b@);
                if e % 2 == 1 {
                    lemma_pow_adds(b@, 1, 2 * half);
                    lemma_pow1(b@);
                    assert((result@ * b@) * pow(b@, 2 * half) == result@ * (b@ * pow(
                        b@,
                        2 * half,
                    ))) by (nonlinear_arith);
                }
            }
            if e % 2 == 1 {
                result = result.mul(&b);
            }
            e = e / 2;
            if e > 0 {
                b = b.mul(&b);
            } else {
                proof {
                    lemma_pow0(b@);
                }
            }
        }
        proof {
            lemma_pow0(b@);
            assert(result@ * 1 == result@);
        }
        result
    }

    /// The integer times two raised to `amount`.
    pub fn shl(&self, amount: u32) -> (r: Integer)
        ensures
            r@ == self@ * pow2(amount as nat),
    {
        proof {
            use_type_invariant(self);
        }
        let limbs: usize = (amount / 32) as usize;
        let bits: u32 = amount % 32;
        let factor = small_power_of_two(bits);
        let scaled = magnitude::scale(&self.magnitude, factor, 0);
        let shifted = magnitude::shift_up(&scaled, limbs);
        proof {
            let m = limbs_value(self.magnitude@) as int;
            lemma_base_pow_is_pow2(limbs as nat);
            lemma_pow2_adds(bits as nat, (32 * limbs) as nat);
            let f = pow2(bits as nat) as int;
            let g = base_pow(limbs as nat) as int;
            assert((m * f) * g == m * (f * g)) by (nonlinear_arith);
            assert((-m) * (f * g) == -(m * (f * g))) by (nonlinear_arith);
        }
        Integer::with_sign(self.negative, shifted)
    }

    /// The integer divided by two raised to `amount`, rounded down.
    pub fn shr(&self, amount: u32) -> (r: Integer)
        ensures
            r@ == self@ / (pow2(amount as nat) as int),
    {
        proof {
            use_type_invariant(self);
        }
        let limbs: usize = (amount / 32) as usize;
        let bits: u32 = amount % 32;
        let divisor = small_power_of_two(bits);
        proof {
            lemma_base_pow_is_pow2(limbs as nat);
            lemma_pow2_adds((32 * limbs) as nat, bits as nat);
            lemma_base_pow_positive(limbs as nat);
            lemma_pow2_pos(amount as nat);
        }
        if !self.negative {
            let high = magnitude::shift_down(&self.magnitude, limbs);
            let (q, _) = magnitude::divide_small(&high, divisor);
            proof {
                lemma_div_denominator(
                    limbs_value(self.magnitude@) as int,
                    base_pow(limbs as nat) as int,
                    divisor as int,
                );
            }
            Integer::with_sign(false, q)
        } else {
            let one = magnitude::from_u64(1);
            let (less, _) = magnitude::difference(&self.magnitude, &one);
            let high = magnitude::shift_down(&less, limbs);
            let (q, _) = magnitude::divide_small(&high, divisor);
            let up = magnitude::sum(&q, &one);
            proof {
                lemma_trimmed_positive(self.magnitude@);
                lemma_base_pow_positive((self.magnitude@.len() - 1) as nat);
                let m = limbs_value(self.magnitude@) as int;
                let p = pow2(amount as nat) as int;
                lemma_div_denominator(m - 1, base_pow(limbs as nat) as int, divisor as int);
                let k = (m - 1) / p;
                lemma_fundamental_div_mod(m - 1, p);
                let s = (m - 1) % p;
                assert(p * (-k - 1) + (p - s - 1) == -m) by (nonlinear_arith)
                    requires
                        m - 1 == p * k + s,
                ;
                lemma_fundamental_div_mod_converse(-m, p, -k - 1, p - s - 1);
            }
            Integer::with_sign(true, up)
        }
    }

    /// The integer times two raised to `amount`, for an amount of any size.
    pub fn shl_wide(&self, amount: u64) -> (r: Integer)
        ensures
            r@ == self@ * pow2(amount as nat),
    {
        let mut acc = self.clone();
        let mut left: u64 = amount;
        proof {
            lemma2_to64();
            assert(self@ * 1 == self@);
        }
        while left > 0 && !acc.is_zero()
            invariant
                left <= amount,
                acc@ == self@ * pow2((amount - left) as nat),
            decreases left,
        {
            let step: u32 = if left > 0xffff_ffff { 0xffff_ffff } else { left as u32 };
            proof {
                lemma_pow2_adds((amount - left) as nat, step as nat);
                let a = self@;
                let b = pow2((amount - left) as nat) as int;
                let c = pow2(step as nat) as int;
                assert((a * b) * c == a * (b * c)) by (nonlinear_arith);
            }
            acc = acc.shl(step);
            left = left - step as u64;
        }
        proof {
            if left > 0 {
                let b = pow2((amount - left) as nat) as int;
                lemma_pow2_pos((amount - left) as nat);
                assert(self@ == 0) by (nonlinear_arith)
                    requires
                        self@ * b == 0,
                        b > 0,
                ;
                assert(0 * pow2(amount as nat) == 0);
            }
        }
        acc
    }

    /// The integer divided by two raised to `amount`, rounded down, for an
    /// amount of any size.
    pub fn shr_wide(&self, amount: u64) -> (r: Integer)
        ensures
            r@ == self@ / (pow2(amount as nat) as int),
    {
        let mut acc = self.clone();
        let mut left: u64 = amount;
        proof {
            lemma2_to64();
            assert(self@ / 1 == self@);
        }
        while left > 0 && !acc.is_zero()
            invariant
                left <= amount,
                acc@ == self@ / (pow2((amount - left) as nat) as int),
            decreases left,
        {
            let step: u32 = if left > 0xffff_ffff { 0xffff_ffff } else { left as u32 };
            proof {
                lemma_pow2_adds((amount - left) as nat, step as nat);
                lemma_pow2_pos((amount - left) as nat);
                lemma_pow2_pos(step as nat);
                lemma_divide_twice(
                    self@,
                    pow2((amount - left) as nat) as int,
                    pow2(step as nat) as int,
                );
            }
            acc = acc.shr(step);
            left = left - step as u64;
        }
        proof {
            if left > 0 {
                lemma_pow2_adds((amount - left) as nat, left as nat);
                lemma_pow2_pos((amount - left) as nat);
                lemma_pow2_pos(left as nat);
                lemma_divide_twice(
                    self@,
                    pow2((amount - left) as nat) as int,
                    pow2(left as nat) as int,
                );
                assert(0int / (pow2(left as nat) as int) == 0) by (nonlinear_arith)
                    requires
                        pow2(left as nat) > 0,
                ;
            }
        }
        acc
    }

    /// The number as a `u32`, where it is one.
    pub fn to_u32(&self) -> (r: Option<u32>)
        ensures
            r == if 0 <= self@ <= u32::MAX {
                Some(self@ as u32)
            } else {
                None::<u32>
            },
    {
        proof {
            use_type_invariant(self);
            if self.magnitude@.len() > 0 {
                lemma_trimmed_positive(self.magnitude@);
                lemma_base_pow_positive((self.magnitude@.len() - 1) as nat);
                if self.magnitude@.len() > 1 {
                    let n = (self.magnitude@.len() - 1) as nat;
                    lemma_base_pow_positive((n - 1) as nat);
                    assert(base_pow(n) >= 4294967296) by (nonlinear_arith)
                        requires
                            base_pow(n) == 4294967296 * base_pow((n - 1) as nat),
                            base_pow((n - 1) as nat) > 0,
                    ;
                } else {
                    let s = self.magnitude@;
                    assert(s.drop_first().len() == 0);
                    assert(limbs_value(s) == s[0] as nat + 4294967296 * limbs_value(
                        s.drop_first(),
                    ));
                }
            }
        }
        if self.magnitude.len() == 0 {
            Some(0)
        } else if self.negative || self.magnitude.len() > 1 {
            None
        } else {
            Some(self.magnitude[0])
        }
    }

    /// The number that a string of digit values stands for in a radix.
    pub fn from_digits(digits: &Vec<u8>, radix: u32) -> (r: Integer)
        ensures
            r@ == digits_value(digits@, radix as nat),
    {
        let mut acc: Vec<u32> = Vec::new();
        let mut i: usize = 0;
        proof {
            assert(limbs_value(acc@) == 0);
        }
        while i < digits.len()
            invariant
                i <= digits.len(),
                trimmed(acc@),
                limbs_value(acc@) == digits_value(digits@.take(i as int), radix as nat),
            decreases digits.len() - i,
        {
            acc = magnitude::scale(&acc, radix, digits[i] as u32);
            i += 1;
            proof {
                let t = digits@.take(i as int);
                assert(t.drop_last() =~= digits@.take(i - 1));
            }
        }
        assert(digits@.take(digits.len() as int) =~= digits@);
        Integer::with_sign(false, acc)
    }

    /// The number in decimal.
    pub fn to_string(&self) -> (r: String)
        ensures
            r@ == decimal_text(self@),
    {
        proof {
            use_type_invariant(self);
            if self.magnitude@.len() > 0 {
                lemma_trimmed_positive(self.magnitude@);
                lemma_base_pow_positive((self.magnitude@.len() - 1) as nat);
            }
        }
        let ghost n = limbs_value(self.magnitude@);
        let mut low_first: Vec<char> = Vec::new();
        let ghost mut tail: Seq<char> = Seq::empty();
        let mut cur = magnitude::copy(&self.magnitude);
        let mut done = false;
        while !done
            invariant
                trimmed(cur@),
                tail.len() == low_first@.len(),
                forall|j: int| 0 <= j < tail.len() ==> tail[j] == low_first@[tail.len() - 1 - j],
                !done ==> decimal_digits(n) == decimal_digits(limbs_value(cur@)) + tail,
                done ==> decimal_digits(n) == tail,
            decreases limbs_value(cur@) + if done { 0nat } else { 1nat },
        {
            let (q, d) = magnitude::divide_small(&cur, 10);
            let c: char = (48u8 + d as u8) as char;
            let ghost v = limbs_value(cur@);
            proof {
                assert(c == digit_char(d as nat));
                if q@.len() > 0 {
                    lemma_trimmed_positive(q@);
                    lemma_base_pow_positive((q@.len() - 1) as nat);
                }
                lemma_fundamental_div_mod(v as int, 10);
            }
            low_first.push(c);
            if q.len() == 0 {
                proof {
                    assert(v < 10);
                    tail = seq![c] + tail;
                    assert(decimal_digits(v) + (tail.drop_first()) =~= tail);
                }
                done = true;
            } else {
                proof {
                    assert(v >= 10);
                    assert(decimal_digits(v) == decimal_digits(v / 10).push(c));
                    let grown = seq![c] + tail;
                    assert(decimal_digits(v / 10).push(c) + tail =~= decimal_digits(v / 10)
                        + grown);
                    tail = grown;
                }
                cur = q;
            }
        }
        let mut out = String::new();
        if self.negative {
            push_char(&mut out, '-');
        }
        let ghost head = out@;
        let mut i: usize = low_first.len();
        while i > 0
            invariant
                i <= low_first@.len(),
                tail.len() == low_first@.len(),
                forall|j: int| 0 <= j < tail.len() ==> tail[j] == low_first@[tail.len() - 1 - j],
                out@ == head + tail.take(tail.len() - i),
            decreases i,
        {
            i -= 1;
            push_char(&mut out, low_first[i]);
            assert(out@ =~= head + tail.take(tail.len() - i));
        }
        assert(tail.take(tail.len() as int) =~= tail);
        out
    }

    /// Whether this is zero.
    pub fn is_zero(&self) -> (r: bool)
        ensures
            r == (self@ == 0),
    {
        proof {
            use_type_invariant(self);
            if self.magnitude@.len() > 0 {
                crate::limbs::lemma_trimmed_positive(self.magnitude@);
                crate::limbs::lemma_base_pow_positive((self.magnitude@.len() - 1) as nat);
            }
        }
        self.magnitude.len() == 0
    }
}

} // verus!
