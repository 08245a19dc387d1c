//! Arithmetic on natural numbers held as little-endian vectors of 32-bit limbs.
use crate::limbs::{
    base, base_pow, lemma_low_value_agrees, lemma_low_value_beyond, lemma_low_value_bound,
    lemma_value_bound, lemma_value_drop_zero, lemma_value_is_low_value, lemma_value_push,
    lemma_value_split, limb_at, limbs_value, low_value, trimmed,
};
use vstd::arithmetic::div_mod::{lemma_fundamental_div_mod, lemma_fundamental_div_mod_converse};
use vstd::prelude::*;

verus! {

/// Removes the zero limbs at the top.
pub fn trim(v: Vec<u32>) -> (r: Vec<u32>)
    ensures
        trimmed(r@),
        limbs_value(r@) == limbs_value(v@),
{
    let ghost start = v@;
    let mut r = v;
    while r.len() > 0 && r[r.len() - 1] == 0
        invariant
            limbs_value(r@) == limbs_value(start),
        decreases r.len(),
    {
        proof {
            lemma_value_drop_zero(r@);
        }
        r.pop();
    }
    r
}

/// A copy of a limb vector.
pub fn copy(a: &Vec<u32>) -> (r: Vec<u32>)
    ensures
        r@ == a@,
{
    let mut out: Vec<u32> = Vec::new();
    let mut i: usize = 0;
    while i < a.len()
        invariant
            i <= a.len(),
            out@ == a@.take(i as int),
        decreases a.len() - i,
    {
        out.push(a[i]);
        i += 1;
        assert(out@ =~= a@.take(i as int));
    }
    assert(a@.take(a.len() as int) =~= a@);
    out
}

/// Whether two limb vectors hold the same limbs.
pub fn same(a: &Vec<u32>, b: &Vec<u32>) -> (r: bool)
    ensures
        r == (a@ == b@),
{
    if a.len() != b.len() {
        return false;
    }
    let mut i: usize = 0;
    while i < a.len()
        invariant
            i <= a.len(),
            a.len() == b.len(),
            a@.take(i as int) == b@.take(i as int),
        decreases a.len() - i,
    {
        if a[i] != b[i] {
            return false;
        }
        i += 1;
        assert(a@.take(i as int) =~= a@.take(i - 1).push(a@[i - 1]));
        assert(b@.take(i as int) =~= b@.take(i - 1).push(b@[i - 1]));
    }
    assert(a@.take(a.len() as int) =~= a@);
    assert(b@.take(b.len() as int) =~= b@);
    true
}

/// The limbs of a machine integer.
pub fn from_u64(x: u64) -> (r: Vec<u32>)
    ensures
        trimmed(r@),
        limbs_value(r@) == x,
{
    let low: u32 = (x % 4294967296) as u32;
    let high: u32 = (x / 4294967296) as u32;
    let mut out: Vec<u32> = Vec::new();
    out.push(low);
    out.push(high);
    proof {
        lemma_value_push(seq![low], high);
        lemma_value_push(Seq::<u32>::empty(), low);
        assert(Seq::<u32>::empty().push(low) =~= seq![low]);
        assert(seq![low].push(high) =~= out@);
        assert(base_pow(0) == 1);
        assert(base_pow(1) == base() * base_pow(0));
        assert(base_pow(1) == 4294967296);
        assert(limbs_value(Seq::<u32>::empty()) == 0);
        assert(low as nat * 1 == low);
        assert(x == low + 4294967296 * high);
        assert(seq![low].len() == 1);
        assert(limbs_value(seq![low]) == low);
        assert(high as nat * base_pow(1) == 4294967296 * high) by (nonlinear_arith)
            requires
                base_pow(1) == 4294967296,
        ;
        assert(limbs_value(out@) == x);
    }
    trim(out)
}

/// `a * m + c` for a limb vector and two small numbers.
pub fn scale(a: &Vec<u32>, m: u32, c: u32) -> (r: Vec<u32>)
    ensures
        trimmed(r@),
        limbs_value(r@) == limbs_value(a@) * m + c,
{
    let mut out: Vec<u32> = Vec::new();
    let mut carry: u64 = c as u64;
    let mut i: usize = 0;
    proof {
        assert(base_pow(0) == 1);
        assert(limbs_value(out@) == 0);
        assert(low_value(a@, 0) * m == 0) by (nonlinear_arith)
            requires
                low_value(a@, 0) == 0,
        ;
    }
    while i < a.len()
        invariant
            i <= a.len(),
            out@.len() == i,
            carry < 4294967296,
            limbs_value(out@) + carry * base_pow(i as nat) == low_value(a@, i as nat) * m + c,
        decreases a.len() - i,
    {
        let x: u64 = a[i] as u64;
        assert(x * (m as u64) + carry < 0x1_0000_0000_0000_0000) by (nonlinear_arith)
            requires
                x < 4294967296,
                m < 4294967296,
                carry < 4294967296,
        ;
        let t: u64 = x * (m as u64) + carry;
        let low: u32 = (t % 4294967296) as u32;
        let high: u64 = t / 4294967296;
        proof {
            let p = base_pow(i as nat);
            let lv = low_value(a@, i as nat);
            lemma_value_push(out@, low);
            assert(base_pow((i + 1) as nat) == base() * p);
            assert(limb_at(a@, i as int) == x);
            assert(t == low + 4294967296 * high);
            assert(high < 4294967296) by (nonlinear_arith)
                requires
                    x < 4294967296,
                    m < 4294967296,
                    carry < 4294967296,
                    t == x * m + carry,
                    high == t / 4294967296,
            ;
            assert(low * p + high * (4294967296 * p) == (x * m + carry) * p) by (nonlinear_arith)
                requires
                    x * m + carry == low + 4294967296 * high,
            ;
            assert((lv + x * p) * m == lv * m + (x * m) * p) by (nonlinear_arith);
            assert((x * m + carry) * p == (x * m) * p + carry * p) by (nonlinear_arith);
        }
        out.push(low);
        carry = high;
        i += 1;
    }
    proof {
        lemma_value_is_low_value(a@);
        lemma_value_push(out@, carry as u32);
    }
    if carry > 0 {
        out.push(carry as u32);
    } else {
        assert(0 * base_pow(i as nat) == 0);
    }
    trim(out)
}

/// The sum of two numbers.
pub fn sum(a: &Vec<u32>, b: &Vec<u32>) -> (r: Vec<u32>)
    ensures
        trimmed(r@),
        limbs_value(r@) == limbs_value(a@) + limbs_value(b@),
{
    let n: usize = if a.len() >= b.len() { a.len() } else { b.len() };
    let mut out: Vec<u32> = Vec::new();
    let mut carry: u64 = 0;
    let mut i: usize = 0;
    proof {
        assert(limbs_value(out@) == 0);
        assert(0 * base_pow(0) == 0);
    }
    while i < n
        invariant
            i <= n,
            n >= a.len(),
            n >= b.len(),
            out@.len() == i,
            carry <= 1,
            limbs_value(out@) + carry * base_pow(i as nat) == low_value(a@, i as nat) + low_value(
                b@,
                i as nat,
            ),
        decreases n - i,
    {
        let x: u64 = if i < a.len() { a[i] as u64 } else { 0 };
        let y: u64 = if i < b.len() { b[i] as u64 } else { 0 };
        let t: u64 = x + y + carry;
        let low: u32 = (t % 4294967296) as u32;
        let high: u64 = t / 4294967296;
        proof {
            let p = base_pow(i as nat);
            lemma_value_push(out@, low);
            assert(base_pow((i + 1) as nat) == base() * p);
            assert(limb_at(a@, i as int) == x);
            assert(limb_at(b@, i as int) == y);
            assert(low * p + high * (4294967296 * p) == (x + y + carry) * p) by (nonlinear_arith)
                requires
                    x + y + carry == low + 4294967296 * high,
            ;
            assert((x + y + carry) * p == x * p + y * p + carry * p) by (nonlinear_arith);
        }
        out.push(low);
        carry = high;
        i += 1;
    }
    proof {
        lemma_value_is_low_value(a@);
        lemma_value_is_low_value(b@);
        lemma_low_value_beyond(a@, n as nat);
        lemma_low_value_beyond(b@, n as nat);
        lemma_value_push(out@, carry as u32);
    }
    if carry > 0 {
        out.push(carry as u32);
    } else {
        assert(0 * base_pow(i as nat) == 0);
    }
    trim(out)
}

/// The difference of two numbers, and whether the first is the smaller.
///
/// Where the first is the smaller, no difference is given.
pub fn difference(a: &Vec<u32>, b: &Vec<u32>) -> (r: (Vec<u32>, bool))
    ensures
        r.1 == (limbs_value(a@) < limbs_value(b@)),
        trimmed(r.0@),
        !r.1 ==> limbs_value(r.0@) == limbs_value(a@) - limbs_value(b@),
        r.1 ==> r.0@.len() == 0,
{
    let n: usize = if a.len() >= b.len() { a.len() } else { b.len() };
    let mut out: Vec<u32> = Vec::new();
    let mut borrow: u64 = 0;
    let mut i: usize = 0;
    proof {
        assert(limbs_value(out@) == 0);
        assert(0 * base_pow(0) == 0);
    }
    while i < n
        invariant
            i <= n,
            n >= a.len(),
            n >= b.len(),
            out@.len() == i,
            borrow <= 1,
            limbs_value(out@) + low_value(b@, i as nat) == low_value(a@, i as nat) + borrow
                * base_pow(i as nat),
        decreases n - i,
    {
        let x: u64 = if i < a.len() { a[i] as u64 } else { 0 };
        let y: u64 = if i < b.len() { b[i] as u64 } else { 0 };
        let t: u64 = x + 4294967296 - y - borrow;
        let low: u32 = (t % 4294967296) as u32;
        let next: u64 = if t < 4294967296 { 1 } else { 0 };
        proof {
            let p = base_pow(i as nat);
            lemma_value_push(out@, low);
            assert(base_pow((i + 1) as nat) == base() * p);
            assert(limb_at(a@, i as int) == x);
            assert(limb_at(b@, i as int) == y);
            assert(low + y + borrow == x + 4294967296 * next);
            assert(low * p + y * p + borrow * p == x * p + next * (4294967296 * p))
                by (nonlinear_arith)
                requires
                    low + y + borrow == x + 4294967296 * next,
            ;
        }
        out.push(low);
        borrow = next;
        i += 1;
    }
    proof {
        lemma_value_is_low_value(a@);
        lemma_value_is_low_value(b@);
        lemma_low_value_beyond(a@, n as nat);
        lemma_low_value_beyond(b@, n as nat);
        lemma_low_value_bound(a@, n as nat);
        lemma_low_value_bound(b@, n as nat);
        lemma_value_bound(out@);
        if borrow == 0 {
            assert(0 * base_pow(n as nat) == 0);
        } else {
            assert(1 * base_pow(n as nat) == base_pow(n as nat));
        }
    }
    if borrow > 0 {
        (Vec::new(), true)
    } else {
        (trim(out), false)
    }
}

/// The quotient and remainder of a number by a small positive number.
pub fn divide_small(a: &Vec<u32>, d: u32) -> (r: (Vec<u32>, u32))
    requires
        d > 0,
    ensures
        trimmed(r.0@),
        limbs_value(r.0@) == limbs_value(a@) / (d as nat),
        r.1 == limbs_value(a@) % (d as nat),
{
    let n: usize = a.len();
    let mut out: Vec<u32> = Vec::new();
    let mut k: usize = 0;
    while k < n
        invariant
            k <= n,
            out@.len() == k,
        decreases n - k,
    {
        out.push(0);
        k += 1;
    }
    let mut rem: u64 = 0;
    let mut i: usize = n;
    proof {
        assert(out@.skip(n as int).len() == 0);
        assert(a@.skip(n as int).len() == 0);
        assert(limbs_value(out@.skip(n as int)) * d == 0) by (nonlinear_arith)
            requires
                limbs_value(out@.skip(n as int)) == 0,
        ;
    }
    while i > 0
        invariant
            i <= n,
            n == a.len(),
            out@.len() == n,
            d > 0,
            rem < d,
            limbs_value(out@.skip(i as int)) * d + rem == limbs_value(a@.skip(i as int)),
        decreases i,
    {
        let ghost before = out@;
        i -= 1;
        let x: u64 = a[i] as u64;
        assert(rem * 4294967296 + x < (d as u64) * 4294967296) by (nonlinear_arith)
            requires
                rem < d,
                x < 4294967296,
        ;
        assert((d as u64) * 4294967296 < 0x1_0000_0000_0000_0000) by (nonlinear_arith)
            requires
                d < 4294967296,
        ;
        let cur: u64 = rem * 4294967296 + x;
        let q: u64 = cur / (d as u64);
        let next: u64 = cur % (d as u64);
        proof {
            lemma_fundamental_div_mod(cur as int, d as int);
            assert(q < 4294967296) by (nonlinear_arith)
                requires
                    cur == d * q + next,
                    cur < d * 4294967296,
                    d > 0,
                    next >= 0,
            ;
        }
        out.set(i, q as u32);
        proof {
            let so = out@.skip(i as int);
            let sa = a@.skip(i as int);
            assert(so.drop_first() =~= before.skip(i + 1));
            assert(sa.drop_first() =~= a@.skip(i + 1));
            assert(so[0] == q);
            assert(sa[0] == x);
            let vo = limbs_value(before.skip(i + 1));
            let va = limbs_value(a@.skip(i + 1));
            assert(limbs_value(so) == q + 4294967296 * vo);
            assert(limbs_value(sa) == x + 4294967296 * va);
            assert((q + 4294967296 * vo) * d + next == x + 4294967296 * va) by (nonlinear_arith)
                requires
                    vo * d + rem == va,
                    rem * 4294967296 + x == d * q + next,
            ;
        }
        rem = next;
    }
    proof {
        assert(out@.skip(0) =~= out@);
        assert(a@.skip(0) =~= a@);
        let qv = limbs_value(out@) as int;
        assert(qv * d + rem == d * qv + rem) by (nonlinear_arith);
        lemma_fundamental_div_mod_converse(limbs_value(a@) as int, d as int, qv, rem as int);
    }
    (trim(out), rem as u32)
}

/// The number times the base raised to `count`: `count` zero limbs go below.
pub fn shift_up(a: &Vec<u32>, count: usize) -> (r: Vec<u32>)
    requires
        trimmed(a@),
    ensures
        trimmed(r@),
        limbs_value(r@) == limbs_value(a@) * base_pow(count as nat),
{
    let mut out: Vec<u32> = Vec::new();
    if a.len() == 0 {
        assert(limbs_value(a@) * base_pow(count as nat) == 0) by (nonlinear_arith)
            requires
                limbs_value(a@) == 0,
        ;
        return out;
    }
    let mut k: usize = 0;
    while k < count
        invariant
            k <= count,
            out@.len() == k,
            forall|j: int| 0 <= j < k ==> out@[j] == 0,
        decreases count - k,
    {
        out.push(0);
        k += 1;
    }
    let ghost zeros = out@;
    let mut i: usize = 0;
    while i < a.len()
        invariant
            i <= a.len(),
            out@ == zeros + a@.take(i as int),
        decreases a.len() - i,
    {
        out.push(a[i]);
        i += 1;
        assert(out@ =~= zeros + a@.take(i as int));
    }
    proof {
        assert(a@.take(a.len() as int) =~= a@);
        assert(out@.skip(count as int) =~= a@);
        lemma_value_split(out@, count as nat);
        let empty = Seq::<u32>::empty();
        lemma_low_value_agrees(out@, empty, count as nat);
        lemma_low_value_beyond(empty, count as nat);
        assert(low_value(empty, 0) == 0);
        assert(base_pow(count as nat) * limbs_value(a@) == limbs_value(a@) * base_pow(
            count as nat,
        )) by (nonlinear_arith);
        assert(out@.last() == a@.last());
    }
    out
}

/// The number divided by the base raised to `count`: the lowest limbs go.
pub fn shift_down(a: &Vec<u32>, count: usize) -> (r: Vec<u32>)
    requires
        trimmed(a@),
    ensures
        trimmed(r@),
        limbs_value(r@) == limbs_value(a@) / base_pow(count as nat),
{
    let mut out: Vec<u32> = Vec::new();
    if count >= a.len() {
        proof {
            lemma_value_bound(a@);
            lemma_value_is_low_value(a@);
            lemma_low_value_beyond(a@, count as nat);
            lemma_low_value_bound(a@, count as nat);
            lemma_fundamental_div_mod_converse(
                limbs_value(a@) as int,
                base_pow(count as nat) as int,
                0,
                limbs_value(a@) as int,
            );
        }
        return out;
    }
    let mut i: usize = count;
    while i < a.len()
        invariant
            count <= i <= a.len(),
            out@ == a@.subrange(count as int, i as int),
        decreases a.len() - i,
    {
        out.push(a[i]);
        i += 1;
        assert(out@ =~= a@.subrange(count as int, i as int));
    }
    proof {
        assert(a@.subrange(count as int, a.len() as int) =~= a@.skip(count as int));
        lemma_value_split(a@, count as nat);
        lemma_low_value_bound(a@, count as nat);
        let p = base_pow(count as nat) as int;
        let q = limbs_value(out@) as int;
        assert(p * q == q * p) by (nonlinear_arith);
        lemma_fundamental_div_mod_converse(
            limbs_value(a@) as int,
            p,
            q,
            low_value(a@, count as nat) as int,
        );
        assert(out@.last() == a@.last());
    }
    out
}

/// The product of two numbers.
pub fn product(a: &Vec<u32>, b: &Vec<u32>) -> (r: Vec<u32>)
    ensures
        trimmed(r@),
        limbs_value(r@) == limbs_value(a@) * limbs_value(b@),
{
    let mut acc: Vec<u32> = Vec::new();
    let mut i: usize = 0;
    proof {
        assert(limbs_value(acc@) == 0);
        assert(limbs_value(a@) * low_value(b@, 0) == 0) by (nonlinear_arith)
            requires
                low_value(b@, 0) == 0,
        ;
    }
    while i < b.len()
        invariant
            i <= b.len(),
            trimmed(acc@),
            limbs_value(acc@) == limbs_value(a@) * low_value(b@, i as nat),
        decreases b.len() - i,
    {
        let row = scale(a, b[i], 0);
        let shifted = shift_up(&row, i);
        proof {
            let va = limbs_value(a@);
            let x = b@[i as int] as nat;
            let p = base_pow(i as nat);
            let lv = low_value(b@, i as nat);
            assert(limb_at(b@, i as int) == x);
            assert(va * lv + (va * x) * p == va * (lv + x * p)) by (nonlinear_arith);
        }
        acc = sum(&acc, &shifted);
        i += 1;
    }
    proof {
        lemma_value_is_low_value(b@);
    }
    acc
}

} // verus!
