//! Natural numbers as little-endian sequences of 32-bit limbs.
//!
//! Every routine here states its result as arithmetic on the value of the
//! limb sequences it is given.
use vstd::arithmetic::power2::{lemma2_to64, lemma_pow2_adds, pow2};
use vstd::prelude::*;

verus! {

/// The limb base, two to the thirty-second.
pub open spec fn base() -> nat {
    4294967296
}

/// The number that a little-endian limb sequence stands for.
pub open spec fn limbs_value(s: Seq<u32>) -> nat
    decreases s.len(),
{
    if s.len() == 0 {
        0
    } else {
        s[0] as nat + base() * limbs_value(s.drop_first())
    }
}

/// A limb sequence is trimmed when its most significant limb is not zero.
pub open spec fn trimmed(s: Seq<u32>) -> bool {
    s.len() == 0 || s.last() != 0
}

/// The base raised to `n`.
pub open spec fn base_pow(n: nat) -> nat
    decreases n,
{
    if n == 0 {
        1
    } else {
        base() * base_pow((n - 1) as nat)
    }
}

/// The limb at position `i`, zero beyond the end.
pub open spec fn limb_at(s: Seq<u32>, i: int) -> nat {
    if 0 <= i < s.len() {
        s[i] as nat
    } else {
        0
    }
}

/// The number held in the first `n` limbs.
pub open spec fn low_value(s: Seq<u32>, n: nat) -> nat
    decreases n,
{
    if n == 0 {
        0
    } else {
        low_value(s, (n - 1) as nat) + limb_at(s, n - 1) * base_pow((n - 1) as nat)
    }
}

/// The base raised to any power is positive.
pub proof fn lemma_base_pow_positive(n: nat)
    ensures
        base_pow(n) > 0,
    decreases n,
{
    if n > 0 {
        lemma_base_pow_positive((n - 1) as nat);
        assert(base() * base_pow((n - 1) as nat) > 0) by (nonlinear_arith)
            requires
                base_pow((n - 1) as nat) > 0,
                base() > 0,
        ;
    }
}

/// The base raised to `n` is two raised to `32 * n`.
pub proof fn lemma_base_pow_is_pow2(n: nat)
    ensures
        base_pow(n) == pow2(32 * n),
    decreases n,
{
    lemma2_to64();
    if n > 0 {
        lemma_base_pow_is_pow2((n - 1) as nat);
        lemma_pow2_adds(32, (32 * (n - 1)) as nat);
    }
}

/// Two sequences that agree on their first `n` limbs hold the same number there.
pub proof fn lemma_low_value_agrees(a: Seq<u32>, b: Seq<u32>, n: nat)
    requires
        forall|i: int| 0 <= i < n ==> limb_at(a, i) == limb_at(b, i),
    ensures
        low_value(a, n) == low_value(b, n),
    decreases n,
{
    if n > 0 {
        lemma_low_value_agrees(a, b, (n - 1) as nat);
    }
}

/// Limbs beyond the end add nothing.
pub proof fn lemma_low_value_beyond(s: Seq<u32>, n: nat)
    requires
        n >= s.len(),
    ensures
        low_value(s, n) == low_value(s, s.len()),
    decreases n,
{
    if n > s.len() {
        lemma_low_value_beyond(s, (n - 1) as nat);
        assert(limb_at(s, n - 1) == 0);
        assert(0 * base_pow((n - 1) as nat) == 0);
    }
}

/// The first `n` limbs hold a number below the base raised to `n`.
pub proof fn lemma_low_value_bound(s: Seq<u32>, n: nat)
    ensures
        low_value(s, n) < base_pow(n),
    decreases n,
{
    if n > 0 {
        lemma_low_value_bound(s, (n - 1) as nat);
        let p = base_pow((n - 1) as nat);
        let x = limb_at(s, n - 1);
        assert(x <= base() - 1);
        assert(x * p <= (base() - 1) * p) by (nonlinear_arith)
            requires
                x <= base() - 1,
                p >= 0,
        ;
        assert((base() - 1) * p + p == base() * p) by (nonlinear_arith);
    }
}

/// Peeling the lowest limb off the first `n`.
pub proof fn lemma_low_value_unfold_first(s: Seq<u32>, n: nat)
    requires
        0 < n,
        0 < s.len(),
    ensures
        low_value(s, n) == s[0] as nat + base() * low_value(s.drop_first(), (n - 1) as nat),
    decreases n,
{
    let t = s.drop_first();
    if n == 1 {
        assert(low_value(s, 0) == 0);
        assert(low_value(t, 0) == 0);
        assert(base_pow(0) == 1);
        assert(limb_at(s, 0) * 1 == limb_at(s, 0));
    } else {
        lemma_low_value_unfold_first(s, (n - 1) as nat);
        let x = limb_at(s, n - 1);
        assert(limb_at(t, n - 2) == x);
        let p = base_pow((n - 2) as nat);
        assert(base_pow((n - 1) as nat) == base() * p);
        assert(base() * (low_value(t, (n - 2) as nat) + x * p) == base() * low_value(
            t,
            (n - 2) as nat,
        ) + x * (base() * p)) by (nonlinear_arith);
    }
}

/// The value of a sequence is the number held in all of its limbs.
pub proof fn lemma_value_is_low_value(s: Seq<u32>)
    ensures
        limbs_value(s) == low_value(s, s.len()),
    decreases s.len(),
{
    if s.len() > 0 {
        lemma_value_is_low_value(s.drop_first());
        lemma_low_value_unfold_first(s, s.len());
    }
}

/// Appending a limb adds it at the weight of its position.
pub proof fn lemma_value_push(s: Seq<u32>, x: u32)
    ensures
        limbs_value(s.push(x)) == limbs_value(s) + x as nat * base_pow(s.len()),
{
    let t = s.push(x);
    lemma_value_is_low_value(t);
    lemma_value_is_low_value(s);
    assert(limb_at(t, s.len() as int) == x as nat);
    lemma_low_value_agrees(s, t, s.len());
}

/// A sequence holds a number below the base raised to its length.
pub proof fn lemma_value_bound(s: Seq<u32>)
    ensures
        limbs_value(s) < base_pow(s.len()),
{
    lemma_value_is_low_value(s);
    lemma_low_value_bound(s, s.len());
}

/// Splitting a sequence at `n`: the low part plus the rest at weight.
pub proof fn lemma_value_split(s: Seq<u32>, n: nat)
    requires
        n <= s.len(),
    ensures
        limbs_value(s) == low_value(s, n) + base_pow(n) * limbs_value(s.skip(n as int)),
    decreases s.len() - n,
{
    if n == s.len() {
        lemma_value_is_low_value(s);
        assert(s.skip(n as int).len() == 0);
        assert(base_pow(n) * 0 == 0);
    } else {
        lemma_value_split(s, n + 1);
        let r = s.skip(n as int);
        assert(r.drop_first() =~= s.skip(n as int + 1));
        assert(r[0] == s[n as int]);
        let p = base_pow(n);
        let v = limbs_value(s.skip(n as int + 1));
        assert(base_pow(n + 1) == base() * p);
        assert(p * (s[n as int] as nat + base() * v) == s[n as int] as nat * p + (base() * p) * v)
            by (nonlinear_arith);
    }
}

/// Dropping a zero from the top leaves the value unchanged.
pub proof fn lemma_value_drop_zero(s: Seq<u32>)
    requires
        s.len() > 0,
        s.last() == 0,
    ensures
        limbs_value(s.drop_last()) == limbs_value(s),
{
    let t = s.drop_last();
    assert(t.push(0u32) =~= s);
    lemma_value_push(t, 0u32);
    assert(0 * base_pow(t.len()) == 0);
}

/// Trimmed sequences of the same value are the same sequence.
pub proof fn lemma_trimmed_unique(a: Seq<u32>, b: Seq<u32>)
    requires
        trimmed(a),
        trimmed(b),
        limbs_value(a) == limbs_value(b),
    ensures
        a =~= b,
    decreases a.len() + b.len(),
{
    if a.len() == 0 || b.len() == 0 {
        let c = if a.len() == 0 { b } else { a };
        if c.len() > 0 {
            lemma_trimmed_positive(c);
            lemma_base_pow_positive((c.len() - 1) as nat);
        }
    } else {
        let ta = a.drop_first();
        let tb = b.drop_first();
        let va = limbs_value(ta);
        let vb = limbs_value(tb);
        assert(a[0] as nat + base() * va == b[0] as nat + base() * vb);
        assert(a[0] == b[0] && va == vb) by (nonlinear_arith)
            requires
                a[0] as nat + 4294967296 * va == b[0] as nat + 4294967296 * vb,
                a[0] < 4294967296,
                b[0] < 4294967296,
        ;
        assert(trimmed(ta)) by {
            if ta.len() > 0 {
                assert(ta.last() == a.last());
            }
        }
        assert(trimmed(tb)) by {
            if tb.len() > 0 {
                assert(tb.last() == b.last());
            }
        }
        lemma_trimmed_unique(ta, tb);
        assert(a =~= seq![a[0]] + ta);
        assert(b =~= seq![b[0]] + tb);
    }
}

/// A trimmed sequence that is not empty holds a positive number.
pub proof fn lemma_trimmed_positive(s: Seq<u32>)
    requires
        trimmed(s),
        s.len() > 0,
    ensures
        limbs_value(s) >= base_pow((s.len() - 1) as nat),
{
    let t = s.drop_last();
    assert(t.push(s.last()) =~= s);
    lemma_value_push(t, s.last());
    let p = base_pow(t.len());
    lemma_base_pow_positive(t.len());
    assert(s.last() as nat * p >= p) by (nonlinear_arith)
        requires
            s.last() >= 1,
            p > 0,
    ;
}

} // verus!
