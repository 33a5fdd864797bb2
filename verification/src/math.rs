//! Arithmetic facts about powers of two and floor logarithms, together with
//! the executable power-of-two test, exponentiation and floor `log2` that the
//! cost model and the schedulers rely on.

use vstd::prelude::*;

verus! {

use vstd::arithmetic::div_mod::{
    lemma_div_by_self,
    lemma_div_denominator,
    lemma_div_is_ordered,
    lemma_fundamental_div_mod,
};
use vstd::arithmetic::logarithm::{
    log,
    lemma_log0,
    lemma_log_nonnegative,
    lemma_log_pow,
    lemma_log_s,
};
use vstd::arithmetic::mul::lemma_mul_inequality;
use vstd::arithmetic::power2::{
    lemma2_to64,
    lemma_pow2,
    lemma_pow2_adds,
    lemma_pow2_pos,
    lemma_pow2_strictly_increases,
    lemma_pow2_unfold,
    pow2,
};
use vstd::layout::unsigned_int_max_values;

/// Whether `n` is an exact power of two.
pub open spec fn is_pow2(n: nat) -> bool
    decreases n,
{
    if n == 0 {
        false
    } else if n == 1 {
        true
    } else {
        n % 2 == 0 && is_pow2(n / 2)
    }
}

/// Floor of the base-two logarithm; `log2(0)` and `log2(1)` are both `0`.
pub open spec fn log2(n: nat) -> nat {
    log(2, n as int) as nat
}

/// `log2` of a power of two recovers the exponent.
pub proof fn lemma_log2_pow2(e: nat)
    ensures
        log2(pow2(e)) == e,
{
    lemma_pow2(e);
    lemma_log_pow(2, e);
}

/// A power of two is positive and equals `pow2` of its floor logarithm.
pub proof fn lemma_is_pow2_exponent(n: nat)
    requires
        is_pow2(n),
    ensures
        n >= 1,
        n == pow2(log2(n)),
    decreases n,
{
    if n == 1 {
        lemma_log0(2, 1);
        lemma2_to64();
    } else {
        lemma_is_pow2_exponent(n / 2);
        lemma_log_s(2, n as int);
        lemma_log_nonnegative(2, n as int / 2);
        assert(log2(n) == 1 + log2(n / 2));
        lemma_pow2_unfold(log2(n));
        lemma_fundamental_div_mod(n as int, 2);
    }
}

/// `pow2` grows strictly faster than the identity.
pub proof fn lemma_pow2_exceeds(e: nat)
    ensures
        e < pow2(e),
    decreases e,
{
    if e == 0 {
        lemma2_to64();
    } else {
        lemma_pow2_exceeds((e - 1) as nat);
        lemma_pow2_unfold(e);
        lemma_pow2_pos((e - 1) as nat);
    }
}

/// An exponent whose power of two fits in `usize` is below the word size.
pub proof fn lemma_pow2_fits_exponent(e: nat)
    requires
        pow2(e) <= usize::MAX as nat,
    ensures
        e < usize::BITS as nat,
{
    unsigned_int_max_values();
    if e >= usize::BITS as nat {
        if e > usize::BITS as nat {
            lemma_pow2_strictly_increases(usize::BITS as nat, e);
        }
        assert(false);
    }
}

/// Dividing by `pow2(e)` leaves at least 1 exactly when `pow2(e)` fits in `n`.
pub proof fn lemma_div_pow2_at_least_one(n: nat, e: nat)
    ensures
        n / pow2(e) >= 1 <==> pow2(e) <= n,
{
    lemma_pow2_pos(e);
    let p = pow2(e) as int;
    if p <= n {
        lemma_div_is_ordered(p, n as int, p);
        lemma_div_by_self(p);
    }
    if n / pow2(e) >= 1 {
        lemma_fundamental_div_mod(n as int, p);
        lemma_mul_inequality(1, n as int / p, p);
    }
}

/// Successive divisions by powers of two collapse into a single division.
pub proof fn lemma_div_pow2_adds(x: nat, a: nat, b: nat)
    ensures
        x / pow2(a) / pow2(b) == x / pow2(a + b),
{
    lemma_pow2_pos(a);
    lemma_pow2_pos(b);
    lemma_pow2_adds(a, b);
    lemma_div_denominator(x as int, pow2(a) as int, pow2(b) as int);
}

/// Power-of-two test, as `usize::is_power_of_two` computes it.
pub fn is_power_of_two(n: usize) -> (r: bool)
    ensures
        r == is_pow2(n as nat),
{
    if n == 0 {
        return false;
    }
    let mut v: usize = n;
    while v > 1
        invariant
            1 <= v,
            is_pow2(n as nat) == is_pow2(v as nat),
        decreases v,
    {
        if v % 2 != 0 {
            return false;
        }
        v = v / 2;
    }
    true
}

/// `2^e`, by repeated doubling, as `1usize << e` computes it for exponents
/// whose power fits in `usize`.
pub fn pow2_exec(e: usize) -> (r: usize)
    requires
        pow2(e as nat) <= usize::MAX as nat,
    ensures
        r as nat == pow2(e as nat),
{
    proof {
        lemma2_to64();
    }
    let mut r: usize = 1;
    let mut j: usize = 0;
    while j < e
        invariant
            j <= e,
            r as nat == pow2(j as nat),
            pow2(e as nat) <= usize::MAX as nat,
        decreases e - j,
    {
        proof {
            lemma_pow2_unfold((j + 1) as nat);
            if j + 1 < e {
                lemma_pow2_strictly_increases((j + 1) as nat, e as nat);
            }
        }
        r = r * 2;
        j = j + 1;
    }
    r
}

/// Floor base-two logarithm, as `usize::ilog2` computes it.
pub fn log2_floor(n: usize) -> (r: usize)
    requires
        n >= 1,
    ensures
        r as nat == log2(n as nat),
        pow2(r as nat) <= n as nat,
{
    proof {
        lemma2_to64();
    }
    let mut v: usize = n;
    let mut r: usize = 0;
    while v > 1
        invariant
            1 <= v <= n,
            log(2, n as int) == r + log(2, v as int),
            pow2(r as nat) * (v as nat) <= n as nat,
        decreases v,
    {
        proof {
            lemma_log_s(2, v as int);
            lemma_pow2_unfold((r + 1) as nat);
            lemma_pow2_pos(r as nat);
            lemma_pow2_exceeds(r as nat);
            let p = pow2(r as nat);
            assert(2 * ((v as nat) / 2) <= v as nat) by {
                lemma_fundamental_div_mod(v as int, 2);
            }
            assert(pow2((r + 1) as nat) * ((v as nat) / 2) <= p * (v as nat)) by (nonlinear_arith)
                requires
                    pow2((r + 1) as nat) == 2 * p,
                    p >= 1,
                    2 * ((v as nat) / 2) <= v as nat,
            ;
            assert(p <= p * (v as nat)) by (nonlinear_arith)
                requires
                    p >= 1,
                    v >= 1,
            ;
        }
        v = v / 2;
        r = r + 1;
    }
    proof {
        lemma_log0(2, 1);
        lemma_log_nonnegative(2, n as int);
        assert(pow2(r as nat) <= n as nat) by {
            assert(pow2(r as nat) * 1 == pow2(r as nat));
        }
    }
    r
}

} // verus!
