//! The fixed-factor heuristic scheduler: repeat one folding factor every
//! round after the no-fold first round, until the working degree
//! (`degree / blowup_factor`) is small enough.
//!
//! Two remainder policies decide when to stop. The threshold policy
//! ([`simple_schedule`]) folds until the working degree is at or below a
//! bound. The exact-remainder policy ([`exact_remainder_schedule`]) takes
//! full fixed-factor rounds while the result would stay at or above a
//! power-of-two target, then appends one smaller adjustment round when the
//! leftover exponent exceeds 1.

use vstd::prelude::*;

verus! {

use vstd::arithmetic::div_mod::{
    lemma_div_basics,
    lemma_div_by_self,
    lemma_div_decreases,
    lemma_div_is_ordered,
    lemma_div_is_ordered_by_denominator,
};
use vstd::arithmetic::mul::lemma_mul_inequality;
use vstd::arithmetic::power2::{
    lemma2_to64,
    lemma_pow2_pos,
    lemma_pow2_strictly_increases,
    lemma_pow2_subtracts,
    lemma_pow2_unfold,
    pow2,
};
use crate::cost_model::{
    bits_sum,
    estimate_elements,
    layer_degree,
    lemma_bits_sum_agree,
    proof_size,
    replayable,
    FriError,
};
use crate::math::{
    is_pow2,
    is_power_of_two,
    lemma_div_pow2_adds,
    lemma_div_pow2_at_least_one,
    lemma_is_pow2_exponent,
    lemma_log2_pow2,
    lemma_pow2_fits_exponent,
    log2,
    log2_floor,
    pow2_exec,
};

/// Number of fixed-factor divisions the threshold policy performs before
/// `current` is at or below `threshold`.
pub open spec fn threshold_divisions(current: nat, factor_bits: nat, threshold: nat) -> nat
    decreases current
    via threshold_divisions_decreases
{
    if factor_bits >= 1 && current > threshold {
        1 + threshold_divisions(current / pow2(factor_bits), factor_bits, threshold)
    } else {
        0
    }
}

#[via_fn]
proof fn threshold_divisions_decreases(current: nat, factor_bits: nat, threshold: nat) {
    if factor_bits >= 1 && current > threshold {
        lemma_pow2_unfold(factor_bits);
        lemma_pow2_pos((factor_bits - 1) as nat);
        lemma_div_decreases(current as int, pow2(factor_bits) as int);
    }
}

/// The no-fold first round followed by `count` rounds of `factor_bits` each.
pub open spec fn fixed_rounds(factor_bits: usize, count: nat) -> Seq<usize> {
    seq![0usize].add(Seq::new(count, |i: int| factor_bits))
}

/// The threshold-policy schedule for a given working degree.
pub open spec fn threshold_schedule(working_degree: nat, factor_bits: usize, threshold: nat) -> Seq<
    usize,
> {
    fixed_rounds(factor_bits, threshold_divisions(working_degree, factor_bits as nat, threshold))
}

/// `bits_sum` over a fixed-factor schedule: round 0 contributes nothing and
/// every later round contributes `factor_bits`.
pub proof fn lemma_fixed_rounds_bits_sum(factor_bits: usize, count: nat, i: int)
    requires
        0 <= i <= count + 1,
    ensures
        bits_sum(fixed_rounds(factor_bits, count), i) == if i <= 0 {
            0
        } else {
            (factor_bits as nat) * ((i - 1) as nat)
        },
    decreases i,
{
    let s = fixed_rounds(factor_bits, count);
    if i > 0 {
        lemma_fixed_rounds_bits_sum(factor_bits, count, i - 1);
        assert(bits_sum(s, i) == bits_sum(s, i - 1) + s[i - 1] as nat);
        if i == 1 {
            assert(s[0] == 0);
            assert(bits_sum(s, i) == 0);
            assert((factor_bits as nat) * ((i - 1) as nat) == 0) by (nonlinear_arith)
                requires
                    i == 1,
            ;
        } else {
            assert(s[i - 1] == factor_bits);
            let a: nat = (i - 2) as nat;
            assert((factor_bits as nat) * a + factor_bits as nat == (factor_bits as nat) * (a
                + 1)) by (nonlinear_arith);
            assert((i - 1) as nat == a + 1);
        }
    }
}

/// A fixed-factor schedule whose divisions all saw a working degree of at
/// least 1 is replayable against the full degree.
pub proof fn lemma_fixed_rounds_replayable(
    degree: nat,
    blowup_factor: nat,
    factor_bits: usize,
    count: nat,
)
    requires
        degree >= 1,
        blowup_factor >= 1,
        pow2(factor_bits as nat) <= usize::MAX as nat,
        forall|k: nat| k < count ==> #[trigger] pow2((factor_bits as nat) * k) <= degree
            / blowup_factor,
    ensures
        replayable(degree, fixed_rounds(factor_bits, count)),
{
    let s = fixed_rounds(factor_bits, count);
    lemma2_to64();
    lemma_div_basics(degree as int);
    lemma_div_is_ordered_by_denominator(degree as int, 1, blowup_factor as int);
    assert forall|i: int| 0 <= i < s.len() implies #[trigger] layer_degree(degree, s, i)
        >= 1 by {
        lemma_fixed_rounds_bits_sum(factor_bits, count, i);
        if i == 0 {
            assert(bits_sum(s, 0) == 0);
        } else {
            assert(pow2((factor_bits as nat) * ((i - 1) as nat)) <= degree / blowup_factor);
        }
        lemma_div_pow2_at_least_one(degree, bits_sum(s, i));
    }
    assert forall|i: int| 0 <= i < s.len() implies #[trigger] pow2(s[i] as nat)
        <= usize::MAX as nat by {
        if i == 0 {
            assert(s[0] == 0);
        } else {
            assert(s[i] == factor_bits);
        }
    }
}

/// Number of full fixed-factor divisions the exact-remainder policy takes:
/// it keeps dividing while the result would still be at or above the target.
pub open spec fn exact_divisions(current: nat, factor_bits: nat, target: nat) -> nat
    decreases current
    via exact_divisions_decreases
{
    if factor_bits >= 1 && target >= 1 && current / pow2(factor_bits) >= target {
        1 + exact_divisions(current / pow2(factor_bits), factor_bits, target)
    } else {
        0
    }
}

#[via_fn]
proof fn exact_divisions_decreases(current: nat, factor_bits: nat, target: nat) {
    if factor_bits >= 1 && target >= 1 && current / pow2(factor_bits) >= target {
        lemma_pow2_unfold(factor_bits);
        lemma_pow2_pos((factor_bits - 1) as nat);
        lemma_div_pow2_at_least_one(current, factor_bits);
        lemma_div_decreases(current as int, pow2(factor_bits) as int);
    }
}

/// Working degree left after the exact-remainder policy's full fixed-factor
/// divisions.
pub open spec fn exact_residual(working_degree: nat, factor_bits: nat, target: nat) -> nat {
    working_degree / pow2(factor_bits * exact_divisions(working_degree, factor_bits, target))
}

/// The exact-remainder policy's final adjustment exponent: the floor
/// logarithm of residual over target.
pub open spec fn exact_adjustment(working_degree: nat, factor_bits: nat, target: nat) -> nat {
    log2(exact_residual(working_degree, factor_bits, target) / target)
}

/// The exact-remainder schedule: the no-fold first round, one fixed-factor
/// round per full division and, when the adjustment exponent exceeds 1, one
/// smaller final round.
pub open spec fn exact_schedule(working_degree: nat, factor_bits: usize, target: nat) -> Seq<
    usize,
> {
    let base = fixed_rounds(factor_bits, exact_divisions(working_degree, factor_bits as nat, target));
    let adj = exact_adjustment(working_degree, factor_bits as nat, target);
    if adj > 1 {
        base.push(adj as usize)
    } else {
        base
    }
}

/// After the exact-remainder policy's full divisions the residual degree is
/// still at or above the target, and one more fixed-factor division would
/// undershoot it.
pub proof fn lemma_exact_residual_bounds(current: nat, factor_bits: nat, target: nat)
    requires
        1 <= factor_bits,
        1 <= target,
        target <= current,
    ensures
        exact_residual(current, factor_bits, target) >= target,
        exact_residual(current, factor_bits, target) / pow2(factor_bits) < target,
    decreases current,
{
    let k = exact_divisions(current, factor_bits, target);
    lemma2_to64();
    if current / pow2(factor_bits) >= target {
        let next = current / pow2(factor_bits);
        lemma_pow2_unfold(factor_bits);
        lemma_pow2_pos((factor_bits - 1) as nat);
        lemma_div_pow2_at_least_one(current, factor_bits);
        lemma_div_decreases(current as int, pow2(factor_bits) as int);
        lemma_exact_residual_bounds(next, factor_bits, target);
        let k2 = exact_divisions(next, factor_bits, target);
        assert(k == 1 + k2);
        lemma_div_pow2_adds(current, factor_bits, factor_bits * k2);
        assert(factor_bits + factor_bits * k2 == factor_bits * (1 + k2)) by (nonlinear_arith);
        assert(exact_residual(current, factor_bits, target) == exact_residual(
            next,
            factor_bits,
            target,
        ));
    } else {
        assert(k == 0);
        assert(factor_bits * 0nat == 0nat) by (nonlinear_arith);
        lemma_div_basics(current as int);
    }
}

/// Replaying the exact-remainder schedule's divisions against the working
/// degree lands exactly on the target when the adjustment round is present,
/// and within one fixed-factor step of it (no more than one factor of two
/// above) otherwise.
pub proof fn lemma_exact_schedule_replay(working_degree: nat, factor_bits: usize, target: nat)
    requires
        is_pow2(working_degree),
        is_pow2(target),
        target <= working_degree,
        working_degree <= usize::MAX as nat,
        1 <= factor_bits,
    ensures
        ({
            let s = exact_schedule(working_degree, factor_bits, target);
            let landed = working_degree / pow2(bits_sum(s, s.len() as int));
            &&& exact_adjustment(working_degree, factor_bits as nat, target) > 1 ==> landed
                == target
            &&& exact_adjustment(working_degree, factor_bits as nat, target) <= 1 ==> target
                <= landed <= 2 * target
        }),
{
    let fb = factor_bits as nat;
    let k = exact_divisions(working_degree, fb, target);
    let residual = exact_residual(working_degree, fb, target);
    let adj = exact_adjustment(working_degree, fb, target);
    let s = exact_schedule(working_degree, factor_bits, target);
    lemma_is_pow2_exponent(target);
    lemma_is_pow2_exponent(working_degree);
    let wl = log2(working_degree);
    let tl = log2(target);
    lemma_exact_residual_bounds(working_degree, fb, target);
    lemma_div_pow2_at_least_one(working_degree, fb * k);
    assert(fb * k <= wl) by {
        if fb * k > wl {
            lemma_pow2_strictly_increases(wl, fb * k);
        }
    }
    lemma_pow2_subtracts(fb * k, wl);
    let rl: nat = (wl - fb * k) as nat;
    assert(residual == pow2(rl));
    assert(tl <= rl) by {
        if tl > rl {
            lemma_pow2_strictly_increases(rl, tl);
        }
    }
    lemma_pow2_subtracts(tl, rl);
    assert(residual / target == pow2((rl - tl) as nat));
    lemma_log2_pow2((rl - tl) as nat);
    assert(adj == rl - tl);
    let base = fixed_rounds(factor_bits, k);
    lemma_fixed_rounds_bits_sum(factor_bits, k, (k + 1) as int);
    if adj > 1 {
        lemma_bits_sum_agree(s, base, (k + 1) as int);
        lemma_pow2_fits_exponent(wl);
        assert(adj <= wl);
        assert(s[(k + 1) as int] as nat == adj);
        assert(bits_sum(s, s.len() as int) == bits_sum(s, (k + 1) as int) + s[(k + 1) as int] as nat);
        assert(bits_sum(s, s.len() as int) == fb * k + adj);
        lemma_pow2_subtracts(fb * k + adj, wl);
        assert(working_degree / pow2(fb * k + adj) == pow2((wl - fb * k - adj) as nat));
        assert((wl - fb * k - adj) as nat == tl);
    } else {
        assert(bits_sum(s, s.len() as int) == fb * k);
        assert(working_degree / pow2(bits_sum(s, s.len() as int)) == residual);
        if adj == 1 {
            lemma_pow2_unfold(rl);
            assert(residual == 2 * target);
        } else {
            assert(rl == tl);
            assert(residual == target);
        }
    }
}

/// With a working degree of 1 and a positive remainder bound, the threshold
/// policy emits only the no-fold first round: no further folding is legal.
pub proof fn lemma_threshold_schedule_degree_one(factor_bits: usize, threshold: nat)
    requires
        1 <= threshold,
    ensures
        threshold_schedule(1, factor_bits, threshold) == seq![0usize],
{
    assert(threshold_divisions(1, factor_bits as nat, threshold) == 0);
    assert(threshold_schedule(1, factor_bits, threshold) =~= seq![0usize]);
}

/// With a working degree of 1 the exact policy's only legal target is 1,
/// and it emits only the no-fold first round: no further folding is legal.
pub proof fn lemma_exact_schedule_degree_one(factor_bits: usize)
    requires
        1 <= factor_bits,
    ensures
        exact_schedule(1, factor_bits, 1) == seq![0usize],
{
    let fb = factor_bits as nat;
    lemma2_to64();
    lemma_pow2_unfold(fb);
    lemma_pow2_pos((fb - 1) as nat);
    lemma_div_pow2_at_least_one(1, fb);
    assert(exact_divisions(1, fb, 1) == 0);
    assert(fb * 0nat == 0nat) by (nonlinear_arith);
    lemma_div_basics(1);
    assert(exact_residual(1, fb, 1) == 1);
    lemma_log2_pow2(0);
    assert(exact_adjustment(1, fb, 1) == 0);
    assert(exact_schedule(1, factor_bits, 1) =~= seq![0usize]);
}

/// Number of rounds of the threshold policy: the no-fold first round plus
/// one fixed-factor round per division. The result is the smallest `n >= 1`
/// such that `degree / 2^(folding_factor * (n - 1))` is at or below
/// `remainder_max_degree`.
pub fn num_rounds(degree: usize, folding_factor: usize, remainder_max_degree: usize) -> (r: usize)
    requires
        1 <= folding_factor,
        pow2(folding_factor as nat) <= usize::MAX as nat,
    ensures
        1 <= r,
        (r - 1) as nat == threshold_divisions(
            degree as nat,
            folding_factor as nat,
            remainder_max_degree as nat,
        ),
        degree as nat / pow2((folding_factor as nat) * ((r - 1) as nat))
            <= remainder_max_degree as nat,
        forall|k: nat| k < (r - 1) as nat ==> degree as nat / #[trigger] pow2(
            (folding_factor as nat) * k,
        ) > remainder_max_degree as nat,
{
    let ghost fb: nat = folding_factor as nat;
    let ghost t: nat = remainder_max_degree as nat;
    let factor = pow2_exec(folding_factor);
    proof {
        lemma2_to64();
        lemma_div_basics(degree as int);
        lemma_pow2_unfold(fb);
        lemma_pow2_pos((fb - 1) as nat);
        assert(fb * 0nat == 0nat) by (nonlinear_arith);
    }
    let mut n: usize = 1;
    let mut current: usize = degree;
    while current > remainder_max_degree
        invariant
            1 <= n,
            fb == folding_factor as nat,
            t == remainder_max_degree as nat,
            1 <= fb,
            factor as nat == pow2(fb),
            factor >= 2,
            current as nat == degree as nat / pow2(fb * ((n - 1) as nat)),
            threshold_divisions(degree as nat, fb, t) == (n - 1) as nat + threshold_divisions(
                current as nat,
                fb,
                t,
            ),
            forall|k: nat| k < (n - 1) as nat ==> degree as nat / #[trigger] pow2(fb * k) > t,
        decreases current,
    {
        proof {
            lemma_div_decreases(current as int, factor as int);
            lemma_div_pow2_adds(degree as nat, fb * ((n - 1) as nat), fb);
            let m: nat = (n - 1) as nat;
            assert(fb * m + fb == fb * (m + 1)) by (nonlinear_arith);
            assert(n as nat == m + 1);
            lemma_div_pow2_at_least_one(degree as nat, fb * ((n - 1) as nat));
            lemma_pow2_fits_exponent(fb * ((n - 1) as nat));
            lemma_mul_inequality(1, fb as int, (n - 1) as int);
        }
        current = current / factor;
        n = n + 1;
    }
    n
}

/// The fixed-factor scheduler with the threshold remainder policy: repeat
/// `folding_factor` (in bits) every round after the no-fold first round
/// until the working degree is at or below `remainder_max_degree`, then
/// score the schedule with the cost model. Returns `InvalidParameter`
/// exactly when `degree` or `blowup_factor` is not a power of two, or the
/// remainder bound exceeds the working degree.
pub fn simple_schedule(
    degree: usize,
    blowup_factor: usize,
    num_queries: usize,
    remainder_max_degree: usize,
    folding_factor: usize,
) -> (r: Result<(usize, Vec<usize>), FriError>)
    requires
        1 <= folding_factor,
        pow2(folding_factor as nat) <= usize::MAX as nat,
        (is_pow2(degree as nat) && is_pow2(blowup_factor as nat) && remainder_max_degree as nat
            <= degree as nat / blowup_factor as nat) ==> proof_size(
            degree as nat,
            blowup_factor as nat,
            num_queries as nat,
            threshold_schedule(
                degree as nat / blowup_factor as nat,
                folding_factor,
                remainder_max_degree as nat,
            ),
        ) <= usize::MAX as nat,
    ensures
        match r {
            Ok(pair) => {
                &&& is_pow2(degree as nat)
                &&& is_pow2(blowup_factor as nat)
                &&& remainder_max_degree as nat <= degree as nat / blowup_factor as nat
                &&& pair.1@ == threshold_schedule(
                    degree as nat / blowup_factor as nat,
                    folding_factor,
                    remainder_max_degree as nat,
                )
                &&& replayable(degree as nat, pair.1@)
                &&& pair.0 as nat == proof_size(
                    degree as nat,
                    blowup_factor as nat,
                    num_queries as nat,
                    pair.1@,
                )
            },
            Err(e) => e == FriError::InvalidParameter && !(is_pow2(degree as nat) && is_pow2(
                blowup_factor as nat,
            ) && remainder_max_degree as nat <= degree as nat / blowup_factor as nat),
        },
{
    if !is_power_of_two(degree) || !is_power_of_two(blowup_factor) {
        return Err(FriError::InvalidParameter);
    }
    let poly_degree = degree / blowup_factor;
    if remainder_max_degree > poly_degree {
        return Err(FriError::InvalidParameter);
    }
    let ghost fb: nat = folding_factor as nat;
    let ghost t: nat = remainder_max_degree as nat;
    let ghost working: nat = degree as nat / blowup_factor as nat;
    let num_rounds_total = num_rounds(poly_degree, folding_factor, remainder_max_degree);
    let ghost divisions: nat = (num_rounds_total - 1) as nat;
    let mut folding_schedule: Vec<usize> = Vec::new();
    folding_schedule.push(0);
    proof {
        assert(folding_schedule@ =~= fixed_rounds(folding_factor, 0));
    }
    let mut i: usize = 1;
    while i < num_rounds_total
        invariant
            1 <= i <= num_rounds_total,
            folding_schedule@ == fixed_rounds(folding_factor, (i - 1) as nat),
        decreases num_rounds_total - i,
    {
        folding_schedule.push(folding_factor);
        proof {
            assert(folding_schedule@ =~= fixed_rounds(folding_factor, i as nat));
        }
        i = i + 1;
    }
    proof {
        assert(folding_schedule@ == threshold_schedule(working, folding_factor, t));
        assert forall|k: nat| k < divisions implies #[trigger] pow2(fb * k) <= working by {
            assert(working / pow2(fb * k) > t);
            lemma_div_pow2_at_least_one(working, fb * k);
        }
        lemma_fixed_rounds_replayable(degree as nat, blowup_factor as nat, folding_factor, divisions);
    }
    let size = estimate_elements(degree, blowup_factor, num_queries, &folding_schedule);
    Ok((size, folding_schedule))
}

/// The fixed-factor scheduler with the exact-remainder policy: take full
/// fixed-factor rounds while the working degree would stay at or above the
/// power-of-two target `remainder_degree`, append one smaller adjustment
/// round when the leftover exponent exceeds 1, and score the schedule with
/// the cost model. Returns `InvalidParameter` exactly when `degree`,
/// `blowup_factor` or `remainder_degree` is not a power of two, or the
/// target exceeds the working degree.
pub fn exact_remainder_schedule(
    degree: usize,
    blowup_factor: usize,
    num_queries: usize,
    remainder_degree: usize,
    folding_factor: usize,
) -> (r: Result<(usize, Vec<usize>), FriError>)
    requires
        1 <= folding_factor,
        pow2(folding_factor as nat) <= usize::MAX as nat,
        (is_pow2(degree as nat) && is_pow2(blowup_factor as nat) && is_pow2(
            remainder_degree as nat,
        ) && remainder_degree as nat <= degree as nat / blowup_factor as nat) ==> proof_size(
            degree as nat,
            blowup_factor as nat,
            num_queries as nat,
            exact_schedule(
                degree as nat / blowup_factor as nat,
                folding_factor,
                remainder_degree as nat,
            ),
        ) <= usize::MAX as nat,
    ensures
        match r {
            Ok(pair) => {
                &&& is_pow2(degree as nat)
                &&& is_pow2(blowup_factor as nat)
                &&& is_pow2(remainder_degree as nat)
                &&& remainder_degree as nat <= degree as nat / blowup_factor as nat
                &&& pair.1@ == exact_schedule(
                    degree as nat / blowup_factor as nat,
                    folding_factor,
                    remainder_degree as nat,
                )
                &&& replayable(degree as nat, pair.1@)
                &&& pair.0 as nat == proof_size(
                    degree as nat,
                    blowup_factor as nat,
                    num_queries as nat,
                    pair.1@,
                )
            },
            Err(e) => e == FriError::InvalidParameter && !(is_pow2(degree as nat) && is_pow2(
                blowup_factor as nat,
            ) && is_pow2(remainder_degree as nat) && remainder_degree as nat <= degree as nat
                / blowup_factor as nat),
        },
{
    if !is_power_of_two(degree) || !is_power_of_two(blowup_factor) || !is_power_of_two(
        remainder_degree,
    ) {
        return Err(FriError::InvalidParameter);
    }
    let poly_degree = degree / blowup_factor;
    if remainder_degree > poly_degree {
        return Err(FriError::InvalidParameter);
    }
    let ghost fb: nat = folding_factor as nat;
    let ghost t: nat = remainder_degree as nat;
    let ghost working: nat = degree as nat / blowup_factor as nat;
    let factor = pow2_exec(folding_factor);
    proof {
        lemma2_to64();
        lemma_div_basics(poly_degree as int);
        lemma_pow2_unfold(fb);
        lemma_pow2_pos((fb - 1) as nat);
        assert(fb * 0nat == 0nat) by (nonlinear_arith);
        assert(1 <= t);
        assert(working == poly_degree as nat);
    }
    let mut divisions: usize = 0;
    let mut current: usize = poly_degree;
    while current / factor >= remainder_degree
        invariant
            fb == folding_factor as nat,
            t == remainder_degree as nat,
            1 <= fb,
            1 <= t,
            factor as nat == pow2(fb),
            factor >= 2,
            working <= usize::MAX as nat,
            remainder_degree <= current,
            current as nat == working / pow2(fb * (divisions as nat)),
            exact_divisions(working, fb, t) == divisions as nat + exact_divisions(
                current as nat,
                fb,
                t,
            ),
            forall|j: nat| j <= divisions as nat ==> #[trigger] pow2(fb * j) <= working,
        decreases current,
    {
        proof {
            assert(current as nat / pow2(fb) >= t);
            assert(exact_divisions(current as nat, fb, t) == 1 + exact_divisions(
                current as nat / pow2(fb),
                fb,
                t,
            ));
            lemma_div_pow2_adds(working, fb * (divisions as nat), fb);
            let m: nat = divisions as nat;
            assert(fb * m + fb == fb * (m + 1)) by (nonlinear_arith);
            lemma_div_pow2_at_least_one(working, fb * (m + 1));
            lemma_pow2_fits_exponent(fb * (m + 1));
            lemma_mul_inequality(1, fb as int, (m + 1) as int);
            lemma_div_pow2_at_least_one(current as nat, fb);
            lemma_div_decreases(current as int, factor as int);
        }
        current = current / factor;
        divisions = divisions + 1;
    }
    proof {
        assert(exact_divisions(current as nat, fb, t) == 0);
        assert(current as nat == exact_residual(working, fb, t));
    }
    proof {
        lemma_div_is_ordered(remainder_degree as int, current as int, remainder_degree as int);
        lemma_div_by_self(remainder_degree as int);
    }
    let adjustment = log2_floor(current / remainder_degree);
    proof {
        assert(adjustment as nat == exact_adjustment(working, fb, t));
    }
    let mut folding_schedule: Vec<usize> = Vec::new();
    folding_schedule.push(0);
    proof {
        assert(folding_schedule@ =~= fixed_rounds(folding_factor, 0));
    }
    let mut i: usize = 0;
    while i < divisions
        invariant
            i <= divisions,
            folding_schedule@ == fixed_rounds(folding_factor, i as nat),
        decreases divisions - i,
    {
        folding_schedule.push(folding_factor);
        proof {
            assert(folding_schedule@ =~= fixed_rounds(folding_factor, (i + 1) as nat));
        }
        i = i + 1;
    }
    proof {
        lemma_fixed_rounds_replayable(
            degree as nat,
            blowup_factor as nat,
            folding_factor,
            divisions as nat,
        );
    }
    if adjustment > 1 {
        folding_schedule.push(adjustment);
        proof {
            let base = fixed_rounds(folding_factor, divisions as nat);
            let s = folding_schedule@;
            let n = s.len() as int;
            assert forall|j: int| 0 <= j < n implies #[trigger] layer_degree(degree as nat, s, j)
                >= 1 by {
                lemma_bits_sum_agree(s, base, j);
                if j < n - 1 {
                    assert(layer_degree(degree as nat, base, j) >= 1);
                } else {
                    lemma_fixed_rounds_bits_sum(folding_factor, divisions as nat, j);
                    assert(pow2(fb * (divisions as nat)) <= working);
                    lemma_div_is_ordered_by_denominator(degree as int, 1, blowup_factor as int);
                    lemma_div_basics(degree as int);
                    lemma_div_pow2_at_least_one(degree as nat, bits_sum(s, j));
                }
            }
            assert forall|j: int| 0 <= j < n implies #[trigger] pow2(s[j] as nat)
                <= usize::MAX as nat by {
                if j < n - 1 {
                    assert(pow2(base[j] as nat) <= usize::MAX as nat);
                } else {
                    assert(s[j] == adjustment);
                    assert(pow2(adjustment as nat) <= (current / remainder_degree) as nat);
                }
            }
        }
    }
    proof {
        assert(folding_schedule@ == exact_schedule(working, folding_factor, t));
    }
    let size = estimate_elements(degree, blowup_factor, num_queries, &folding_schedule);
    Ok((size, folding_schedule))
}

} // verus!
