//! The cost model: a closed-form estimate, in field elements, of the size of
//! a FRI proof that uses a given folding schedule.
//!
//! A schedule is walked in round order while the degree of the committed
//! layer is divided by each round's folding factor. Every round pays for one
//! Merkle authentication path per query (no path compression is assumed) and
//! for the opened sibling leaves per query; the remainder polynomial left
//! after the last round is paid for once, in coefficient form.

use vstd::prelude::*;

verus! {

use vstd::arithmetic::div_mod::lemma_div_basics;
use vstd::arithmetic::mul::lemma_mul_inequality;
use vstd::arithmetic::power2::{lemma2_to64, lemma_pow2_pos, pow2};
use crate::math::{
    is_pow2,
    is_power_of_two,
    lemma_div_pow2_adds,
    log2,
    log2_floor,
    pow2_exec,
};

/// Field elements in one Merkle node digest.
pub const ELEMENTS_PER_HASH_OUTPUT: usize = 4;

/// Field elements in one opened leaf value.
pub const FIELD_ELEMENTS_PER_LEAF: usize = 2;

/// The single error kind: a parameter broke a power-of-two or relative
/// magnitude precondition.
#[derive(Clone, Copy, Debug, PartialEq, Eq, Structural)]
pub enum FriError {
    InvalidParameter,
}

/// Sum of the first `n` folding exponents of schedule `s`.
pub open spec fn bits_sum(s: Seq<usize>, n: int) -> nat
    decreases n,
{
    if n <= 0 {
        0
    } else {
        bits_sum(s, n - 1) + s[n - 1] as nat
    }
}

/// Degree of the layer committed before round `n`: the original degree with
/// the first `n` folding factors divided out.
pub open spec fn layer_degree(degree: nat, s: Seq<usize>, n: int) -> nat {
    degree / pow2(bits_sum(s, n))
}

/// Cost, in field elements, of the first `n` rounds of schedule `s`: per
/// round, one Merkle authentication path per query plus the opened sibling
/// leaves per query.
pub open spec fn rounds_cost(degree: nat, num_queries: nat, s: Seq<usize>, n: int) -> nat
    decreases n,
{
    if n <= 0 {
        0
    } else {
        rounds_cost(degree, num_queries, s, n - 1)
            + num_queries * log2(layer_degree(degree, s, n - 1)) * (
        ELEMENTS_PER_HASH_OUTPUT as nat)
            + num_queries * pow2(s[n - 1] as nat) * (FIELD_ELEMENTS_PER_LEAF as nat)
    }
}

/// Estimated total proof size, in field elements, of schedule `s`: all round
/// costs plus the remainder polynomial sent in coefficient form.
pub open spec fn proof_size(degree: nat, blowup_factor: nat, num_queries: nat, s: Seq<usize>) -> nat {
    rounds_cost(degree, num_queries, s, s.len() as int) + (layer_degree(degree, s, s.len() as int)
        / blowup_factor) * (FIELD_ELEMENTS_PER_LEAF as nat)
}

/// The cost model can replay `s` against `degree`: every round sees a layer
/// of degree at least 1, and every round's folding factor fits in `usize`.
pub open spec fn replayable(degree: nat, s: Seq<usize>) -> bool {
    &&& forall|i: int| 0 <= i < s.len() ==> #[trigger] layer_degree(degree, s, i) >= 1
    &&& forall|i: int| 0 <= i < s.len() ==> #[trigger] pow2(s[i] as nat) <= usize::MAX as nat
}

/// The first `n` entries alone determine `bits_sum` at `n`.
pub proof fn lemma_bits_sum_agree(a: Seq<usize>, b: Seq<usize>, n: int)
    requires
        n <= a.len(),
        n <= b.len(),
        forall|j: int| 0 <= j < n ==> a[j] == b[j],
    ensures
        bits_sum(a, n) == bits_sum(b, n),
    decreases n,
{
    if n > 0 {
        lemma_bits_sum_agree(a, b, n - 1);
    }
}

/// `bits_sum` is monotone in the prefix length.
pub proof fn lemma_bits_sum_mono(s: Seq<usize>, m: int, n: int)
    requires
        0 <= m <= n,
    ensures
        bits_sum(s, m) <= bits_sum(s, n),
    decreases n,
{
    if m < n {
        lemma_bits_sum_mono(s, m, n - 1);
    }
}

/// Counting more rounds never lowers the accumulated cost.
pub proof fn lemma_rounds_cost_mono(degree: nat, num_queries: nat, s: Seq<usize>, m: int, n: int)
    requires
        0 <= m <= n,
    ensures
        rounds_cost(degree, num_queries, s, m) <= rounds_cost(degree, num_queries, s, n),
    decreases n,
{
    if m < n {
        lemma_rounds_cost_mono(degree, num_queries, s, m, n - 1);
    }
}

proof fn lemma_rounds_cost_monotone_in_queries(
    degree: nat,
    q1: nat,
    q2: nat,
    s: Seq<usize>,
    n: int,
)
    requires
        q1 <= q2,
    ensures
        rounds_cost(degree, q1, s, n) <= rounds_cost(degree, q2, s, n),
    decreases n,
{
    if n > 0 {
        lemma_rounds_cost_monotone_in_queries(degree, q1, q2, s, n - 1);
        lemma_mul_inequality(q1 as int, q2 as int, log2(layer_degree(degree, s, n - 1)) as int);
        lemma_mul_inequality(q1 as int, q2 as int, pow2(s[n - 1] as nat) as int);
    }
}

/// The estimated proof size is monotone non-decreasing in the number of
/// queries: every query-dependent cost term scales linearly with it, and the
/// remainder term does not depend on it.
pub proof fn lemma_proof_size_monotone_in_queries(
    degree: nat,
    blowup_factor: nat,
    q1: nat,
    q2: nat,
    s: Seq<usize>,
)
    requires
        q1 <= q2,
    ensures
        proof_size(degree, blowup_factor, q1, s) <= proof_size(degree, blowup_factor, q2, s),
{
    lemma_rounds_cost_monotone_in_queries(degree, q1, q2, s, s.len() as int);
}

/// Replays `s` against `degree` and accumulates the exact value of
/// [`proof_size`]; validating the parameters is the caller's business.
pub(crate) fn estimate_elements(
    degree: usize,
    blowup_factor: usize,
    num_queries: usize,
    folding_seq: &Vec<usize>,
) -> (r: usize)
    requires
        blowup_factor >= 1,
        replayable(degree as nat, folding_seq@),
        proof_size(degree as nat, blowup_factor as nat, num_queries as nat, folding_seq@)
            <= usize::MAX as nat,
    ensures
        r as nat == proof_size(degree as nat, blowup_factor as nat, num_queries as nat, folding_seq@),
{
    let ghost s = folding_seq@;
    let ghost q = num_queries as nat;
    let ghost total = proof_size(degree as nat, blowup_factor as nat, q, s);
    proof {
        lemma2_to64();
        lemma_div_basics(degree as int);
        assert(bits_sum(s, 0) == 0);
        assert(layer_degree(degree as nat, s, 0) == degree as nat);
    }
    let mut current_layer_degree: usize = degree;
    let mut num_elements: usize = 0;
    let mut i: usize = 0;
    while i < folding_seq.len()
        invariant
            i <= folding_seq.len(),
            s == folding_seq@,
            q == num_queries as nat,
            total == proof_size(degree as nat, blowup_factor as nat, q, s),
            total <= usize::MAX as nat,
            replayable(degree as nat, s),
            current_layer_degree as nat == layer_degree(degree as nat, s, i as int),
            num_elements as nat == rounds_cost(degree as nat, q, s, i as int),
        decreases folding_seq.len() - i,
    {
        proof {
            assert(layer_degree(degree as nat, s, i as int) >= 1);
            assert(pow2(s[i as int] as nat) <= usize::MAX as nat);
        }
        let b = folding_seq[i];
        let lg = log2_floor(current_layer_degree);
        let factor = pow2_exec(b);
        proof {
            lemma_pow2_pos(b as nat);
            let t1 = q * (lg as nat) * (ELEMENTS_PER_HASH_OUTPUT as nat);
            let t2 = q * pow2(b as nat) * (FIELD_ELEMENTS_PER_LEAF as nat);
            assert(rounds_cost(degree as nat, q, s, i + 1) == rounds_cost(degree as nat, q, s, i as int)
                + t1 + t2);
            lemma_rounds_cost_mono(degree as nat, q, s, i + 1, s.len() as int);
            assert(rounds_cost(degree as nat, q, s, s.len() as int) <= total);
            lemma_div_pow2_adds(degree as nat, bits_sum(s, i as int), b as nat);
        }
        num_elements = num_elements + num_queries * lg * ELEMENTS_PER_HASH_OUTPUT;
        num_elements = num_elements + num_queries * factor * FIELD_ELEMENTS_PER_LEAF;
        current_layer_degree = current_layer_degree / factor;
        i = i + 1;
    }
    let remainder_poly_degree = current_layer_degree / blowup_factor;
    num_elements = num_elements + remainder_poly_degree * FIELD_ELEMENTS_PER_LEAF;
    num_elements
}

/// Estimates the proof size, in field elements, of the given folding
/// schedule. Returns `InvalidParameter` exactly when `degree` or
/// `blowup_factor` is not a power of two; for valid parameters the result is
/// exactly [`proof_size`] of the schedule.
pub fn estimate_proof_size(
    degree: usize,
    blowup_factor: usize,
    num_queries: usize,
    folding_seq: &Vec<usize>,
) -> (r: Result<usize, FriError>)
    requires
        is_pow2(degree as nat) && is_pow2(blowup_factor as nat) ==> replayable(
            degree as nat,
            folding_seq@,
        ) && proof_size(degree as nat, blowup_factor as nat, num_queries as nat, folding_seq@)
            <= usize::MAX as nat,
    ensures
        match r {
            Ok(size) => is_pow2(degree as nat) && is_pow2(blowup_factor as nat) && size as nat
                == proof_size(degree as nat, blowup_factor as nat, num_queries as nat, folding_seq@),
            Err(e) => e == FriError::InvalidParameter && !(is_pow2(degree as nat) && is_pow2(
                blowup_factor as nat,
            )),
        },
{
    if !is_power_of_two(degree) || !is_power_of_two(blowup_factor) {
        return Err(FriError::InvalidParameter);
    }
    Ok(estimate_elements(degree, blowup_factor, num_queries, folding_seq))
}

} // verus!
