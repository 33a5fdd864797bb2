//! The exhaustive optimal search: enumerate, within a branching cap, every
//! folding schedule that extends a seed, score each candidate with the cost
//! model, and keep the schedule of minimal estimated size.
//!
//! The search is recursive: each call scores its seed, then tries every
//! legal next-round exponent from 1 up to the cap, extends the seed by it
//! and recurses. The cap is the floor logarithm of the remaining degree over
//! the blowup factor, bounded by [`MAX_FOLDING_EXPONENT`]; when it is 0 no
//! further folding is legal and the seed alone is returned.

use vstd::prelude::*;

verus! {

use vstd::arithmetic::div_mod::{
    lemma_div_basics,
    lemma_div_by_self,
    lemma_div_decreases,
    lemma_div_is_ordered,
};
use vstd::arithmetic::power2::{
    lemma2_to64,
    lemma_pow2_pos,
    lemma_pow2_strictly_increases,
    lemma_pow2_subtracts,
    lemma_pow2_unfold,
    pow2,
};
use crate::cost_model::{
    bits_sum,
    estimate_elements,
    layer_degree,
    lemma_bits_sum_agree,
    lemma_bits_sum_mono,
    proof_size,
    replayable,
    FriError,
};
use crate::math::{
    is_pow2,
    is_power_of_two,
    lemma_div_pow2_adds,
    lemma_div_pow2_at_least_one,
    lemma_is_pow2_exponent,
    lemma_log2_pow2,
    lemma_pow2_exceeds,
    log2,
    log2_floor,
    pow2_exec,
};

/// Largest folding exponent the search tries in any single round; deployed
/// FRI implementations never fold by more than 16 per round.
pub const MAX_FOLDING_EXPONENT: usize = 4;

/// Largest exponent the search may pick for the round that follows the
/// first `i` rounds of `s`: the floor logarithm of the remaining degree over
/// the blowup factor, capped at [`MAX_FOLDING_EXPONENT`].
pub open spec fn next_cap(degree: nat, blowup_factor: nat, s: Seq<usize>, i: int) -> nat {
    let full = log2(layer_degree(degree, s, i) / blowup_factor);
    if full <= MAX_FOLDING_EXPONENT as nat {
        full
    } else {
        MAX_FOLDING_EXPONENT as nat
    }
}

/// Whether the search started from `seed` can reach schedule `t`: `t`
/// extends `seed`, and every appended exponent lies between 1 and the cap
/// legal at its round.
pub open spec fn reachable(
    degree: nat,
    blowup_factor: nat,
    seed: Seq<usize>,
    t: Seq<usize>,
) -> bool {
    &&& seed.len() <= t.len()
    &&& t.take(seed.len() as int) == seed
    &&& forall|j: int|
        seed.len() <= j < t.len() ==> 1 <= #[trigger] t[j] && t[j] as nat <= next_cap(
            degree,
            blowup_factor,
            t,
            j,
        )
}

/// Every seed can reach itself: the seed is always a candidate.
pub proof fn lemma_reachable_self(degree: nat, blowup_factor: nat, seed: Seq<usize>)
    ensures
        reachable(degree, blowup_factor, seed, seed),
{
    assert(seed.take(seed.len() as int) =~= seed);
}

/// Schedules that agree on their first `i` entries see the same cap at `i`.
proof fn lemma_cap_agree(degree: nat, blowup_factor: nat, a: Seq<usize>, b: Seq<usize>, i: int)
    requires
        i <= a.len(),
        i <= b.len(),
        forall|j: int| 0 <= j < i ==> a[j] == b[j],
    ensures
        next_cap(degree, blowup_factor, a, i) == next_cap(degree, blowup_factor, b, i),
{
    lemma_bits_sum_agree(a, b, i);
}

/// A strict extension reachable from `seed` commits some legal exponent as
/// its first appended round and stays reachable from the extended seed.
proof fn lemma_reachable_unfold(degree: nat, blowup_factor: nat, seed: Seq<usize>, t: Seq<usize>)
    requires
        reachable(degree, blowup_factor, seed, t),
        t.len() > seed.len(),
    ensures
        1 <= t[seed.len() as int],
        t[seed.len() as int] as nat <= next_cap(degree, blowup_factor, seed, seed.len() as int),
        reachable(degree, blowup_factor, seed.push(t[seed.len() as int]), t),
{
    let n = seed.len() as int;
    let b = t[n];
    assert forall|j: int| 0 <= j < n implies t[j] == seed[j] by {
        assert(t.take(n)[j] == seed[j]);
    }
    lemma_cap_agree(degree, blowup_factor, t, seed, n);
    assert(1 <= t[n] && t[n] as nat <= next_cap(degree, blowup_factor, t, n));
    assert(t.take(n + 1) =~= seed.push(b));
}

/// Whatever is reachable after committing one legal exponent is reachable
/// from the seed itself.
proof fn lemma_reachable_fold(
    degree: nat,
    blowup_factor: nat,
    seed: Seq<usize>,
    b: usize,
    t: Seq<usize>,
)
    requires
        1 <= b,
        b as nat <= next_cap(degree, blowup_factor, seed, seed.len() as int),
        reachable(degree, blowup_factor, seed.push(b), t),
    ensures
        reachable(degree, blowup_factor, seed, t),
{
    let n = seed.len() as int;
    assert(t.take(n + 1) == seed.push(b));
    assert forall|j: int| 0 <= j < n implies t[j] == seed[j] by {
        assert(t.take(n + 1)[j] == seed.push(b)[j]);
    }
    assert(t.take(n) =~= seed);
    assert forall|j: int|
        n <= j < t.len() implies 1 <= #[trigger] t[j] && t[j] as nat <= next_cap(
        degree,
        blowup_factor,
        t,
        j,
    ) by {
        if j == n {
            assert(t.take(n + 1)[n] == seed.push(b)[n]);
            assert(t[n] == b);
            lemma_cap_agree(degree, blowup_factor, t, seed, n);
        } else {
            assert(1 <= t[j] && t[j] as nat <= next_cap(degree, blowup_factor, t, j));
        }
    }
}

/// An owned copy of a schedule.
fn clone_schedule(s: &Vec<usize>) -> (r: Vec<usize>)
    ensures
        r@ == s@,
{
    let r = s.clone();
    proof {
        assert(r@ =~= s@);
    }
    r
}

/// Recursive core of the exhaustive search: scores the seed, then tries
/// every legal next-round exponent and keeps the best result.
fn search(
    degree: usize,
    blowup_factor: usize,
    num_queries: usize,
    current_folding_seq: Vec<usize>,
) -> (r: (usize, Vec<usize>))
    requires
        is_pow2(degree as nat),
        is_pow2(blowup_factor as nat),
        replayable(degree as nat, current_folding_seq@),
        blowup_factor as nat <= layer_degree(
            degree as nat,
            current_folding_seq@,
            current_folding_seq@.len() as int,
        ),
        forall|t: Seq<usize>|
            #[trigger] reachable(degree as nat, blowup_factor as nat, current_folding_seq@, t)
                ==> proof_size(degree as nat, blowup_factor as nat, num_queries as nat, t)
                <= usize::MAX as nat,
    ensures
        reachable(degree as nat, blowup_factor as nat, current_folding_seq@, r.1@),
        replayable(degree as nat, r.1@),
        r.0 as nat == proof_size(degree as nat, blowup_factor as nat, num_queries as nat, r.1@),
        forall|t: Seq<usize>|
            #[trigger] reachable(degree as nat, blowup_factor as nat, current_folding_seq@, t)
                ==> r.0 as nat <= proof_size(degree as nat, blowup_factor as nat, num_queries as nat, t),
    decreases layer_degree(degree as nat, current_folding_seq@, current_folding_seq@.len() as int),
{
    let ghost d = degree as nat;
    let ghost bl = blowup_factor as nat;
    let ghost q = num_queries as nat;
    let ghost seed = current_folding_seq@;
    let ghost len = seed.len() as int;
    proof {
        lemma_reachable_self(d, bl, seed);
        lemma_is_pow2_exponent(bl);
        lemma_is_pow2_exponent(d);
    }
    let mut optimal_sequences = clone_schedule(&current_folding_seq);
    let mut optimal_proof = estimate_elements(degree, blowup_factor, num_queries, &optimal_sequences);

    // Replay the seed's exponent sum to recover the current layer degree.
    proof {
        lemma_div_pow2_at_least_one(d, bits_sum(seed, len));
        lemma2_to64();
        lemma_div_basics(degree as int);
    }
    let mut sum: usize = 0;
    let mut i: usize = 0;
    while i < current_folding_seq.len()
        invariant
            i <= current_folding_seq.len(),
            seed == current_folding_seq@,
            len == seed.len() as int,
            sum as nat == bits_sum(seed, i as int),
            pow2(bits_sum(seed, len)) <= d,
            d == degree as nat,
            d <= usize::MAX as nat,
        decreases current_folding_seq.len() - i,
    {
        proof {
            lemma_bits_sum_mono(seed, i + 1, len);
            lemma_pow2_exceeds(bits_sum(seed, len));
        }
        sum = sum + current_folding_seq[i];
        i = i + 1;
    }
    proof {
        lemma_pow2_pos(sum as nat);
    }
    let current_layer_degree = degree / pow2_exec(sum);
    proof {
        lemma_div_is_ordered(blowup_factor as int, current_layer_degree as int, blowup_factor as int);
        lemma_div_by_self(blowup_factor as int);
    }
    let ratio = current_layer_degree / blowup_factor;
    let full = log2_floor(ratio);
    let max_folding_factor = if full < MAX_FOLDING_EXPONENT {
        full
    } else {
        MAX_FOLDING_EXPONENT
    };
    proof {
        assert(max_folding_factor as nat == next_cap(d, bl, seed, len));
        assert forall|t: Seq<usize>|
            #[trigger] reachable(d, bl, seed, t) && (t.len() == seed.len() || t[len] < 1) implies
            optimal_proof as nat <= proof_size(d, bl, q, t) by {
            if t.len() == seed.len() {
                assert(t.take(len) =~= t);
            } else {
                assert(1 <= t[len]);
            }
        }
    }
    let ghost layer_here = layer_degree(d, seed, len);
    let mut factor: usize = 1;
    while factor <= max_folding_factor
        invariant
            1 <= factor <= max_folding_factor + 1,
            d == degree as nat,
            bl == blowup_factor as nat,
            q == num_queries as nat,
            seed == current_folding_seq@,
            len == seed.len() as int,
            layer_here == layer_degree(d, seed, len),
            is_pow2(d),
            is_pow2(bl),
            replayable(d, seed),
            bl <= layer_degree(d, seed, len),
            current_layer_degree as nat == layer_degree(d, seed, len),
            ratio as nat == layer_degree(d, seed, len) / bl,
            pow2(full as nat) <= ratio as nat,
            full as nat == log2(ratio as nat),
            factor <= full + 1,
            max_folding_factor as nat == next_cap(d, bl, seed, len),
            forall|t: Seq<usize>|
                #[trigger] reachable(d, bl, seed, t) ==> proof_size(d, bl, q, t)
                    <= usize::MAX as nat,
            reachable(d, bl, seed, optimal_sequences@),
            replayable(d, optimal_sequences@),
            optimal_proof as nat == proof_size(d, bl, q, optimal_sequences@),
            forall|t: Seq<usize>|
                #[trigger] reachable(d, bl, seed, t) && (t.len() == seed.len() || t[len] < factor)
                    ==> optimal_proof as nat <= proof_size(d, bl, q, t),
        decreases max_folding_factor + 1 - factor,
    {
        let mut sequences_this_layer = clone_schedule(&current_folding_seq);
        sequences_this_layer.push(factor);
        let ghost ext = seed.push(factor);
        proof {
            assert(sequences_this_layer@ == ext);
            assert(bits_sum(ext, len + 1) == bits_sum(ext, len) + factor as nat);
            lemma_bits_sum_agree(ext, seed, len);
            lemma_div_pow2_adds(d, bits_sum(seed, len), factor as nat);
            // the extended layer is still a multiple of the blowup factor
            lemma_is_pow2_exponent(d);
            lemma_is_pow2_exponent(bl);
            let dl = log2(d);
            let bll = log2(bl);
            let bits = bits_sum(seed, len);
            lemma_div_pow2_at_least_one(d, bits);
            assert(bits <= dl) by {
                if bits > dl {
                    lemma_pow2_strictly_increases(dl, bits);
                }
            }
            lemma_pow2_subtracts(bits, dl);
            assert(layer_here == pow2((dl - bits) as nat));
            assert(bll <= dl - bits) by {
                if bll > dl - bits {
                    lemma_pow2_strictly_increases((dl - bits) as nat, bll);
                }
            }
            lemma_pow2_subtracts(bll, (dl - bits) as nat);
            assert(layer_here / bl == pow2((dl - bits - bll) as nat));
            lemma_log2_pow2((dl - bits - bll) as nat);
            assert(factor as nat <= dl - bits - bll);
            lemma_pow2_subtracts(factor as nat, (dl - bits) as nat);
            assert(layer_degree(d, ext, len + 1) == pow2((dl - bits - factor) as nat));
            assert(bll <= dl - bits - factor ==> pow2(bll) <= pow2((dl - bits - factor) as nat))
                by {
                if bll < dl - bits - factor {
                    lemma_pow2_strictly_increases(bll, (dl - bits - factor) as nat);
                }
            }
            assert(bl <= layer_degree(d, ext, len + 1));
            // the extension is replayable
            assert forall|ii: int| 0 <= ii < ext.len() implies #[trigger] layer_degree(d, ext, ii)
                >= 1 by {
                lemma_bits_sum_agree(ext, seed, ii);
                if ii < len {
                    assert(layer_degree(d, seed, ii) >= 1);
                } else {
                    lemma_pow2_pos(bits_sum(ext, ii));
                    lemma_div_pow2_at_least_one(d, bits_sum(ext, ii));
                    assert(layer_degree(d, seed, len) >= 1);
                }
            }
            assert forall|ii: int| 0 <= ii < ext.len() implies #[trigger] pow2(ext[ii] as nat)
                <= usize::MAX as nat by {
                if ii < len {
                    assert(pow2(seed[ii] as nat) <= usize::MAX as nat);
                } else {
                    assert(ext[ii] == factor);
                    if (factor as nat) < full as nat {
                        lemma_pow2_strictly_increases(factor as nat, full as nat);
                    }
                    assert(pow2(factor as nat) <= ratio as nat);
                }
            }
            // whatever the extension reaches, the seed reaches
            assert forall|t: Seq<usize>| #[trigger] reachable(d, bl, ext, t) implies proof_size(
                d,
                bl,
                q,
                t,
            ) <= usize::MAX as nat by {
                lemma_reachable_fold(d, bl, seed, factor, t);
            }
            // termination: the extended layer is strictly smaller
            lemma_pow2_unfold(factor as nat);
            lemma_pow2_pos((factor - 1) as nat);
            lemma_div_decreases(layer_here as int, pow2(factor as nat) as int);
            assert(layer_degree(d, ext, len + 1) < layer_here);
        }
        let (size, sequences_layer) = search(degree, blowup_factor, num_queries, sequences_this_layer);
        if size < optimal_proof {
            optimal_proof = size;
            optimal_sequences = sequences_layer;
        }
        proof {
            lemma_reachable_fold(d, bl, seed, factor, sequences_layer@);
            assert forall|t: Seq<usize>|
                #[trigger] reachable(d, bl, seed, t) && (t.len() == seed.len() || t[len] < factor
                    + 1) implies optimal_proof as nat <= proof_size(d, bl, q, t) by {
                if t.len() == seed.len() || t[len] < factor {
                } else {
                    lemma_reachable_unfold(d, bl, seed, t);
                    assert(t[len] == factor);
                    assert(reachable(d, bl, ext, t));
                    assert(size as nat <= proof_size(d, bl, q, t));
                }
            }
        }
        factor = factor + 1;
    }
    proof {
        assert forall|t: Seq<usize>| #[trigger] reachable(d, bl, seed, t) implies optimal_proof as nat
            <= proof_size(d, bl, q, t) by {
            if t.len() > seed.len() {
                lemma_reachable_unfold(d, bl, seed, t);
                assert(t[len] as nat <= next_cap(d, bl, seed, len));
            }
        }
    }
    (optimal_proof, optimal_sequences)
}

/// Finds, by exhaustive enumeration within the branching cap, the folding
/// schedule of minimal estimated size among all schedules reachable from
/// the seed, the seed itself included. Returns `InvalidParameter` exactly
/// when `degree` or `blowup_factor` is not a power of two.
pub fn optimal_folding_strategy(
    degree: usize,
    blowup_factor: usize,
    num_queries: usize,
    current_folding_seq: Vec<usize>,
) -> (r: Result<(usize, Vec<usize>), FriError>)
    requires
        is_pow2(degree as nat) && is_pow2(blowup_factor as nat) ==> ({
            &&& replayable(degree as nat, current_folding_seq@)
            &&& blowup_factor as nat <= layer_degree(
                degree as nat,
                current_folding_seq@,
                current_folding_seq@.len() as int,
            )
            &&& forall|t: Seq<usize>|
                #[trigger] reachable(degree as nat, blowup_factor as nat, current_folding_seq@, t)
                    ==> proof_size(degree as nat, blowup_factor as nat, num_queries as nat, t)
                    <= usize::MAX as nat
        }),
    ensures
        match r {
            Ok(pair) => {
                &&& is_pow2(degree as nat)
                &&& is_pow2(blowup_factor as nat)
                &&& reachable(degree as nat, blowup_factor as nat, current_folding_seq@, pair.1@)
                &&& replayable(degree as nat, pair.1@)
                &&& pair.0 as nat == proof_size(
                    degree as nat,
                    blowup_factor as nat,
                    num_queries as nat,
                    pair.1@,
                )
                &&& forall|t: Seq<usize>|
                    #[trigger] reachable(degree as nat, blowup_factor as nat, current_folding_seq@, t)
                        ==> pair.0 as nat <= proof_size(
                        degree as nat,
                        blowup_factor as nat,
                        num_queries as nat,
                        t,
                    )
            },
            Err(e) => e == FriError::InvalidParameter && !(is_pow2(degree as nat) && is_pow2(
                blowup_factor as nat,
            )),
        },
{
    if !is_power_of_two(degree) || !is_power_of_two(blowup_factor) {
        return Err(FriError::InvalidParameter);
    }
    Ok(search(degree, blowup_factor, num_queries, current_folding_seq))
}

/// When the degree equals the blowup factor the cap is 0, so no folding
/// round is legal: the only schedule reachable from the seed `[0]` is the
/// seed itself.
pub proof fn lemma_search_degree_equals_blowup(degree: nat, t: Seq<usize>)
    requires
        is_pow2(degree),
        reachable(degree, degree, seq![0usize], t),
    ensures
        t == seq![0usize],
{
    let seed = seq![0usize];
    lemma_is_pow2_exponent(degree);
    if t.len() > 1 {
        assert(t.take(1)[0] == seed[0]);
        assert(t[0] == 0);
        assert(bits_sum(t, 1) == bits_sum(t, 0) + t[0] as nat);
        lemma2_to64();
        lemma_div_basics(degree as int);
        assert(layer_degree(degree, t, 1) == degree);
        lemma_log2_pow2(0);
        assert(next_cap(degree, degree, t, 1) == 0);
        assert(1 <= t[1] && t[1] as nat <= next_cap(degree, degree, t, 1));
        assert(false);
    }
    assert(t =~= seed);
}

} // verus!
