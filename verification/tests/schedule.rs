use fri_schedule::cost_model::{estimate_proof_size, FriError};
use fri_schedule::optimized_schedule::optimal_folding_strategy;
use fri_schedule::simple_schedule::{exact_remainder_schedule, num_rounds, simple_schedule};

/// Replays a schedule's divisions against a starting degree, as the cost
/// model does, and returns the final degree.
fn replay(mut degree: usize, schedule: &[usize]) -> usize {
    for bits in schedule {
        degree /= 1usize << bits;
    }
    degree
}

#[test]
fn estimate_exact_value() {
    // degree 8, blowup 2, 1 query, schedule [0, 1]:
    // round 0: 1 path of ilog2(8) = 3 nodes of 4 elements = 12, plus 1 leaf of 2 = 14;
    // round 1: 12 again, plus 2 leaves of 2 = 4, so 16; remainder 8/2/2 = 2 costs 4.
    assert_eq!(estimate_proof_size(8, 2, 1, &vec![0, 1]), Ok(34));
}

#[test]
fn estimate_unfolded_single_round() {
    // degree 4, blowup 1, 1 query, schedule [0]: path 2 * 4 + leaf 2 = 10,
    // remainder 4 * 2 = 8.
    assert_eq!(estimate_proof_size(4, 1, 1, &vec![0]), Ok(18));
}

#[test]
fn estimate_empty_schedule_pays_only_remainder() {
    // No rounds: only the remainder polynomial 8/2 = 4 at 2 elements each.
    assert_eq!(estimate_proof_size(8, 2, 3, &vec![]), Ok(8));
}

#[test]
fn estimate_degree_one() {
    // degree 1, blowup 1, 5 queries, schedule [0]: the path is empty
    // (ilog2(1) = 0), the opened leaf costs 5 * 1 * 2, the remainder 1 * 2.
    assert_eq!(estimate_proof_size(1, 1, 5, &vec![0]), Ok(12));
}

#[test]
fn estimate_rejects_non_power_of_two_degree() {
    assert_eq!(estimate_proof_size(7, 2, 1, &vec![0]), Err(FriError::InvalidParameter));
    assert_eq!(estimate_proof_size(0, 2, 1, &vec![0]), Err(FriError::InvalidParameter));
}

#[test]
fn estimate_rejects_non_power_of_two_blowup() {
    assert_eq!(estimate_proof_size(16, 3, 1, &vec![0]), Err(FriError::InvalidParameter));
    assert_eq!(estimate_proof_size(16, 0, 1, &vec![0]), Err(FriError::InvalidParameter));
}

#[test]
fn estimate_monotone_in_queries() {
    let schedule = vec![0, 2, 2];
    let lo = estimate_proof_size(1024, 4, 2, &schedule).unwrap();
    let hi = estimate_proof_size(1024, 4, 5, &schedule).unwrap();
    assert!(lo <= hi);
    let one = estimate_proof_size(1024, 4, 1, &schedule).unwrap();
    assert!(one <= lo);
}

#[test]
fn optimal_search_large_degree() {
    // degree 2^25, blowup 8, 1 query, seed [0].
    let degree = 1usize << 25;
    let (size, schedule) = optimal_folding_strategy(degree, 8, 1, vec![0]).unwrap();
    assert_eq!(schedule[0], 0);
    // Total folding cannot exceed log2(2^25 / 8) = 22 bits.
    let total_bits: usize = schedule.iter().skip(1).sum();
    assert!(total_bits <= 22);
    // Folding must beat the unfolded schedule strictly.
    let unfolded = estimate_proof_size(degree, 8, 1, &vec![0]).unwrap();
    assert!(size < unfolded);
    // Round trip: the returned size is the cost model's value for the
    // returned schedule.
    assert_eq!(estimate_proof_size(degree, 8, 1, &schedule), Ok(size));
}

#[test]
fn optimal_search_minimal_among_candidates() {
    // Check minimality against a few hand-built reachable schedules.
    let (size, _schedule) = optimal_folding_strategy(1024, 2, 3, vec![0]).unwrap();
    for candidate in [
        vec![0],
        vec![0, 1],
        vec![0, 2, 2],
        vec![0, 4, 4, 1],
        vec![0, 3, 3, 3],
        vec![0, 1, 1, 1, 1, 1, 1, 1, 1, 1],
    ] {
        let estimated = estimate_proof_size(1024, 2, 3, &candidate).unwrap();
        assert!(size <= estimated);
    }
}

#[test]
fn optimal_search_rejects_invalid_parameters() {
    assert_eq!(
        optimal_folding_strategy(100, 2, 1, vec![0]),
        Err(FriError::InvalidParameter)
    );
    assert_eq!(
        optimal_folding_strategy(128, 6, 1, vec![0]),
        Err(FriError::InvalidParameter)
    );
}

#[test]
fn optimal_search_degree_equals_blowup() {
    // Working degree 1: no folding is legal, the seed is returned unchanged.
    let (size, schedule) = optimal_folding_strategy(8, 8, 3, vec![0]).unwrap();
    assert_eq!(schedule, vec![0]);
    assert_eq!(estimate_proof_size(8, 8, 3, &vec![0]), Ok(size));
}

#[test]
fn threshold_schedule_concrete() {
    // degree 2^10, blowup 2, factor bits 2, threshold 4: working degree 512,
    // divisions 512 -> 128 -> 32 -> 8 -> 2, so the schedule has 5 entries.
    let (size, schedule) = simple_schedule(1024, 2, 27, 4, 2).unwrap();
    assert_eq!(schedule, vec![0, 2, 2, 2, 2]);
    assert_eq!(estimate_proof_size(1024, 2, 27, &schedule), Ok(size));
}

#[test]
fn threshold_num_rounds_concrete() {
    assert_eq!(num_rounds(512, 2, 4), 5);
    // Already at or below the threshold: only the no-fold round.
    assert_eq!(num_rounds(4, 2, 4), 1);
    assert_eq!(num_rounds(1, 3, 1), 1);
    // Threshold 0 folds all the way to 0.
    assert_eq!(num_rounds(16, 1, 0), 6);
}

#[test]
fn threshold_schedule_degree_equals_blowup() {
    let (size, schedule) = simple_schedule(8, 8, 1, 1, 2).unwrap();
    assert_eq!(schedule, vec![0]);
    assert_eq!(estimate_proof_size(8, 8, 1, &schedule), Ok(size));
}

#[test]
fn threshold_schedule_zero_threshold() {
    // Working degree 16, factor 2: 16 -> 8 -> 4 -> 2 -> 1 -> 0.
    let (size, schedule) = simple_schedule(16, 1, 1, 0, 1).unwrap();
    assert_eq!(schedule, vec![0, 1, 1, 1, 1, 1]);
    assert_eq!(estimate_proof_size(16, 1, 1, &schedule), Ok(size));
}

#[test]
fn threshold_schedule_rejects_invalid_parameters() {
    // Remainder bound above the working degree.
    assert_eq!(
        simple_schedule(16, 2, 1, 100, 1),
        Err(FriError::InvalidParameter)
    );
    assert_eq!(
        simple_schedule(12, 2, 1, 2, 1),
        Err(FriError::InvalidParameter)
    );
    assert_eq!(
        simple_schedule(16, 5, 1, 2, 1),
        Err(FriError::InvalidParameter)
    );
}

#[test]
fn exact_schedule_lands_on_target_without_adjustment() {
    // Working degree 512, factor bits 2, target 8: 512 -> 128 -> 32 -> 8.
    let (size, schedule) = exact_remainder_schedule(1024, 2, 1, 8, 2).unwrap();
    assert_eq!(schedule, vec![0, 2, 2, 2]);
    assert_eq!(replay(512, &schedule), 8);
    assert_eq!(estimate_proof_size(1024, 2, 1, &schedule), Ok(size));
}

#[test]
fn exact_schedule_appends_adjustment_round() {
    // Working degree 512, factor bits 3, target 2: two full rounds leave 8,
    // the leftover exponent is 2, so a final adjustment round lands on 2.
    let (size, schedule) = exact_remainder_schedule(1024, 2, 1, 2, 3).unwrap();
    assert_eq!(schedule, vec![0, 3, 3, 2]);
    assert_eq!(replay(512, &schedule), 2);
    assert_eq!(estimate_proof_size(1024, 2, 1, &schedule), Ok(size));
}

#[test]
fn exact_schedule_skips_adjustment_of_one() {
    // Working degree 512, factor bits 2, target 4: full rounds leave 8, the
    // leftover exponent is 1 and is not appended; the landing degree is one
    // factor of two above the target.
    let (size, schedule) = exact_remainder_schedule(1024, 2, 1, 4, 2).unwrap();
    assert_eq!(schedule, vec![0, 2, 2, 2]);
    assert_eq!(replay(512, &schedule), 8);
    assert_eq!(estimate_proof_size(1024, 2, 1, &schedule), Ok(size));
}

#[test]
fn exact_schedule_degree_equals_blowup() {
    let (size, schedule) = exact_remainder_schedule(8, 8, 1, 1, 2).unwrap();
    assert_eq!(schedule, vec![0]);
    assert_eq!(estimate_proof_size(8, 8, 1, &schedule), Ok(size));
}

#[test]
fn exact_schedule_rejects_invalid_parameters() {
    // Non-power-of-two target.
    assert_eq!(
        exact_remainder_schedule(1024, 2, 1, 3, 2),
        Err(FriError::InvalidParameter)
    );
    // Target above the working degree.
    assert_eq!(
        exact_remainder_schedule(1024, 2, 1, 1024, 2),
        Err(FriError::InvalidParameter)
    );
    assert_eq!(
        exact_remainder_schedule(1000, 2, 1, 4, 2),
        Err(FriError::InvalidParameter)
    );
}
