//! The chunked search in exact integer lanes: full chunks of candidates are
//! judged together, and what is left over goes through the scalar evaluator.

use vstd::prelude::*;
use crate::Solution;
use crate::lanes::{chunk_candidates, lane_candidate, lowest_true_lane, splat};
use crate::model::{
    extends_to_solution, is_search_result, lemma_b_is_quotient, lemma_candidate_within_bound,
    lemma_exhausted, lemma_solution_within_bound, max_a, no_solution_below, satisfies,
};
use crate::naive_solver::{evaluate_naive, max_candidate};

verus! {

/// What is left of `total` for the `b` term once `a` takes `coefficient * a`,
/// or nothing where `a` takes more than there is.
fn remaining(total: u64, coefficient: u64, a: u64) -> (left: Option<u64>)
    ensures
        match left {
            Some(r) => r == total - coefficient * a,
            None => coefficient * a > total,
        },
{
    match coefficient.checked_mul(a) {
        Some(taken) => if taken <= total {
            Some(total - taken)
        } else {
            None
        },
        None => None,
    }
}

/// The verdict of one lane: whether its candidate extends to a solution.
/// Divisibility is tested by dividing and multiplying back.
fn evaluate_lane(a_candidate: u64, x_a: u64, x_b: u64, x: u64, y_a: u64, y_b: u64, y: u64) -> (verdict:
    bool)
    requires
        x_b != 0,
        y_b != 0,
    ensures
        verdict == extends_to_solution(a_candidate as nat, x_a, x_b, x, y_a, y_b, y),
{
    proof {
        assert forall|b: nat| satisfies(a_candidate as nat, b, x_a, x_b, x, y_a, y_b, y) implies {
            &&& x_a * a_candidate <= x
            &&& y_a * a_candidate <= y
            &&& (x - x_a * a_candidate) % (x_b as int) == 0
            &&& (y - y_a * a_candidate) % (y_b as int) == 0
            &&& (x - x_a * a_candidate) / (x_b as int) == (y - y_a * a_candidate) / (y_b as int)
        } by {
            lemma_b_is_quotient(a_candidate as nat, b, x_a, x_b, x, y_a, y_b, y);
            assert(x_b * b >= 0 && y_b * b >= 0) by (nonlinear_arith);
        }
    }
    let (b_component_x, b_component_y) = match (
        remaining(x, x_a, a_candidate),
        remaining(y, y_a, a_candidate),
    ) {
        (Some(left_x), Some(left_y)) => (left_x, left_y),
        _ => { return false; },
    };
    let b_x = b_component_x / x_b;
    let b_y = b_component_y / y_b;
    proof {
        vstd::arithmetic::div_mod::lemma_fundamental_div_mod(b_component_x as int, x_b as int);
        vstd::arithmetic::div_mod::lemma_fundamental_div_mod(b_component_y as int, y_b as int);
        assert(b_x * x_b == x_b * b_x && b_y * y_b == y_b * b_y) by (nonlinear_arith);
    }
    let is_evenly_divisible_x = b_x * x_b == b_component_x;
    let is_evenly_divisible_y = b_y * y_b == b_component_y;
    let is_equal_x_y = b_x == b_y;
    let verdict = is_evenly_divisible_x && is_evenly_divisible_y && is_equal_x_y;
    proof {
        if verdict {
            assert(satisfies(a_candidate as nat, b_x as nat, x_a, x_b, x, y_a, y_b, y));
        }
    }
    verdict
}

/// Judges a chunk of candidates, each lane with its own coefficients: the
/// verdict of a lane is true exactly when its candidate extends to a
/// solution of its equations.
pub fn evaluate_chunk<const CHUNK_SIZE: usize>(
    a_candidates: [u64; CHUNK_SIZE],
    x_a: [u64; CHUNK_SIZE],
    x_b: [u64; CHUNK_SIZE],
    x: [u64; CHUNK_SIZE],
    y_a: [u64; CHUNK_SIZE],
    y_b: [u64; CHUNK_SIZE],
    y: [u64; CHUNK_SIZE],
) -> (verdicts: [bool; CHUNK_SIZE])
    requires
        forall|lane: int| 0 <= lane < CHUNK_SIZE ==> x_b[lane] != 0 && y_b[lane] != 0,
    ensures
        forall|lane: int|
            0 <= lane < CHUNK_SIZE ==> verdicts[lane] == extends_to_solution(
                a_candidates[lane] as nat,
                x_a[lane],
                x_b[lane],
                x[lane],
                y_a[lane],
                y_b[lane],
                y[lane],
            ),
{
    let mut verdicts = [false;CHUNK_SIZE];
    let mut lane_index: usize = 0;
    while lane_index < CHUNK_SIZE
        invariant
            lane_index <= CHUNK_SIZE,
            forall|lane: int| 0 <= lane < CHUNK_SIZE ==> x_b[lane] != 0 && y_b[lane] != 0,
            forall|lane: int|
                0 <= lane < lane_index ==> verdicts[lane] == extends_to_solution(
                    a_candidates[lane] as nat,
                    x_a[lane],
                    x_b[lane],
                    x[lane],
                    y_a[lane],
                    y_b[lane],
                    y[lane],
                ),
        decreases CHUNK_SIZE - lane_index,
    {
        verdicts[lane_index] = evaluate_lane(
            a_candidates[lane_index],
            x_a[lane_index],
            x_b[lane_index],
            x[lane_index],
            y_a[lane_index],
            y_b[lane_index],
            y[lane_index],
        );
        lane_index += 1;
    }
    verdicts
}

/// Scans the candidates in full chunks of `CHUNK_SIZE`, each judged as a
/// whole, and then one by one the candidates that fill no full chunk. A true
/// verdict only says that a solution is there: the scalar evaluator computes
/// it.
pub fn solve<const CHUNK_SIZE: usize>(
    x_a: u64,
    x_b: u64,
    x: u64,
    y_a: u64,
    y_b: u64,
    y: u64,
) -> (result: Option<Solution>)
    requires
        CHUNK_SIZE > 0,
        x_a != 0,
        x_b != 0,
        y_a != 0,
        y_b != 0,
    ensures
        is_search_result(result, x_a, x_b, x, y_a, y_b, y),
{
    // The evaluator takes every coefficient once per lane.
    let x_a_vec = splat::<CHUNK_SIZE>(x_a);
    let x_b_vec = splat::<CHUNK_SIZE>(x_b);
    let x_vec = splat::<CHUNK_SIZE>(x);
    let y_a_vec = splat::<CHUNK_SIZE>(y_a);
    let y_b_vec = splat::<CHUNK_SIZE>(y_b);
    let y_vec = splat::<CHUNK_SIZE>(y);

    let bound = max_candidate(x_a, x, y_a, y);

    // The bound need not be a multiple of the chunk size: the candidates from
    // `first_partial_candidate` on fill no full chunk.
    let chunk_size = CHUNK_SIZE as u64;
    let full_chunk_count = bound / chunk_size;
    proof {
        vstd::arithmetic::div_mod::lemma_fundamental_div_mod(bound as int, chunk_size as int);
    }
    let first_partial_candidate = chunk_size * full_chunk_count;

    let mut chunk_index: u64 = 0;
    while chunk_index < full_chunk_count
        invariant
            CHUNK_SIZE > 0,
            chunk_size == CHUNK_SIZE,
            x_a != 0,
            x_b != 0,
            y_a != 0,
            y_b != 0,
            bound == max_a(x_a, x, y_a, y),
            first_partial_candidate == first_partial(chunk_size as nat, bound as nat),
            first_partial_candidate == chunk_size * full_chunk_count,
            first_partial_candidate <= bound,
            chunk_index <= full_chunk_count,
            no_solution_below((chunk_index * chunk_size) as nat, x_a, x_b, x, y_a, y_b, y),
            forall|lane: int| 0 <= lane < CHUNK_SIZE ==> x_a_vec[lane] == x_a,
            forall|lane: int| 0 <= lane < CHUNK_SIZE ==> x_b_vec[lane] == x_b,
            forall|lane: int| 0 <= lane < CHUNK_SIZE ==> x_vec[lane] == x,
            forall|lane: int| 0 <= lane < CHUNK_SIZE ==> y_a_vec[lane] == y_a,
            forall|lane: int| 0 <= lane < CHUNK_SIZE ==> y_b_vec[lane] == y_b,
            forall|lane: int| 0 <= lane < CHUNK_SIZE ==> y_vec[lane] == y,
        decreases full_chunk_count - chunk_index,
    {
        proof {
            lemma_chunk_within(chunk_index as int, full_chunk_count as int, chunk_size as int);
        }
        let first_candidate_in_chunk = chunk_index * chunk_size;
        let a_candidates = chunk_candidates::<CHUNK_SIZE>(first_candidate_in_chunk);
        let verdicts = evaluate_chunk(
            a_candidates,
            x_a_vec,
            x_b_vec,
            x_vec,
            y_a_vec,
            y_b_vec,
            y_vec,
        );
        assert forall|lane: int| 0 <= lane < CHUNK_SIZE implies a_candidates[lane]
            == first_candidate_in_chunk + lane && verdicts[lane] == extends_to_solution(
            (first_candidate_in_chunk + lane) as nat,
            x_a,
            x_b,
            x,
            y_a,
            y_b,
            y,
        ) by {
            assert(a_candidates[lane] == lane_candidate(first_candidate_in_chunk, lane));
        }

        if let Some(solution_index) = lowest_true_lane(&verdicts) {
            let a = a_candidates[solution_index];
            proof {
                lemma_candidate_within_bound(a as nat, x_a, x, y_a, y);
            }
            let solution = evaluate_naive(a, x_a, x_b, x, y_a, y_b, y).unwrap();
            assert forall|lower: nat, b: nat|
                satisfies(lower, b, x_a, x_b, x, y_a, y_b, y) implies a <= lower by {
                if first_candidate_in_chunk <= lower < a {
                    assert(!verdicts[lower - first_candidate_in_chunk]);
                }
            }
            return Some(solution);
        }
        assert forall|a: nat, b: nat| a < (chunk_index + 1) * chunk_size implies !satisfies(
            a,
            b,
            x_a,
            x_b,
            x,
            y_a,
            y_b,
            y,
        ) by {
            assert((chunk_index + 1) * chunk_size == first_candidate_in_chunk + chunk_size)
                by (nonlinear_arith)
                requires
                    first_candidate_in_chunk == chunk_index * chunk_size,
            ;
            if first_candidate_in_chunk <= a {
                assert(!verdicts[a - first_candidate_in_chunk]);
            }
        }
        chunk_index += 1;
    }

    assert(chunk_index * chunk_size == first_partial_candidate) by (nonlinear_arith)
        requires
            chunk_index == full_chunk_count,
            first_partial_candidate == chunk_size * full_chunk_count,
    ;
    let mut a = first_partial_candidate;
    loop
        invariant
            x_a != 0,
            x_b != 0,
            y_a != 0,
            y_b != 0,
            bound == max_a(x_a, x, y_a, y),
            a <= bound,
            no_solution_below(a as nat, x_a, x_b, x, y_a, y_b, y),
        decreases bound - a,
    {
        proof {
            lemma_candidate_within_bound(a as nat, x_a, x, y_a, y);
        }
        if let Some(solution) = evaluate_naive(a, x_a, x_b, x, y_a, y_b, y) {
            return Some(solution);
        }
        if a == bound {
            proof {
                lemma_exhausted(x_a, x_b, x, y_a, y_b, y);
            }
            return None;
        }
        a += 1;
    }
}

/// Every candidate of a full chunk lies below the first candidate that
/// fills no full chunk.
proof fn lemma_chunk_within(chunk_index: int, full_chunk_count: int, chunk_size: int)
    requires
        0 <= chunk_index < full_chunk_count,
        0 < chunk_size,
    ensures
        0 <= chunk_index * chunk_size,
        chunk_index * chunk_size + chunk_size <= chunk_size * full_chunk_count,
{
    assert(0 <= chunk_index * chunk_size) by (nonlinear_arith)
        requires
            0 <= chunk_index,
            0 < chunk_size,
    ;
    assert(chunk_index * chunk_size + chunk_size <= chunk_size * full_chunk_count)
        by (nonlinear_arith)
        requires
            chunk_index + 1 <= full_chunk_count,
            0 < chunk_size,
    ;
}

/// The first candidate that fills no full chunk: the candidates below it
/// make up `bound / chunk_size` full chunks.
pub open spec fn first_partial(chunk_size: nat, bound: nat) -> nat {
    chunk_size * (bound / chunk_size)
}

/// The candidates that fill no full chunk are searched as the others are.
/// They are the `bound % chunk_size + 1` candidates from `first_partial` up
/// to the bound, and a solution among them is not lost: the search returns
/// that solution or one with a smaller `a`.
pub proof fn lemma_partial_chunk_searched(
    result: Option<Solution>,
    a: nat,
    b: nat,
    chunk_size: nat,
    x_a: u64,
    x_b: u64,
    x: u64,
    y_a: u64,
    y_b: u64,
    y: u64,
)
    requires
        chunk_size > 0,
        x_a != 0,
        y_a != 0,
        is_search_result(result, x_a, x_b, x, y_a, y_b, y),
        first_partial(chunk_size, max_a(x_a, x, y_a, y)) <= a,
        satisfies(a, b, x_a, x_b, x, y_a, y_b, y),
    ensures
        max_a(x_a, x, y_a, y) == first_partial(chunk_size, max_a(x_a, x, y_a, y)) + max_a(
            x_a,
            x,
            y_a,
            y,
        ) % chunk_size,
        a <= max_a(x_a, x, y_a, y),
        result matches Some(s) && s.a <= a,
{
    vstd::arithmetic::div_mod::lemma_fundamental_div_mod(
        max_a(x_a, x, y_a, y) as int,
        chunk_size as int,
    );
    lemma_solution_within_bound(a, b, x_a, x_b, x, y_a, y_b, y);
}

} // verus!
