//! The scalar search: one candidate at a time, in exact integer arithmetic.

use vstd::prelude::*;
use crate::Solution;
use crate::model::{
    extends_to_solution, is_search_result, lemma_b_is_quotient, lemma_candidate_within_bound,
    lemma_even_quotient, lemma_exhausted, max_a, no_solution_below, satisfies,
};

verus! {

/// Decides whether the candidate `a_candidate` extends to a solution, and
/// returns that solution if it does.
///
/// The caller keeps the candidate within the bound: both `x_a * a_candidate`
/// and `y_a * a_candidate` stay at or below their right-hand sides.
pub fn evaluate_naive(
    a_candidate: u64,
    x_a: u64,
    x_b: u64,
    x: u64,
    y_a: u64,
    y_b: u64,
    y: u64,
) -> (result: Option<Solution>)
    requires
        x_b != 0,
        y_b != 0,
        x_a * a_candidate <= x,
        y_a * a_candidate <= y,
    ensures
        match result {
            Some(s) => s.a == a_candidate && satisfies(
                a_candidate as nat,
                s.b as nat,
                x_a,
                x_b,
                x,
                y_a,
                y_b,
                y,
            ),
            None => !extends_to_solution(a_candidate as nat, x_a, x_b, x, y_a, y_b, y),
        },
{
    // With this candidate, what is left for `x_b * b`?
    let b_component_x = x - x_a * a_candidate;
    let b_component_y = y - y_a * a_candidate;
    proof {
        // Whatever `b` goes with the candidate is the quotient on both sides.
        assert forall|b: nat| satisfies(a_candidate as nat, b, x_a, x_b, x, y_a, y_b, y) implies {
            &&& b_component_x % x_b == 0
            &&& b_component_y % y_b == 0
            &&& b == b_component_x / x_b
            &&& b == b_component_y / y_b
        } by {
            lemma_b_is_quotient(a_candidate as nat, b, x_a, x_b, x, y_a, y_b, y);
        }
    }

    // Unless `x_b` divides it evenly, no `b` goes with this candidate.
    if b_component_x % x_b != 0 {
        return None;
    }
    if b_component_y % y_b != 0 {
        return None;
    }
    let b_x = b_component_x / x_b;
    let b_y = b_component_y / y_b;

    // Both equations must agree on `b`.
    if b_x != b_y {
        return None;
    }
    proof {
        lemma_even_quotient(b_component_x as int, x_b as int);
        lemma_even_quotient(b_component_y as int, y_b as int);
    }
    Some(Solution { a: a_candidate, b: b_x })
}

/// The bound of the search: the largest candidate that leaves both
/// right-hand sides non-negative.
pub fn max_candidate(x_a: u64, x: u64, y_a: u64, y: u64) -> (bound: u64)
    requires
        x_a != 0,
        y_a != 0,
    ensures
        bound == max_a(x_a, x, y_a, y),
{
    let bound_x = x / x_a;
    let bound_y = y / y_a;
    if bound_x <= bound_y {
        bound_x
    } else {
        bound_y
    }
}

/// Scans the candidates from 0 up to and including the bound, one at a time,
/// and returns the first solution met.
pub fn solve(x_a: u64, x_b: u64, x: u64, y_a: u64, y_b: u64, y: u64) -> (result: Option<Solution>)
    requires
        x_a != 0,
        x_b != 0,
        y_a != 0,
        y_b != 0,
    ensures
        is_search_result(result, x_a, x_b, x, y_a, y_b, y),
{
    let bound = max_candidate(x_a, x, y_a, y);
    let mut a: u64 = 0;
    loop
        invariant
            x_a != 0,
            x_b != 0,
            y_a != 0,
            y_b != 0,
            bound == max_a(x_a, x, y_a, y),
            a <= bound,
            no_solution_below(a as nat, x_a, x_b, x, y_a, y_b, y),
        decreases bound - a,
    {
        proof {
            lemma_candidate_within_bound(a as nat, x_a, x, y_a, y);
        }
        if let Some(solution) = evaluate_naive(a, x_a, x_b, x, y_a, y_b, y) {
            return Some(solution);
        }
        if a == bound {
            proof {
                lemma_exhausted(x_a, x_b, x, y_a, y_b, y);
            }
            return None;
        }
        a += 1;
    }
}

} // verus!
