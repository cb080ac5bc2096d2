//! The mathematical model that the contracts of the solvers are stated over.

use vstd::prelude::*;
use vstd::arithmetic::div_mod::{lemma_fundamental_div_mod, lemma_fundamental_div_mod_converse};
use crate::Solution;

verus! {

/// `(a, b)` satisfies both equations.
pub open spec fn satisfies(
    a: nat,
    b: nat,
    x_a: u64,
    x_b: u64,
    x: u64,
    y_a: u64,
    y_b: u64,
    y: u64,
) -> bool {
    &&& x_a * a + x_b * b == x
    &&& y_a * a + y_b * b == y
}

/// The candidate `a` extends to a solution: some `b` satisfies both equations
/// together with it.
pub open spec fn extends_to_solution(
    a: nat,
    x_a: u64,
    x_b: u64,
    x: u64,
    y_a: u64,
    y_b: u64,
    y: u64,
) -> bool {
    exists|b: nat| satisfies(a, b, x_a, x_b, x, y_a, y_b, y)
}

/// The equations have a solution in non-negative integers.
pub open spec fn has_solution(x_a: u64, x_b: u64, x: u64, y_a: u64, y_b: u64, y: u64) -> bool {
    exists|a: nat, b: nat| satisfies(a, b, x_a, x_b, x, y_a, y_b, y)
}

/// The largest candidate that leaves both right-hand sides non-negative:
/// the smaller of `x / x_a` and `y / y_a`, rounded down.
pub open spec fn max_a(x_a: u64, x: u64, y_a: u64, y: u64) -> nat
    recommends
        x_a != 0,
        y_a != 0,
{
    if x / x_a <= y / y_a {
        (x / x_a) as nat
    } else {
        (y / y_a) as nat
    }
}

/// `s` is a solution, and no solution has a smaller `a`.
pub open spec fn is_first_solution(
    s: Solution,
    x_a: u64,
    x_b: u64,
    x: u64,
    y_a: u64,
    y_b: u64,
    y: u64,
) -> bool {
    &&& satisfies(s.a as nat, s.b as nat, x_a, x_b, x, y_a, y_b, y)
    &&& forall|a: nat, b: nat| satisfies(a, b, x_a, x_b, x, y_a, y_b, y) ==> s.a <= a
}

/// What a search over the candidates returns: the solution with the smallest
/// `a`, or nothing exactly when the equations have no solution.
pub open spec fn is_search_result(
    result: Option<Solution>,
    x_a: u64,
    x_b: u64,
    x: u64,
    y_a: u64,
    y_b: u64,
    y: u64,
) -> bool {
    match result {
        Some(s) => is_first_solution(s, x_a, x_b, x, y_a, y_b, y),
        None => !has_solution(x_a, x_b, x, y_a, y_b, y),
    }
}

/// No candidate below `bound` extends to a solution.
pub open spec fn no_solution_below(
    bound: nat,
    x_a: u64,
    x_b: u64,
    x: u64,
    y_a: u64,
    y_b: u64,
    y: u64,
) -> bool {
    forall|a: nat, b: nat| a < bound ==> !satisfies(a, b, x_a, x_b, x, y_a, y_b, y)
}

/// A multiple of `d` divides evenly by `d`, and the quotient is the factor.
pub proof fn lemma_multiple_divides(d: int, q: int)
    requires
        d > 0,
    ensures
        (d * q) % d == 0,
        (d * q) / d == q,
{
    assert(d * q == q * d + 0) by (nonlinear_arith);
    lemma_fundamental_div_mod_converse(d * q, d, q, 0);
}

/// Where `d` divides `r` evenly, the quotient times `d` is `r` again.
pub proof fn lemma_even_quotient(r: int, d: int)
    requires
        d > 0,
        r % d == 0,
    ensures
        d * (r / d) == r,
{
    lemma_fundamental_div_mod(r, d);
}

/// For a positive `d`, `d * a <= x` says the same as `a <= x / d`.
pub proof fn lemma_product_bound(a: int, x: int, d: int)
    requires
        d > 0,
        0 <= a,
        0 <= x,
    ensures
        d * a <= x <==> a <= x / d,
{
    lemma_fundamental_div_mod(x, d);
    let q = x / d;
    if a <= q {
        assert(d * a <= d * q) by (nonlinear_arith)
            requires
                d > 0,
                a <= q,
        ;
    } else {
        assert(d * a >= d * (q + 1)) by (nonlinear_arith)
            requires
                d > 0,
                a >= q + 1,
        ;
        assert(d * (q + 1) == d * q + d) by (nonlinear_arith);
    }
}

/// The bound is no larger than either right-hand side.
pub proof fn lemma_bound_at_most_totals(x_a: u64, x: u64, y_a: u64, y: u64)
    requires
        x_a != 0,
        y_a != 0,
    ensures
        max_a(x_a, x, y_a, y) <= x,
        max_a(x_a, x, y_a, y) <= y,
{
    vstd::arithmetic::div_mod::lemma_div_nonincreasing(x as int, x_a as int);
    vstd::arithmetic::div_mod::lemma_div_nonincreasing(y as int, y_a as int);
}

/// A candidate is within the bound exactly when it leaves both right-hand
/// sides non-negative.
pub proof fn lemma_candidate_within_bound(a: nat, x_a: u64, x: u64, y_a: u64, y: u64)
    requires
        x_a != 0,
        y_a != 0,
    ensures
        a <= max_a(x_a, x, y_a, y) <==> x_a * a <= x && y_a * a <= y,
{
    lemma_product_bound(a as int, x as int, x_a as int);
    lemma_product_bound(a as int, y as int, y_a as int);
}

/// Every solution lies within the bound `max_a`, so a scan of the candidates
/// up to and including the bound misses none.
pub proof fn lemma_solution_within_bound(
    a: nat,
    b: nat,
    x_a: u64,
    x_b: u64,
    x: u64,
    y_a: u64,
    y_b: u64,
    y: u64,
)
    requires
        x_a != 0,
        y_a != 0,
        satisfies(a, b, x_a, x_b, x, y_a, y_b, y),
    ensures
        a <= max_a(x_a, x, y_a, y),
{
    assert(x_b * b >= 0) by (nonlinear_arith);
    assert(y_b * b >= 0) by (nonlinear_arith);
    lemma_candidate_within_bound(a, x_a, x, y_a, y);
}

/// With non-zero `x_b` and `y_b`, a candidate goes with at most one `b`: the
/// quotient of what either equation leaves for its `b` term by the
/// coefficient of `b`, which divides evenly.
pub proof fn lemma_b_is_quotient(
    a: nat,
    b: nat,
    x_a: u64,
    x_b: u64,
    x: u64,
    y_a: u64,
    y_b: u64,
    y: u64,
)
    requires
        x_b != 0,
        y_b != 0,
        satisfies(a, b, x_a, x_b, x, y_a, y_b, y),
    ensures
        (x - x_a * a) % (x_b as int) == 0,
        (y - y_a * a) % (y_b as int) == 0,
        b == (x - x_a * a) / (x_b as int),
        b == (y - y_a * a) / (y_b as int),
{
    lemma_multiple_divides(x_b as int, b as int);
    lemma_multiple_divides(y_b as int, b as int);
}

/// Once no candidate up to and including the bound extends to a solution,
/// the equations have none.
pub proof fn lemma_exhausted(x_a: u64, x_b: u64, x: u64, y_a: u64, y_b: u64, y: u64)
    requires
        x_a != 0,
        y_a != 0,
        no_solution_below(max_a(x_a, x, y_a, y) + 1, x_a, x_b, x, y_a, y_b, y),
    ensures
        !has_solution(x_a, x_b, x, y_a, y_b, y),
{
    assert forall|a: nat, b: nat| !satisfies(a, b, x_a, x_b, x, y_a, y_b, y) by {
        if satisfies(a, b, x_a, x_b, x, y_a, y_b, y) {
            lemma_solution_within_bound(a, b, x_a, x_b, x, y_a, y_b, y);
        }
    }
}

/// The coefficients alone determine the result of a search: two results
/// that both are what a search returns for the same coefficients are equal.
/// So the scalar search and the chunked searches agree, whatever the chunk
/// size, and a search that is repeated returns the same again.
pub proof fn lemma_search_result_unique(
    first: Option<Solution>,
    second: Option<Solution>,
    x_a: u64,
    x_b: u64,
    x: u64,
    y_a: u64,
    y_b: u64,
    y: u64,
)
    requires
        x_b != 0,
        y_b != 0,
        is_search_result(first, x_a, x_b, x, y_a, y_b, y),
        is_search_result(second, x_a, x_b, x, y_a, y_b, y),
    ensures
        first == second,
{
    match (first, second) {
        (Some(s), Some(t)) => {
            lemma_b_is_quotient(s.a as nat, s.b as nat, x_a, x_b, x, y_a, y_b, y);
            lemma_b_is_quotient(t.a as nat, t.b as nat, x_a, x_b, x, y_a, y_b, y);
        },
        (Some(s), None) => {
            assert(satisfies(s.a as nat, s.b as nat, x_a, x_b, x, y_a, y_b, y));
        },
        (None, Some(t)) => {
            assert(satisfies(t.a as nat, t.b as nat, x_a, x_b, x, y_a, y_b, y));
        },
        (None, None) => {},
    }
}

/// The bound is inclusive: where the candidate `max_a` itself extends to a
/// solution, a search finds a solution, and it finds that one unless a
/// smaller candidate extends to a solution too.
pub proof fn lemma_solution_at_bound_found(
    result: Option<Solution>,
    b: nat,
    x_a: u64,
    x_b: u64,
    x: u64,
    y_a: u64,
    y_b: u64,
    y: u64,
)
    requires
        x_a != 0,
        x_b != 0,
        y_a != 0,
        y_b != 0,
        is_search_result(result, x_a, x_b, x, y_a, y_b, y),
        satisfies(max_a(x_a, x, y_a, y), b, x_a, x_b, x, y_a, y_b, y),
    ensures
        result matches Some(s) && s.a <= max_a(x_a, x, y_a, y) && (no_solution_below(
            max_a(x_a, x, y_a, y),
            x_a,
            x_b,
            x,
            y_a,
            y_b,
            y,
        ) ==> s.a == max_a(x_a, x, y_a, y) && s.b == b),
{
    let bound = max_a(x_a, x, y_a, y);
    match result {
        Some(s) => {
            if no_solution_below(bound, x_a, x_b, x, y_a, y_b, y) {
                assert(satisfies(s.a as nat, s.b as nat, x_a, x_b, x, y_a, y_b, y));
                lemma_b_is_quotient(s.a as nat, s.b as nat, x_a, x_b, x, y_a, y_b, y);
                lemma_b_is_quotient(bound, b, x_a, x_b, x, y_a, y_b, y);
            }
        },
        None => {},
    }
}

/// A search returns nothing exactly when no candidate from 0 up to and
/// including the bound extends to a solution.
pub proof fn lemma_none_iff_no_candidate(
    result: Option<Solution>,
    x_a: u64,
    x_b: u64,
    x: u64,
    y_a: u64,
    y_b: u64,
    y: u64,
)
    requires
        x_a != 0,
        y_a != 0,
        is_search_result(result, x_a, x_b, x, y_a, y_b, y),
    ensures
        result is None <==> no_solution_below(
            max_a(x_a, x, y_a, y) + 1,
            x_a,
            x_b,
            x,
            y_a,
            y_b,
            y,
        ),
{
    match result {
        Some(s) => {
            lemma_solution_within_bound(s.a as nat, s.b as nat, x_a, x_b, x, y_a, y_b, y);
        },
        None => {},
    }
    if no_solution_below(max_a(x_a, x, y_a, y) + 1, x_a, x_b, x, y_a, y_b, y) {
        lemma_exhausted(x_a, x_b, x, y_a, y_b, y);
    }
}

} // verus!
