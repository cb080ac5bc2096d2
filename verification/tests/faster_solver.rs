use std::cell::Cell;

use vectorized_rust::faster_solver;
use vectorized_rust::faster_solver::{advance, RefutedVerdict, Search};
use vectorized_rust::faster_solver_u64;
use vectorized_rust::lanes::{lowest_true_lane, splat};
use vectorized_rust::naive_solver;
use vectorized_rust::Solution;

const TEST_CHUNK_SIZE: usize = 4;

// The verdicts in double-precision lanes: divisibility is tested by dividing
// and multiplying back, all in floating point.
fn evaluate_chunk<const CHUNK_SIZE: usize>(
    a_candidates: [f64; CHUNK_SIZE],
    x_a: [f64; CHUNK_SIZE],
    x_b: [f64; CHUNK_SIZE],
    x: [f64; CHUNK_SIZE],
    y_a: [f64; CHUNK_SIZE],
    y_b: [f64; CHUNK_SIZE],
    y: [f64; CHUNK_SIZE],
) -> [bool; CHUNK_SIZE] {
    let mut verdicts = [false; CHUNK_SIZE];
    for lane in 0..CHUNK_SIZE {
        let remaining_x = x[lane] - x_a[lane] * a_candidates[lane];
        let b_x = remaining_x / x_b[lane];
        let is_evenly_divisible_x = b_x * x_b[lane] == remaining_x;

        let remaining_y = y[lane] - y_a[lane] * a_candidates[lane];
        let b_y = remaining_y / y_b[lane];
        let is_evenly_divisible_y = b_y * y_b[lane] == remaining_y;

        let is_equal_x_y = b_x == b_y;
        verdicts[lane] = is_evenly_divisible_x && is_evenly_divisible_y && is_equal_x_y;
    }
    verdicts
}

// The windowed search with its verdicts computed in floating point.
fn scan<const CHUNK_SIZE: usize>(
    x_a: u64,
    x_b: u64,
    x: u64,
    y_a: u64,
    y_b: u64,
    y: u64,
) -> Result<Option<Solution>, RefutedVerdict> {
    let x_a_vec = [x_a as f64; CHUNK_SIZE];
    let x_b_vec = [x_b as f64; CHUNK_SIZE];
    let x_vec = [x as f64; CHUNK_SIZE];
    let y_a_vec = [y_a as f64; CHUNK_SIZE];
    let y_b_vec = [y_b as f64; CHUNK_SIZE];
    let y_vec = [y as f64; CHUNK_SIZE];

    faster_solver::solve(x_a, x_b, x, y_a, y_b, y, |a_candidates: [u64; CHUNK_SIZE]| {
        evaluate_chunk(
            a_candidates.map(|a| a as f64),
            x_a_vec,
            x_b_vec,
            x_vec,
            y_a_vec,
            y_b_vec,
            y_vec,
        )
    })
}

// The search in floating-point lanes: a refuted verdict is a defect, not an
// answer.
fn solve<const CHUNK_SIZE: usize>(
    x_a: u64,
    x_b: u64,
    x: u64,
    y_a: u64,
    y_b: u64,
    y: u64,
) -> Option<Solution> {
    scan::<CHUNK_SIZE>(x_a, x_b, x, y_a, y_b, y).expect("we verified that this is a valid solution")
}

// The windowed search with verdicts from the exact integer lanes. Returns
// the result and the number of windows that were judged.
fn solve_exact<const CHUNK_SIZE: usize>(
    x_a: u64,
    x_b: u64,
    x: u64,
    y_a: u64,
    y_b: u64,
    y: u64,
) -> (Option<Solution>, u64) {
    let windows = Cell::new(0);
    let result = faster_solver::solve(x_a, x_b, x, y_a, y_b, y, |a_candidates: [u64; CHUNK_SIZE]| {
        windows.set(windows.get() + 1);
        faster_solver_u64::evaluate_chunk(
            a_candidates,
            splat(x_a),
            splat(x_b),
            splat(x),
            splat(y_a),
            splat(y_b),
            splat(y),
        )
    });
    (result.expect("exact verdicts are not refuted"), windows.get())
}

#[test]
fn faster_solver_examples() {
    assert_eq!(
        solve::<TEST_CHUNK_SIZE>(94, 22, 8400, 34, 67, 5400),
        Some(Solution { a: 80, b: 40 })
    );
    assert_eq!(solve::<TEST_CHUNK_SIZE>(26, 67, 12748, 66, 21, 12176), None);
    assert_eq!(
        solve::<TEST_CHUNK_SIZE>(17, 84, 7870, 86, 37, 6450),
        Some(Solution { a: 38, b: 86 })
    );
    assert_eq!(solve::<TEST_CHUNK_SIZE>(69, 27, 18641, 23, 71, 10279), None);
}

#[test]
fn faster_solver_smoke_test_evaluate_chunk() {
    let a_candidates = [79.0, 80.0, 81.0, 82.0];
    let x_a = [94.0; 4];
    let x_b = [22.0; 4];
    let x = [8400.0; 4];
    let y_a = [34.0; 4];
    let y_b = [67.0; 4];
    let y = [5400.0; 4];

    let result = evaluate_chunk(a_candidates, x_a, x_b, x, y_a, y_b, y);

    assert_eq!(result, [false, true, false, false]);
    assert_eq!(lowest_true_lane(&result), Some(1));
    assert_eq!(
        advance(79, &result, 94, 22, 8400, 34, 67, 5400),
        Search::HitFound {
            solution: Solution { a: 80, b: 40 }
        }
    );
}

#[test]
fn advance_confirms_the_lowest_true_lane() {
    // a + b = 4 twice: every candidate up to 4 extends to a solution.
    assert_eq!(
        advance(0, &[false, true, true, true], 1, 1, 4, 1, 1, 4),
        Search::HitFound {
            solution: Solution { a: 1, b: 3 }
        }
    );
    assert_eq!(
        advance(0, &[true, true, true, true], 1, 1, 4, 1, 1, 4),
        Search::HitFound {
            solution: Solution { a: 0, b: 4 }
        }
    );
    assert_eq!(
        advance(2, &[false, false, true], 1, 1, 4, 1, 1, 4),
        Search::HitFound {
            solution: Solution { a: 4, b: 0 }
        }
    );
}

#[test]
fn advance_moves_on_by_the_window_width() {
    // The bound is 89.
    assert_eq!(
        advance(0, &[false; 4], 94, 22, 8400, 34, 67, 5400),
        Search::Scanning { first: 4 }
    );
    assert_eq!(
        advance(84, &[false; 4], 94, 22, 8400, 34, 67, 5400),
        Search::Scanning { first: 88 }
    );
    // A window may start at the bound itself.
    assert_eq!(
        advance(85, &[false; 4], 94, 22, 8400, 34, 67, 5400),
        Search::Scanning { first: 89 }
    );
    assert_eq!(
        advance(0, &[false; 16], 94, 22, 8400, 34, 67, 5400),
        Search::Scanning { first: 16 }
    );
}

#[test]
fn advance_is_exhausted_past_the_bound() {
    // The bound is 89: the window after 88..=91 would start at 92.
    assert_eq!(
        advance(88, &[false; 4], 94, 22, 8400, 34, 67, 5400),
        Search::Exhausted
    );
    assert_eq!(
        advance(86, &[false; 4], 94, 22, 8400, 34, 67, 5400),
        Search::Exhausted
    );
    assert_eq!(
        advance(89, &[false], 94, 22, 8400, 34, 67, 5400),
        Search::Exhausted
    );
    // A window that starts beyond the bound has nothing to judge.
    assert_eq!(
        advance(90, &[false; 4], 94, 22, 8400, 34, 67, 5400),
        Search::Exhausted
    );
    assert_eq!(
        advance(90, &[true; 4], 94, 22, 8400, 34, 67, 5400),
        Search::Exhausted
    );
}

#[test]
fn advance_discards_a_true_verdict_beyond_the_bound() {
    // The bound is 89; lanes 2 and 3 of the window 88..=91 lie beyond it.
    assert_eq!(
        advance(88, &[false, false, true, false], 94, 22, 8400, 34, 67, 5400),
        Search::Exhausted
    );
    assert_eq!(
        advance(88, &[false, false, false, true], 94, 22, 8400, 34, 67, 5400),
        Search::Exhausted
    );
    // Near the largest representable value the lane may not even count up.
    assert_eq!(
        advance(u64::MAX, &[false, true], 1, 1, 5, 2, 1, 10),
        Search::Exhausted
    );
    assert_eq!(
        advance(u64::MAX, &[false, false], 1, 1, u64::MAX, 1, 1, u64::MAX),
        Search::Exhausted
    );
    assert_eq!(
        advance(u64::MAX - 1, &[false, false, true], 1, 1, u64::MAX, 1, 1, u64::MAX),
        Search::Exhausted
    );
}

#[test]
fn advance_reports_a_refuted_verdict() {
    // Candidate 81 is within the bound and extends to no solution.
    assert_eq!(
        advance(80, &[false, true, false, false], 94, 22, 8400, 34, 67, 5400),
        Search::Refuted { candidate: 81 }
    );
    // a + 3b = 2 and 2a + 3b = 3: candidate 1 would need b = 1/3.
    assert_eq!(
        advance(0, &[false, true], 1, 3, 2, 2, 3, 3),
        Search::Refuted { candidate: 1 }
    );
}

#[test]
fn advance_at_the_largest_bound() {
    // a + b = u64::MAX twice: the bound is u64::MAX, and (u64::MAX, 0) is a solution.
    assert_eq!(
        advance(u64::MAX - 1, &[false, true], 1, 1, u64::MAX, 1, 1, u64::MAX),
        Search::HitFound {
            solution: Solution {
                a: u64::MAX,
                b: 0
            }
        }
    );
    assert_eq!(
        advance(u64::MAX - 2, &[false, false], 1, 1, u64::MAX, 1, 1, u64::MAX),
        Search::Scanning {
            first: u64::MAX
        }
    );
}

#[test]
fn advance_large_magnitude() {
    let x = 12748 + 10000000000000;
    let y = 12176 + 10000000000000;
    assert_eq!(
        advance(118679050708, &[false, true, false, false], 26, 67, x, 66, 21, y),
        Search::HitFound {
            solution: Solution {
                a: 118679050709,
                b: 103199174542
            }
        }
    );
}

#[test]
fn float_verdict_for_a_fractional_b_is_refuted() {
    // a + 3b = 2 and 2a + 3b = 3 meet at a = 1, b = 1/3. In floating point
    // 1/3 times 3 rounds back to 1, so lane 1 comes back true.
    let verdicts = evaluate_chunk([0.0, 1.0], [1.0; 2], [3.0; 2], [2.0; 2], [2.0; 2], [3.0; 2], [3.0; 2]);
    assert_eq!(verdicts, [false, true]);
    assert_eq!(
        advance(0, &verdicts, 1, 3, 2, 2, 3, 3),
        Search::Refuted { candidate: 1 }
    );
    assert_eq!(scan::<2>(1, 3, 2, 2, 3, 3), Err(RefutedVerdict { candidate: 1 }));
    assert_eq!(scan::<1>(1, 3, 2, 2, 3, 3), Err(RefutedVerdict { candidate: 1 }));
    assert_eq!(naive_solver::solve(1, 3, 2, 2, 3, 3), None);
}

#[test]
fn float_search_agrees_with_scalar_search_on_small_coefficients() {
    let cases: [(u64, u64, u64, u64, u64, u64); 6] = [
        (94, 22, 8400, 34, 67, 5400),
        (26, 67, 12748, 66, 21, 12176),
        (17, 84, 7870, 86, 37, 6450),
        (69, 27, 18641, 23, 71, 10279),
        (1, 1, 5, 2, 1, 10),
        (3, 2, 8, 5, 7, 28),
    ];
    for (x_a, x_b, x, y_a, y_b, y) in cases {
        let expected = naive_solver::solve(x_a, x_b, x, y_a, y_b, y);
        assert_eq!(solve::<1>(x_a, x_b, x, y_a, y_b, y), expected);
        assert_eq!(solve::<2>(x_a, x_b, x, y_a, y_b, y), expected);
        assert_eq!(solve::<4>(x_a, x_b, x, y_a, y_b, y), expected);
        assert_eq!(solve::<8>(x_a, x_b, x, y_a, y_b, y), expected);
        assert_eq!(solve::<16>(x_a, x_b, x, y_a, y_b, y), expected);
    }
}

#[test]
fn exact_windowed_search_agrees_with_the_other_searches() {
    let cases: [(u64, u64, u64, u64, u64, u64); 9] = [
        (94, 22, 8400, 34, 67, 5400),
        (26, 67, 12748, 66, 21, 12176),
        (17, 84, 7870, 86, 37, 6450),
        (69, 27, 18641, 23, 71, 10279),
        (1, 1, 5, 2, 1, 10),
        (3, 2, 8, 5, 7, 28),
        (1, 3, 2, 2, 3, 3),
        (2, 4, 10, 2, 4, 10),
        (10, 2, 3, 10, 2, 4),
    ];
    for (x_a, x_b, x, y_a, y_b, y) in cases {
        let expected = naive_solver::solve(x_a, x_b, x, y_a, y_b, y);
        assert_eq!(faster_solver_u64::solve::<4>(x_a, x_b, x, y_a, y_b, y), expected);
        assert_eq!(solve_exact::<1>(x_a, x_b, x, y_a, y_b, y).0, expected);
        assert_eq!(solve_exact::<2>(x_a, x_b, x, y_a, y_b, y).0, expected);
        assert_eq!(solve_exact::<3>(x_a, x_b, x, y_a, y_b, y).0, expected);
        assert_eq!(solve_exact::<4>(x_a, x_b, x, y_a, y_b, y).0, expected);
        assert_eq!(solve_exact::<16>(x_a, x_b, x, y_a, y_b, y).0, expected);
    }
}

#[test]
fn windowed_search_finds_solution_at_the_bound() {
    // The bound is 5 and the solution (5, 0): lane 1 of the window 4..=7.
    assert_eq!(solve::<4>(1, 1, 5, 2, 1, 10), Some(Solution { a: 5, b: 0 }));
    assert_eq!(
        solve_exact::<4>(1, 1, 5, 2, 1, 10),
        (Some(Solution { a: 5, b: 0 }), 2)
    );
    // The bound is 8 and the solution (8, 0): the last window starts at the bound.
    assert_eq!(solve::<4>(1, 1, 8, 2, 1, 16), Some(Solution { a: 8, b: 0 }));
    assert_eq!(
        solve_exact::<4>(1, 1, 8, 2, 1, 16),
        (Some(Solution { a: 8, b: 0 }), 3)
    );
}

#[test]
fn windowed_search_judges_no_more_windows_than_fit_the_bound() {
    // The bound is 184 and there is no solution: 185 candidates.
    assert_eq!(naive_solver::max_candidate(26, 12748, 66, 12176), 184);
    assert_eq!(solve_exact::<1>(26, 67, 12748, 66, 21, 12176), (None, 185));
    assert_eq!(solve_exact::<4>(26, 67, 12748, 66, 21, 12176), (None, 47));
    assert_eq!(solve_exact::<8>(26, 67, 12748, 66, 21, 12176), (None, 24));
    assert_eq!(solve_exact::<16>(26, 67, 12748, 66, 21, 12176), (None, 12));
    // The bound is 0: one window.
    assert_eq!(solve_exact::<4>(10, 2, 3, 10, 2, 4), (None, 1));
}

#[test]
fn float_search_beyond_exact_doubles_never_returns_a_wrong_solution() {
    // The totals lie beyond 2^53, where a double no longer holds every
    // integer: both totals round to 3 * 2^62, so candidate 0 looks like a
    // solution with b = 3 * 2^62. The scalar evaluator refutes it.
    let big = 1u64 << 62;
    assert_eq!(
        scan::<4>(big, 1, big * 3 + 7, big + 1, 1, big * 3 + 10),
        Err(RefutedVerdict { candidate: 0 })
    );
    assert_eq!(
        solve_exact::<4>(big, 1, big * 3 + 7, big + 1, 1, big * 3 + 10).0,
        Some(Solution { a: 3, b: 7 })
    );
}

#[test]
fn solve_with_verdicts_that_miss_the_solution_returns_nothing() {
    // An evaluator that never says yes: the search runs to the bound.
    let windows = Cell::new(0);
    let result = faster_solver::solve(94, 22, 8400, 34, 67, 5400, |_: [u64; 4]| {
        windows.set(windows.get() + 1);
        [false; 4]
    });
    assert_eq!(result, Ok(None));
    // The bound is 89: the windows start at 0, 4, ..., 88.
    assert_eq!(windows.get(), 23);
}

#[test]
fn solve_with_verdicts_that_are_always_true_is_refuted_at_once() {
    let result = faster_solver::solve(94, 22, 8400, 34, 67, 5400, |_: [u64; 4]| [true; 4]);
    assert_eq!(result, Err(RefutedVerdict { candidate: 0 }));
    // Where candidate 0 is the solution, the same verdicts are right.
    let result = faster_solver::solve(3, 2, 8, 5, 7, 28, |_: [u64; 4]| [true; 4]);
    assert_eq!(result, Ok(Some(Solution { a: 0, b: 4 })));
}

#[test]
fn solve_hands_out_consecutive_windows_from_zero() {
    let seen = Cell::new([u64::MAX; 3]);
    let count = Cell::new(0);
    // The bound is 5: two windows of three candidates.
    let result = faster_solver::solve(1, 1, 5, 2, 1, 10, |a_candidates: [u64; 3]| {
        if count.get() == 1 {
            seen.set(a_candidates);
        } else {
            assert_eq!(a_candidates, [0, 1, 2]);
        }
        count.set(count.get() + 1);
        [false; 3]
    });
    assert_eq!(result, Ok(None));
    assert_eq!(count.get(), 2);
    assert_eq!(seen.get(), [3, 4, 5]);
}

#[test]
fn solve_discards_a_true_verdict_beyond_the_bound() {
    // The bound is 5; the window 4..=7 gets a true verdict for 7 only.
    let result = faster_solver::solve(1, 1, 5, 2, 1, 10, |a_candidates: [u64; 4]| {
        a_candidates.map(|a| a == 7)
    });
    assert_eq!(result, Ok(None));
}
