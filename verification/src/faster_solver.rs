//! The windowed search: a window of `CHUNK_SIZE` consecutive candidates moves
//! over the range, and an evaluator that the caller brings judges each
//! window, one verdict per lane.
//!
//! The verdicts are trusted for nothing. A true verdict is a hint: the
//! candidate of the lowest true lane goes through the scalar evaluator before
//! anything is returned, and a lane beyond the bound is discarded whatever
//! its verdict says.

use vstd::prelude::*;
use crate::Solution;
use crate::lanes::{
    chunk_candidates, is_chunk_from, is_lowest_true, lane_candidate, lemma_lowest_true_or_none,
    lowest_true_lane, none_true,
};
use crate::model::{
    extends_to_solution, has_solution, is_first_solution, is_search_result,
    lemma_bound_at_most_totals, lemma_candidate_within_bound, lemma_exhausted, max_a,
    no_solution_below, satisfies,
};
use crate::naive_solver::{evaluate_naive, max_candidate};

verus! {

/// Where a windowed search stands.
#[derive(Debug, PartialEq, Eq, Structural)]
pub enum Search {
    /// No hit so far; the next window starts at `first`.
    Scanning { first: u64 },
    /// A true verdict was confirmed by the scalar evaluator.
    HitFound { solution: Solution },
    /// The candidates are exhausted and no hit was found.
    Exhausted,
    /// A lane within the bound had a true verdict, and the scalar evaluator
    /// found no solution for its candidate: the verdicts were wrong.
    Refuted { candidate: u64 },
}

/// `next` is what becomes of a true verdict for `candidate`: beyond the
/// bound the verdict is discarded and the search is over; within the bound
/// the scalar evaluation decides between a hit and a refuted verdict.
pub open spec fn is_after_hit(
    next: Search,
    candidate: nat,
    x_a: u64,
    x_b: u64,
    x: u64,
    y_a: u64,
    y_b: u64,
    y: u64,
) -> bool {
    if candidate > max_a(x_a, x, y_a, y) {
        next == Search::Exhausted
    } else if extends_to_solution(candidate, x_a, x_b, x, y_a, y_b, y) {
        &&& next matches Search::HitFound { solution }
        &&& solution.a == candidate
        &&& satisfies(candidate, solution.b as nat, x_a, x_b, x, y_a, y_b, y)
    } else {
        next == Search::Refuted { candidate: candidate as u64 }
    }
}

/// `next` is where the search stands after the window that starts at `first`
/// came back with `verdicts`.
pub open spec fn is_next(
    next: Search,
    first: u64,
    verdicts: Seq<bool>,
    x_a: u64,
    x_b: u64,
    x: u64,
    y_a: u64,
    y_b: u64,
    y: u64,
) -> bool {
    &&& forall|lane: int| #[trigger]
        is_lowest_true(verdicts, lane) ==> is_after_hit(
            next,
            (first + lane) as nat,
            x_a,
            x_b,
            x,
            y_a,
            y_b,
            y,
        )
    &&& none_true(verdicts) ==> next == if first + verdicts.len() <= max_a(x_a, x, y_a, y) {
        Search::Scanning { first: (first + verdicts.len()) as u64 }
    } else {
        Search::Exhausted
    }
}

/// Takes the verdicts for the window that starts at `first` and decides how
/// the search goes on.
///
/// With a true verdict, the candidate of the lowest true lane is the one to
/// confirm. With none, the window moves on by its width, unless that passes
/// the bound.
pub fn advance<const CHUNK_SIZE: usize>(
    first: u64,
    verdicts: &[bool; CHUNK_SIZE],
    x_a: u64,
    x_b: u64,
    x: u64,
    y_a: u64,
    y_b: u64,
    y: u64,
) -> (next: Search)
    requires
        x_a != 0,
        x_b != 0,
        y_a != 0,
        y_b != 0,
    ensures
        is_next(next, first, verdicts@, x_a, x_b, x, y_a, y_b, y),
{
    let bound = max_candidate(x_a, x, y_a, y);
    let chunk_size = CHUNK_SIZE as u64;
    match lowest_true_lane(verdicts) {
        Some(lane) => {
            assert forall|other: int| is_lowest_true(verdicts@, other) implies other == lane by {
                if other < lane {
                    assert(!verdicts@[other]);
                }
                if lane < other {
                    assert(verdicts@[lane as int]);
                }
            }
            let offset = lane as u64;
            if first > bound || offset > bound - first {
                return Search::Exhausted;
            }
            let candidate = first + offset;
            proof {
                lemma_candidate_within_bound(candidate as nat, x_a, x, y_a, y);
            }
            match evaluate_naive(candidate, x_a, x_b, x, y_a, y_b, y) {
                Some(solution) => Search::HitFound { solution },
                None => Search::Refuted { candidate },
            }
        },
        None => {
            assert forall|lane: int| !is_lowest_true(verdicts@, lane) by {
                if is_lowest_true(verdicts@, lane) {
                    assert(verdicts@[lane]);
                }
            }
            if first <= bound && chunk_size <= bound - first {
                Search::Scanning { first: first + chunk_size }
            } else {
                Search::Exhausted
            }
        },
    }
}

/// A true verdict for a candidate within the bound that the scalar evaluator
/// refuted.
#[derive(Debug, PartialEq, Eq, Structural)]
pub struct RefutedVerdict {
    pub candidate: u64,
}

/// The evaluator misses no solution: a lane whose candidate lies within the
/// bound and extends to a solution gets a true verdict.
pub open spec fn misses_nothing<const CHUNK_SIZE: usize, F: Fn([u64; CHUNK_SIZE]) -> [bool;
    CHUNK_SIZE]>(evaluate: F, x_a: u64, x_b: u64, x: u64, y_a: u64, y_b: u64, y: u64) -> bool {
    forall|a_candidates: [u64; CHUNK_SIZE], verdicts: [bool; CHUNK_SIZE], lane: int|
        #![trigger call_ensures(evaluate, (a_candidates,), verdicts), verdicts[lane]]
        call_ensures(evaluate, (a_candidates,), verdicts) && 0 <= lane < CHUNK_SIZE
            && a_candidates[lane] <= max_a(x_a, x, y_a, y) && extends_to_solution(
            a_candidates[lane] as nat,
            x_a,
            x_b,
            x,
            y_a,
            y_b,
            y,
        ) ==> verdicts[lane]
}

/// The evaluator invents no solution: a true verdict for a candidate within
/// the bound means that the candidate extends to a solution.
pub open spec fn invents_nothing<const CHUNK_SIZE: usize, F: Fn([u64; CHUNK_SIZE]) -> [bool;
    CHUNK_SIZE]>(evaluate: F, x_a: u64, x_b: u64, x: u64, y_a: u64, y_b: u64, y: u64) -> bool {
    forall|a_candidates: [u64; CHUNK_SIZE], verdicts: [bool; CHUNK_SIZE], lane: int|
        #![trigger call_ensures(evaluate, (a_candidates,), verdicts), verdicts[lane]]
        call_ensures(evaluate, (a_candidates,), verdicts) && 0 <= lane < CHUNK_SIZE
            && a_candidates[lane] <= max_a(x_a, x, y_a, y) && verdicts[lane]
            ==> extends_to_solution(a_candidates[lane] as nat, x_a, x_b, x, y_a, y_b, y)
}

/// What a search that ended at `end` returns.
pub open spec fn outcome(end: Search) -> Result<Option<Solution>, RefutedVerdict> {
    match end {
        Search::HitFound { solution } => Ok(Some(solution)),
        Search::Refuted { candidate } => Err(RefutedVerdict { candidate }),
        _ => Ok(None),
    }
}

/// `windows` is the course of a whole search that ended at `end`: each entry
/// is the first candidate of a window and the verdicts that `evaluate` gave
/// for that window. The first window starts at 0, every window but the last
/// left the search scanning from the start of the one after it, and the last
/// led to `end`.
pub open spec fn is_run<const CHUNK_SIZE: usize, F: Fn([u64; CHUNK_SIZE]) -> [bool; CHUNK_SIZE]>(
    evaluate: F,
    windows: Seq<(u64, [bool; CHUNK_SIZE])>,
    end: Search,
    x_a: u64,
    x_b: u64,
    x: u64,
    y_a: u64,
    y_b: u64,
    y: u64,
) -> bool {
    &&& windows.len() > 0
    &&& windows[0].0 == 0
    &&& !(end is Scanning)
    &&& forall|k: int|
        0 <= k < windows.len() ==> {
            &&& was_judged(evaluate, (#[trigger] windows[k]).0, windows[k].1)
            &&& is_next(
                if k + 1 < windows.len() {
                    Search::Scanning { first: windows[k + 1].0 }
                } else {
                    end
                },
                windows[k].0,
                windows[k].1@,
                x_a,
                x_b,
                x,
                y_a,
                y_b,
                y,
            )
        }
}

/// `verdicts` is what `evaluate` gave for the chunk of consecutive
/// candidates that starts at `first`.
pub open spec fn was_judged<const CHUNK_SIZE: usize, F: Fn([u64; CHUNK_SIZE]) -> [bool; CHUNK_SIZE]>(
    evaluate: F,
    first: u64,
    verdicts: [bool; CHUNK_SIZE],
) -> bool {
    exists|a_candidates: [u64; CHUNK_SIZE]|
        is_chunk_from(a_candidates, first) && #[trigger] call_ensures(
            evaluate,
            (a_candidates,),
            verdicts,
        )
}

/// Moves a window of `CHUNK_SIZE` consecutive candidates from 0 over the
/// range up to the bound and has `evaluate` judge each window. The last
/// window may reach beyond the bound; verdicts for lanes out there count for
/// nothing.
///
/// The result is what the verdicts lead to, window after window, by the rule
/// of `advance`. The evaluator is free to be wrong, and the result says what
/// is known all the same. A solution that is returned is a solution. A
/// refuted verdict is reported as an error, not as the absence of a
/// solution. With an evaluator that misses no solution, the result is what
/// every search returns; with one that invents none, there is no error.
pub fn solve<const CHUNK_SIZE: usize, F>(
    x_a: u64,
    x_b: u64,
    x: u64,
    y_a: u64,
    y_b: u64,
    y: u64,
    evaluate: F,
) -> (result: Result<Option<Solution>, RefutedVerdict>) where
    F: Fn([u64; CHUNK_SIZE]) -> [bool; CHUNK_SIZE],

    requires
        CHUNK_SIZE > 0,
        x_a != 0,
        x_b != 0,
        y_a != 0,
        y_b != 0,
        forall|first: u64, a_candidates: [u64; CHUNK_SIZE]|
            is_chunk_from(a_candidates, first) ==> call_requires(evaluate, (a_candidates,)),
    ensures
        exists|windows: Seq<(u64, [bool; CHUNK_SIZE])>, end: Search|
            #![trigger is_run(evaluate, windows, end, x_a, x_b, x, y_a, y_b, y)]
            is_run(evaluate, windows, end, x_a, x_b, x, y_a, y_b, y) && result == outcome(end),
        result matches Ok(Some(s)) ==> satisfies(s.a as nat, s.b as nat, x_a, x_b, x, y_a, y_b, y),
        result matches Err(refuted) ==> refuted.candidate <= max_a(x_a, x, y_a, y)
            && !extends_to_solution(refuted.candidate as nat, x_a, x_b, x, y_a, y_b, y),
        misses_nothing(evaluate, x_a, x_b, x, y_a, y_b, y) ==> (result matches Ok(found)
            ==> is_search_result(found, x_a, x_b, x, y_a, y_b, y)),
        invents_nothing(evaluate, x_a, x_b, x, y_a, y_b, y) ==> result is Ok,
{
    let mut first_candidate_in_chunk: u64 = 0;
    let ghost mut windows: Seq<(u64, [bool; CHUNK_SIZE])> = Seq::empty();
    loop
        invariant
            CHUNK_SIZE > 0,
            is_run_so_far(
                evaluate,
                windows,
                first_candidate_in_chunk,
                x_a,
                x_b,
                x,
                y_a,
                y_b,
                y,
            ),
            x_a != 0,
            x_b != 0,
            y_a != 0,
            y_b != 0,
            forall|first: u64, a_candidates: [u64; CHUNK_SIZE]|
                is_chunk_from(a_candidates, first) ==> call_requires(evaluate, (a_candidates,)),
            first_candidate_in_chunk <= max_a(x_a, x, y_a, y),
            misses_nothing(evaluate, x_a, x_b, x, y_a, y_b, y) ==> no_solution_below(
                first_candidate_in_chunk as nat,
                x_a,
                x_b,
                x,
                y_a,
                y_b,
                y,
            ),
        decreases max_a(x_a, x, y_a, y) - first_candidate_in_chunk,
    {
        let a_candidates = chunk_candidates::<CHUNK_SIZE>(first_candidate_in_chunk);
        let verdicts = evaluate(a_candidates);
        let next = advance(first_candidate_in_chunk, &verdicts, x_a, x_b, x, y_a, y_b, y);
        proof {
            // The window joins the course of the search.
            let judged = windows.push((first_candidate_in_chunk, verdicts));
            assert(judged[windows.len() as int] == (first_candidate_in_chunk, verdicts));
            assert(was_judged(evaluate, first_candidate_in_chunk, verdicts));
            assert forall|k: int| 0 <= k < windows.len() implies judged[k] == windows[k] by {}
            windows = judged;
            lemma_lowest_true_or_none(verdicts@);
            lemma_bound_at_most_totals(x_a, x, y_a, y);
            if !none_true(verdicts@) {
                let lane = choose|lane: int| #[trigger] is_lowest_true(verdicts@, lane);
                assert(is_after_hit(
                    next,
                    (first_candidate_in_chunk + lane) as nat,
                    x_a,
                    x_b,
                    x,
                    y_a,
                    y_b,
                    y,
                ));
                assert(verdicts[lane]);
                if first_candidate_in_chunk + lane <= max_a(x_a, x, y_a, y) {
                    assert(a_candidates[lane] == lane_candidate(first_candidate_in_chunk, lane));
                }
            }
            if misses_nothing(evaluate, x_a, x_b, x, y_a, y_b, y) {
                assert forall|lane: int|
                    0 <= lane < CHUNK_SIZE && first_candidate_in_chunk + lane <= max_a(
                        x_a,
                        x,
                        y_a,
                        y,
                    ) && !verdicts[lane] implies !extends_to_solution(
                    (first_candidate_in_chunk + lane) as nat,
                    x_a,
                    x_b,
                    x,
                    y_a,
                    y_b,
                    y,
                ) by {
                    assert(a_candidates[lane] == lane_candidate(first_candidate_in_chunk, lane));
                }
                lemma_window_without_misses(
                    next,
                    first_candidate_in_chunk,
                    verdicts@,
                    x_a,
                    x_b,
                    x,
                    y_a,
                    y_b,
                    y,
                );
            }
        }
        match next {
            Search::Scanning { first } => {
                first_candidate_in_chunk = first;
            },
            Search::HitFound { solution } => {
                assert(is_run(evaluate, windows, next, x_a, x_b, x, y_a, y_b, y));
                return Ok(Some(solution));
            },
            Search::Exhausted => {
                assert(is_run(evaluate, windows, next, x_a, x_b, x, y_a, y_b, y));
                return Ok(None);
            },
            Search::Refuted { candidate } => {
                assert(is_run(evaluate, windows, next, x_a, x_b, x, y_a, y_b, y));
                return Err(RefutedVerdict { candidate });
            },
        }
    }
}

/// `windows` is the course of a search up to now, which goes on scanning
/// from `first`.
spec fn is_run_so_far<const CHUNK_SIZE: usize, F: Fn([u64; CHUNK_SIZE]) -> [bool; CHUNK_SIZE]>(
    evaluate: F,
    windows: Seq<(u64, [bool; CHUNK_SIZE])>,
    first: u64,
    x_a: u64,
    x_b: u64,
    x: u64,
    y_a: u64,
    y_b: u64,
    y: u64,
) -> bool {
    &&& if windows.len() > 0 {
        windows[0].0 == 0
    } else {
        first == 0
    }
    &&& forall|k: int|
        0 <= k < windows.len() ==> {
            &&& was_judged(evaluate, (#[trigger] windows[k]).0, windows[k].1)
            &&& is_next(
                Search::Scanning {
                    first: if k + 1 < windows.len() {
                        windows[k + 1].0
                    } else {
                        first
                    },
                },
                windows[k].0,
                windows[k].1@,
                x_a,
                x_b,
                x,
                y_a,
                y_b,
                y,
            )
        }
}

/// Where every false verdict for a lane within the bound is right, and no
/// candidate below the window extends to a solution, a hit is the solution
/// with the smallest `a`, an exhausted search means that the equations have
/// no solution, and a search that goes on has left no solution behind.
pub proof fn lemma_window_without_misses(
    next: Search,
    first: u64,
    verdicts: Seq<bool>,
    x_a: u64,
    x_b: u64,
    x: u64,
    y_a: u64,
    y_b: u64,
    y: u64,
)
    requires
        x_a != 0,
        y_a != 0,
        verdicts.len() > 0,
        no_solution_below(first as nat, x_a, x_b, x, y_a, y_b, y),
        forall|lane: int|
            0 <= lane < verdicts.len() && first + lane <= max_a(x_a, x, y_a, y) && !verdicts[lane]
                ==> !extends_to_solution((first + lane) as nat, x_a, x_b, x, y_a, y_b, y),
        is_next(next, first, verdicts, x_a, x_b, x, y_a, y_b, y),
    ensures
        match next {
            Search::Scanning { first: onward } => no_solution_below(
                onward as nat,
                x_a,
                x_b,
                x,
                y_a,
                y_b,
                y,
            ),
            Search::HitFound { solution } => is_first_solution(solution, x_a, x_b, x, y_a, y_b, y),
            Search::Exhausted => !has_solution(x_a, x_b, x, y_a, y_b, y),
            Search::Refuted { .. } => true,
        },
{
    let bound = max_a(x_a, x, y_a, y);
    lemma_lowest_true_or_none(verdicts);
    if none_true(verdicts) {
        assert forall|a: nat, b: nat|
            a < first + verdicts.len() && a <= bound implies !satisfies(
            a,
            b,
            x_a,
            x_b,
            x,
            y_a,
            y_b,
            y,
        ) by {
            if first <= a {
                assert(!verdicts[a - first]);
            }
        }
        if first + verdicts.len() > bound {
            lemma_exhausted(x_a, x_b, x, y_a, y_b, y);
        }
    } else {
        let lane = choose|lane: int| #[trigger] is_lowest_true(verdicts, lane);
        let candidate = (first + lane) as nat;
        assert(is_after_hit(next, candidate, x_a, x_b, x, y_a, y_b, y));
        assert forall|a: nat, b: nat| a < candidate && a <= bound implies !satisfies(
            a,
            b,
            x_a,
            x_b,
            x,
            y_a,
            y_b,
            y,
        ) by {
            if first <= a {
                assert(!verdicts[a - first]);
            }
        }
        if candidate > bound {
            lemma_exhausted(x_a, x_b, x, y_a, y_b, y);
        }
    }
}

/// A hit is never wrong, whatever the verdicts were: the solution satisfies
/// both equations, and its candidate lies in the window and within the bound.
pub proof fn lemma_hit_is_solution(
    next: Search,
    first: u64,
    verdicts: Seq<bool>,
    x_a: u64,
    x_b: u64,
    x: u64,
    y_a: u64,
    y_b: u64,
    y: u64,
)
    requires
        x_a != 0,
        y_a != 0,
        is_next(next, first, verdicts, x_a, x_b, x, y_a, y_b, y),
        next is HitFound,
    ensures
        satisfies(
            next->solution.a as nat,
            next->solution.b as nat,
            x_a,
            x_b,
            x,
            y_a,
            y_b,
            y,
        ),
        first <= next->solution.a < first + verdicts.len(),
        next->solution.a <= max_a(x_a, x, y_a, y),
{
    lemma_lowest_true_or_none(verdicts);
    let lane = choose|lane: int| #[trigger] is_lowest_true(verdicts, lane);
    assert(is_after_hit(next, (first + lane) as nat, x_a, x_b, x, y_a, y_b, y));
}

/// A search that goes on has moved its window by the window's width, and
/// the new window still starts within the bound: from 0, no more than
/// `max_a / width + 1` windows are judged.
pub proof fn lemma_scanning_advances(
    next: Search,
    first: u64,
    verdicts: Seq<bool>,
    x_a: u64,
    x_b: u64,
    x: u64,
    y_a: u64,
    y_b: u64,
    y: u64,
)
    requires
        x_a != 0,
        y_a != 0,
        is_next(next, first, verdicts, x_a, x_b, x, y_a, y_b, y),
        next is Scanning,
    ensures
        none_true(verdicts),
        next->first == first + verdicts.len(),
        next->first <= max_a(x_a, x, y_a, y),
{
    lemma_bound_at_most_totals(x_a, x, y_a, y);
    lemma_lowest_true_or_none(verdicts);
    if !none_true(verdicts) {
        let lane = choose|lane: int| #[trigger] is_lowest_true(verdicts, lane);
        assert(is_after_hit(next, (first + lane) as nat, x_a, x_b, x, y_a, y_b, y));
    }
}

/// A search judges no more windows than fit the bound: the windows start at
/// 0, `CHUNK_SIZE`, twice `CHUNK_SIZE` and so on, and every one of them
/// starts within the bound. So `max_a / CHUNK_SIZE + 1` windows at most are
/// judged, whether or not there is a solution.
pub proof fn lemma_run_is_bounded<const CHUNK_SIZE: usize, F: Fn([u64; CHUNK_SIZE]) -> [bool;
    CHUNK_SIZE]>(
    evaluate: F,
    windows: Seq<(u64, [bool; CHUNK_SIZE])>,
    end: Search,
    k: int,
    x_a: u64,
    x_b: u64,
    x: u64,
    y_a: u64,
    y_b: u64,
    y: u64,
)
    requires
        x_a != 0,
        y_a != 0,
        is_run(evaluate, windows, end, x_a, x_b, x, y_a, y_b, y),
        0 <= k < windows.len(),
    ensures
        windows[k].0 == k * CHUNK_SIZE,
        windows[k].0 <= max_a(x_a, x, y_a, y),
    decreases k,
{
    if k > 0 {
        lemma_run_is_bounded(evaluate, windows, end, k - 1, x_a, x_b, x, y_a, y_b, y);
        let before = windows[k - 1];
        lemma_scanning_advances(
            Search::Scanning { first: windows[k].0 },
            before.0,
            before.1@,
            x_a,
            x_b,
            x,
            y_a,
            y_b,
            y,
        );
        assert(before.1@.len() == CHUNK_SIZE);
        assert(k * CHUNK_SIZE == (k - 1) * CHUNK_SIZE + CHUNK_SIZE) by (nonlinear_arith);
    }
}

} // verus!
