//! Chunks: fixed-width groups of consecutive candidates, and the verdicts
//! that come back for them, lane by lane.

use vstd::prelude::*;

verus! {

/// The candidate in lane `lane` of the chunk that starts at `first`. Lanes
/// that would pass the largest representable value stay at it.
pub open spec fn lane_candidate(first: u64, lane: int) -> u64 {
    if first + lane <= u64::MAX {
        (first + lane) as u64
    } else {
        u64::MAX
    }
}

/// `lanes` is the chunk of consecutive candidates that starts at `first`.
pub open spec fn is_chunk_from<const CHUNK_SIZE: usize>(lanes: [u64; CHUNK_SIZE], first: u64) -> bool {
    forall|lane: int| 0 <= lane < CHUNK_SIZE ==> lanes[lane] == lane_candidate(first, lane)
}

/// `lane` is the lowest lane with a true verdict.
pub open spec fn is_lowest_true(verdicts: Seq<bool>, lane: int) -> bool {
    &&& 0 <= lane < verdicts.len()
    &&& verdicts[lane]
    &&& forall|below: int| 0 <= below < lane ==> !verdicts[below]
}

/// No lane has a true verdict.
pub open spec fn none_true(verdicts: Seq<bool>) -> bool {
    forall|lane: int| 0 <= lane < verdicts.len() ==> !verdicts[lane]
}

/// Every lane holds `value`.
pub fn splat<const CHUNK_SIZE: usize>(value: u64) -> (lanes: [u64; CHUNK_SIZE])
    ensures
        forall|lane: int| 0 <= lane < CHUNK_SIZE ==> lanes[lane] == value,
{
    [value;CHUNK_SIZE]
}

/// The chunk of consecutive candidates that starts at `first`: lane order is
/// candidate order.
pub fn chunk_candidates<const CHUNK_SIZE: usize>(first: u64) -> (lanes: [u64; CHUNK_SIZE])
    ensures
        is_chunk_from(lanes, first),
{
    let mut lanes = [first;CHUNK_SIZE];
    let mut candidate = first;
    let mut lane_index: usize = 0;
    while lane_index < CHUNK_SIZE
        invariant
            lane_index <= CHUNK_SIZE,
            candidate == lane_candidate(first, lane_index as int),
            forall|lane: int| 0 <= lane < lane_index ==> lanes[lane] == lane_candidate(first, lane),
        decreases CHUNK_SIZE - lane_index,
    {
        lanes[lane_index] = candidate;
        candidate = candidate.saturating_add(1);
        lane_index += 1;
    }
    lanes
}

/// The lowest lane with a true verdict, if any lane has one.
pub fn lowest_true_lane<const CHUNK_SIZE: usize>(verdicts: &[bool; CHUNK_SIZE]) -> (found: Option<
    usize,
>)
    ensures
        match found {
            Some(lane) => is_lowest_true(verdicts@, lane as int),
            None => none_true(verdicts@),
        },
{
    let mut lane_index: usize = 0;
    while lane_index < CHUNK_SIZE
        invariant
            lane_index <= CHUNK_SIZE,
            forall|below: int| 0 <= below < lane_index ==> !verdicts[below],
        decreases CHUNK_SIZE - lane_index,
    {
        if verdicts[lane_index] {
            return Some(lane_index);
        }
        lane_index += 1;
    }
    None
}

/// Where some lane has a true verdict, one of them is the lowest.
pub proof fn lemma_lowest_true_exists(verdicts: Seq<bool>, lane: int)
    requires
        0 <= lane < verdicts.len(),
        verdicts[lane],
    ensures
        exists|lowest: int| #[trigger] is_lowest_true(verdicts, lowest) && lowest <= lane,
    decreases lane,
{
    if exists|below: int| 0 <= below < lane && verdicts[below] {
        let below = choose|below: int| 0 <= below < lane && verdicts[below];
        lemma_lowest_true_exists(verdicts, below);
    } else {
        assert(is_lowest_true(verdicts, lane));
    }
}

/// Either no lane has a true verdict, or exactly one lane is the lowest
/// that has.
pub proof fn lemma_lowest_true_or_none(verdicts: Seq<bool>)
    ensures
        none_true(verdicts) != (exists|lane: int| #[trigger] is_lowest_true(verdicts, lane)),
        forall|lane: int, other: int|
            is_lowest_true(verdicts, lane) && is_lowest_true(verdicts, other) ==> lane == other,
{
    if !none_true(verdicts) {
        let lane = choose|lane: int| 0 <= lane < verdicts.len() && verdicts[lane];
        lemma_lowest_true_exists(verdicts, lane);
    }
    assert forall|lane: int, other: int|
        is_lowest_true(verdicts, lane) && is_lowest_true(verdicts, other) implies lane
        == other by {
        if lane < other {
            assert(!verdicts[lane]);
        }
        if other < lane {
            assert(!verdicts[other]);
        }
    }
}

/// Lane order is candidate order: in a chunk of consecutive candidates, no
/// lane with a true verdict holds a smaller candidate than the lowest true
/// lane does.
pub proof fn lemma_lowest_true_is_smallest<const CHUNK_SIZE: usize>(
    lanes: [u64; CHUNK_SIZE],
    first: u64,
    verdicts: [bool; CHUNK_SIZE],
    lowest: int,
    other: int,
)
    requires
        is_chunk_from(lanes, first),
        is_lowest_true(verdicts@, lowest),
        0 <= other < CHUNK_SIZE,
        verdicts[other],
    ensures
        lowest <= other,
        lanes[lowest] <= lanes[other],
{
    if other < lowest {
        assert(!verdicts@[other]);
    }
    assert(lanes[lowest] == lane_candidate(first, lowest));
    assert(lanes[other] == lane_candidate(first, other));
}

} // verus!
