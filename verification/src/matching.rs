//! What it means for a query to match a candidate name, and how a match is
//! scored.
//!
//! A query matches a candidate when its characters occur in the candidate in
//! the same order, not necessarily next to each other, compared without
//! regard to ASCII case. The places where the query's characters are found
//! form a *placement*. Of all placements the matcher reports the one with the
//! highest score.

use vstd::prelude::*;
use crate::text::fold_char;

verus! {

/// Earned by every query character that directly follows the one before it.
pub const ADJACENT_BONUS: u128 = 100;

/// Earned by a match that starts at the first character of the candidate; a
/// match that starts one place later earns one less, down to zero.
pub const LEAD_BONUS: u128 = 99;

/// Earned by a match that uses up the whole candidate.
pub const EXACT_BONUS: u128 = 100;

/// Two characters match when they are equal after case folding.
pub open spec fn chars_match(a: char, b: char) -> bool {
    fold_char(a) == fold_char(b)
}

/// `at` places every character of `query` on a matching character of
/// `candidate`, strictly from left to right.
pub open spec fn is_placement(query: Seq<char>, candidate: Seq<char>, at: Seq<int>) -> bool {
    &&& at.len() == query.len()
    &&& forall|i: int| 0 <= i < at.len() ==> 0 <= #[trigger] at[i] < candidate.len()
    &&& forall|i: int| 0 <= i < at.len() ==> chars_match(#[trigger] query[i], candidate[at[i]])
    &&& forall|i: int, j: int| 0 <= i < j < at.len() ==> #[trigger] at[i] < #[trigger] at[j]
}

/// The query's characters occur in the candidate in order.
pub open spec fn is_subsequence(query: Seq<char>, candidate: Seq<char>) -> bool {
    exists|at: Seq<int>| is_placement(query, candidate, at)
}

/// The query occurs in the candidate as one unbroken run that starts at
/// `start`.
pub open spec fn occurs_at(query: Seq<char>, candidate: Seq<char>, start: int) -> bool {
    &&& 0 <= start
    &&& start + query.len() <= candidate.len()
    &&& forall|i: int| 0 <= i < query.len() ==> chars_match(#[trigger] query[i], candidate[start + i])
}

/// The query occurs somewhere in the candidate as one unbroken run.
pub open spec fn is_substring(query: Seq<char>, candidate: Seq<char>) -> bool {
    exists|start: int| occurs_at(query, candidate, start)
}

/// The positions `start, start + 1, ..` of a run of `len` characters.
pub open spec fn run(start: int, len: nat) -> Seq<int> {
    Seq::new(len, |i: int| start + i)
}

/// How many positions of `at` directly follow the position before them.
pub open spec fn adjacent_pairs(at: Seq<int>) -> nat
    decreases at.len(),
{
    if at.len() <= 1 {
        0
    } else {
        let last = at.len() - 1;
        let step: nat = if at[last] == at[last - 1] + 1 { 1 } else { 0 };
        adjacent_pairs(at.drop_last()) + step
    }
}

/// What a match earns for starting at position `start`.
pub open spec fn lead_bonus(start: int) -> int {
    if start < LEAD_BONUS {
        LEAD_BONUS - start
    } else {
        0
    }
}

/// The score of a placement by itself: the bonus for where it starts plus the
/// bonus for each adjacent pair. The empty placement scores nothing.
pub open spec fn placement_score(at: Seq<int>) -> int {
    if at.len() == 0 {
        0
    } else {
        lead_bonus(at[0]) + ADJACENT_BONUS * adjacent_pairs(at)
    }
}

/// The bonus for a candidate that the query uses up entirely.
pub open spec fn exact_bonus(query: Seq<char>, candidate: Seq<char>) -> int {
    if query.len() == candidate.len() {
        EXACT_BONUS as int
    } else {
        0
    }
}

/// The score of matching `query` against `candidate` through the placement
/// `at`.
pub open spec fn match_score(query: Seq<char>, candidate: Seq<char>, at: Seq<int>) -> int {
    placement_score(at) + exact_bonus(query, candidate)
}

/// A placement has at most one adjacent pair per position after the first.
pub proof fn lemma_adjacent_pairs_bound(at: Seq<int>)
    ensures
        adjacent_pairs(at) <= at.len(),
        at.len() >= 1 ==> adjacent_pairs(at) <= at.len() - 1,
    decreases at.len(),
{
    if at.len() > 1 {
        lemma_adjacent_pairs_bound(at.drop_last());
    }
}

/// The score of a placement of a non-empty query lies between zero and the
/// score of an unbroken run at the very start of the candidate.
pub proof fn lemma_placement_score_bounds(at: Seq<int>)
    requires
        at.len() >= 1,
        at[0] >= 0,
    ensures
        0 <= placement_score(at) <= LEAD_BONUS + ADJACENT_BONUS * (at.len() - 1),
{
    lemma_adjacent_pairs_bound(at);
    assert(ADJACENT_BONUS * adjacent_pairs(at) <= ADJACENT_BONUS * (at.len() - 1)) by (nonlinear_arith)
        requires
            adjacent_pairs(at) <= at.len() - 1,
    ;
    assert(0 <= ADJACENT_BONUS * adjacent_pairs(at)) by (nonlinear_arith);
}

/// A placement in which every position follows the one before it is a run.
pub proof fn lemma_all_adjacent_is_run(at: Seq<int>)
    requires
        at.len() >= 1,
        adjacent_pairs(at) == at.len() - 1,
    ensures
        at =~= run(at[0], at.len()),
    decreases at.len(),
{
    if at.len() > 1 {
        let front = at.drop_last();
        lemma_adjacent_pairs_bound(front);
        lemma_all_adjacent_is_run(front);
        assert forall|i: int| 0 <= i < at.len() implies #[trigger] at[i] == at[0] + i by {
            if i < at.len() - 1 {
                assert(front[i] == run(front[0], front.len())[i]);
            } else {
                assert(front[i - 1] == run(front[0], front.len())[i - 1]);
            }
        }
    }
}

/// In a run every position follows the one before it.
pub proof fn lemma_run_is_all_adjacent(start: int, len: nat)
    requires
        len >= 1,
    ensures
        adjacent_pairs(run(start, len)) == len - 1,
    decreases len,
{
    if len > 1 {
        lemma_run_is_all_adjacent(start, (len - 1) as nat);
        assert(run(start, len).drop_last() =~= run(start, (len - 1) as nat));
    }
}

/// Where the query occurs as an unbroken run, the run is a placement, and no
/// placement of that query scores more adjacent pairs.
pub proof fn lemma_occurrence_is_placement(query: Seq<char>, candidate: Seq<char>, start: int)
    requires
        query.len() >= 1,
        occurs_at(query, candidate, start),
    ensures
        is_placement(query, candidate, run(start, query.len())),
        placement_score(run(start, query.len())) == lead_bonus(start) + ADJACENT_BONUS * (
        query.len() - 1),
{
    lemma_run_is_all_adjacent(start, query.len());
}

/// The positions of a placement never run ahead of the candidate: the `i`-th
/// lies at or after `i`, and leaves room for the positions that follow it.
pub proof fn lemma_placement_positions(query: Seq<char>, candidate: Seq<char>, at: Seq<int>, i: int)
    requires
        is_placement(query, candidate, at),
        0 <= i < at.len(),
    ensures
        i <= at[i],
        at[i] + (at.len() - i) <= candidate.len(),
{
    lemma_increasing_gaps(at, 0, i);
    lemma_increasing_gaps(at, i, at.len() - 1);
    assert(0 <= at[0]);
    assert(at[at.len() - 1] < candidate.len());
}

/// Between two positions of a strictly increasing sequence lie at least as
/// many places as between their indices.
pub proof fn lemma_increasing_gaps(at: Seq<int>, i: int, j: int)
    requires
        forall|a: int, b: int| 0 <= a < b < at.len() ==> #[trigger] at[a] < #[trigger] at[b],
        0 <= i <= j < at.len(),
    ensures
        at[j] - at[i] >= j - i,
    decreases j - i,
{
    if i < j {
        lemma_increasing_gaps(at, i, j - 1);
        assert(at[j - 1] < at[j]);
    }
}

/// A query as long as the candidate matches it only character by character:
/// the two are equal after case folding.
pub proof fn lemma_full_length_match_is_exact(query: Seq<char>, candidate: Seq<char>, at: Seq<int>)
    requires
        is_placement(query, candidate, at),
        query.len() == candidate.len(),
    ensures
        at =~= run(0, query.len()),
        forall|i: int| 0 <= i < query.len() ==> chars_match(#[trigger] query[i], candidate[i]),
{
    assert forall|i: int| 0 <= i < at.len() implies #[trigger] at[i] == i by {
        lemma_placement_positions(query, candidate, at, i);
    }
    assert forall|i: int| 0 <= i < query.len() implies chars_match(
        #[trigger] query[i],
        candidate[i],
    ) by {
        assert(at[i] == i);
    }
}

} // verus!
