//! The best placement of a query in a candidate, defined by recurrences that
//! a table can be filled from, and the proofs that these recurrences find a
//! placement of the highest score.

use vstd::prelude::*;
use crate::matching::{
    adjacent_pairs, chars_match, is_placement, is_subsequence, lead_bonus, placement_score,
    ADJACENT_BONUS,
};

verus! {

/// The larger of two optional scores; an absent score loses to a present one.
pub open spec fn better(a: Option<int>, b: Option<int>) -> Option<int> {
    match (a, b) {
        (Some(x), Some(y)) => if x >= y { a } else { b },
        (Some(_), None) => a,
        _ => b,
    }
}

/// A score raised by the bonus for one more adjacent pair.
pub open spec fn bump(a: Option<int>) -> Option<int> {
    match a {
        Some(x) => Some(x + ADJACENT_BONUS),
        None => None,
    }
}

/// The highest score of a placement of the first `i + 1` query characters
/// whose last position is exactly `j`, if there is such a placement.
pub open spec fn best_ending(query: Seq<char>, candidate: Seq<char>, i: int, j: int) -> Option<int>
    decreases i, j, 0int,
{
    if 0 <= i < query.len() && 0 <= j < candidate.len() && chars_match(query[i], candidate[j]) {
        if i == 0 {
            Some(lead_bonus(j))
        } else {
            better(
                bump(best_ending(query, candidate, i - 1, j - 1)),
                best_upto(query, candidate, i - 1, j - 2),
            )
        }
    } else {
        None
    }
}

/// The highest score of a placement of the first `i + 1` query characters
/// whose last position is `j` or lies before it, if there is such a placement.
pub open spec fn best_upto(query: Seq<char>, candidate: Seq<char>, i: int, j: int) -> Option<int>
    decreases i, j, 1int,
{
    if i < 0 || j < 0 {
        None
    } else if j == 0 {
        best_ending(query, candidate, i, j)
    } else {
        better(best_upto(query, candidate, i, j - 1), best_ending(query, candidate, i, j))
    }
}

/// Position `j` beats every earlier last position for the first `i + 1` query
/// characters.
pub open spec fn takes_new(query: Seq<char>, candidate: Seq<char>, i: int, j: int) -> bool {
    match (best_upto(query, candidate, i, j - 1), best_ending(query, candidate, i, j)) {
        (Some(earlier), Some(here)) => here > earlier,
        (None, Some(_)) => true,
        _ => false,
    }
}

/// The leftmost last position, at or before `j`, at which the score
/// `best_upto(.., i, j)` is reached.
pub open spec fn upto_pos(query: Seq<char>, candidate: Seq<char>, i: int, j: int) -> int
    decreases j,
{
    if j <= 0 {
        0
    } else if takes_new(query, candidate, i, j) {
        j
    } else {
        upto_pos(query, candidate, i, j - 1)
    }
}

/// The best placement that ends at `(i, j)` continues one that ends directly
/// before `j`, rather than one that ends further to the left.
pub open spec fn steps_adjacent(query: Seq<char>, candidate: Seq<char>, i: int, j: int) -> bool {
    match (
        bump(best_ending(query, candidate, i - 1, j - 1)),
        best_upto(query, candidate, i - 1, j - 2),
    ) {
        (Some(near), Some(far)) => near >= far,
        (Some(_), None) => true,
        _ => false,
    }
}

/// The position of query character `i - 1` in the best placement that puts
/// query character `i` at `j`.
pub open spec fn previous_pos(query: Seq<char>, candidate: Seq<char>, i: int, j: int) -> int {
    if steps_adjacent(query, candidate, i, j) {
        j - 1
    } else {
        upto_pos(query, candidate, i - 1, j - 2)
    }
}

/// The best placement of the first `i + 1` query characters that ends at `j`.
pub open spec fn trace(query: Seq<char>, candidate: Seq<char>, i: int, j: int) -> Seq<int>
    decreases i,
{
    if i <= 0 {
        seq![j]
    } else {
        trace(query, candidate, i - 1, previous_pos(query, candidate, i, j)).push(j)
    }
}

/// The highest score that a placement of `query` in `candidate` reaches, if
/// there is a placement at all. The empty query has the empty placement.
pub open spec fn best_score(query: Seq<char>, candidate: Seq<char>) -> Option<int> {
    if query.len() == 0 {
        Some(0)
    } else {
        best_upto(query, candidate, query.len() - 1, candidate.len() - 1)
    }
}

/// The placement that the matcher reports: one of the highest score. Among
/// several of them it ends as far left as it can, and then, going back from
/// the end, prefers the adjacent position to a more distant one.
pub open spec fn best_placement(query: Seq<char>, candidate: Seq<char>) -> Seq<int> {
    if query.len() == 0 {
        Seq::empty()
    } else {
        let i = query.len() - 1;
        trace(query, candidate, i, upto_pos(query, candidate, i, candidate.len() - 1))
    }
}

/// The score in `best_upto` is reached at the position `upto_pos`.
pub proof fn lemma_upto_reached(query: Seq<char>, candidate: Seq<char>, i: int, j: int)
    requires
        best_upto(query, candidate, i, j) is Some,
    ensures
        0 <= upto_pos(query, candidate, i, j) <= j,
        best_ending(query, candidate, i, upto_pos(query, candidate, i, j)) == best_upto(
            query,
            candidate,
            i,
            j,
        ),
    decreases j,
{
    if j > 0 && !takes_new(query, candidate, i, j) {
        lemma_upto_reached(query, candidate, i, j - 1);
    }
}

/// `best_upto` is at least as high as `best_ending` at every position up to
/// `j`.
pub proof fn lemma_upto_covers(query: Seq<char>, candidate: Seq<char>, i: int, j: int, k: int)
    requires
        0 <= k <= j,
        best_ending(query, candidate, i, k) is Some,
    ensures
        best_upto(query, candidate, i, j) is Some,
        best_upto(query, candidate, i, j)->0 >= best_ending(query, candidate, i, k)->0,
    decreases j,
{
    if k < j {
        lemma_upto_covers(query, candidate, i, j - 1, k);
    }
}

/// A prefix of a placement is a placement of the prefix of the query.
pub proof fn lemma_placement_prefix(query: Seq<char>, candidate: Seq<char>, at: Seq<int>, i: int)
    requires
        1 <= i < query.len(),
        is_placement(query.take(i + 1), candidate, at),
    ensures
        is_placement(query.take(i), candidate, at.drop_last()),
{
    let front = at.drop_last();
    assert forall|k: int| 0 <= k < front.len() implies chars_match(
        #[trigger] query.take(i)[k],
        candidate[front[k]],
    ) by {
        assert(chars_match(query.take(i + 1)[k], candidate[at[k]]));
    }
    assert forall|a: int, b: int| 0 <= a < b < front.len() implies #[trigger] front[a]
        < #[trigger] front[b] by {
        assert(at[a] < at[b]);
    }
    assert forall|k: int| 0 <= k < front.len() implies 0 <= #[trigger] front[k]
        < candidate.len() by {
        assert(0 <= at[k] < candidate.len());
    }
}

/// The score of a placement with one more position at its end.
pub proof fn lemma_score_push(at: Seq<int>, j: int)
    requires
        at.len() >= 1,
    ensures
        placement_score(at.push(j)) == placement_score(at) + if j == at.last() + 1 {
            ADJACENT_BONUS as int
        } else {
            0
        },
{
    let longer = at.push(j);
    assert(longer.drop_last() =~= at);
    assert(longer[0] == at[0]);
    assert(longer[longer.len() - 2] == at.last());
    let step: nat = if j == at.last() + 1 { 1 } else { 0 };
    assert(adjacent_pairs(longer) == adjacent_pairs(at) + step);
    assert(ADJACENT_BONUS * (adjacent_pairs(at) + step) == ADJACENT_BONUS * adjacent_pairs(at)
        + ADJACENT_BONUS * step) by (nonlinear_arith);
}

/// Where `best_ending` has a score, `trace` is a placement that ends at `j`
/// and has exactly that score.
pub proof fn lemma_trace_sound(query: Seq<char>, candidate: Seq<char>, i: int, j: int)
    requires
        best_ending(query, candidate, i, j) is Some,
    ensures
        is_placement(query.take(i + 1), candidate, trace(query, candidate, i, j)),
        trace(query, candidate, i, j).last() == j,
        placement_score(trace(query, candidate, i, j)) == best_ending(query, candidate, i, j)->0,
    decreases i,
{
    let found = trace(query, candidate, i, j);
    if i == 0 {
        assert(found =~= seq![j]);
        assert(query.take(1)[0] == query[0]);
        assert(adjacent_pairs(found) == 0);
    } else {
        let p = previous_pos(query, candidate, i, j);
        if !steps_adjacent(query, candidate, i, j) {
            lemma_upto_reached(query, candidate, i - 1, j - 2);
        }
        assert(best_ending(query, candidate, i - 1, p) is Some);
        assert(p < j);
        lemma_trace_sound(query, candidate, i - 1, p);
        let front = trace(query, candidate, i - 1, p);
        assert(found == front.push(j));
        assert(front.len() == i);
        lemma_score_push(front, j);
        assert forall|k: int| 0 <= k < found.len() implies 0 <= #[trigger] found[k]
            < candidate.len() by {
            if k < i {
                assert(found[k] == front[k]);
            }
        }
        assert forall|k: int| 0 <= k < found.len() implies chars_match(
            #[trigger] query.take(i + 1)[k],
            candidate[found[k]],
        ) by {
            if k < i {
                assert(found[k] == front[k]);
                assert(chars_match(query.take(i)[k], candidate[front[k]]));
            }
        }
        assert forall|a: int, b: int| 0 <= a < b < found.len() implies #[trigger] found[a]
            < #[trigger] found[b] by {
            assert(found[a] == front[a]);
            if b < i {
                assert(found[b] == front[b]);
            } else if a < i - 1 {
                assert(front[a] < front[i - 1]);
            }
        }
    }
}

/// No placement of the first `i + 1` query characters scores more than
/// `best_ending` at the position where it ends.
pub proof fn lemma_ending_optimal(query: Seq<char>, candidate: Seq<char>, i: int, at: Seq<int>)
    requires
        0 <= i < query.len(),
        is_placement(query.take(i + 1), candidate, at),
    ensures
        best_ending(query, candidate, i, at[i]) is Some,
        best_ending(query, candidate, i, at[i])->0 >= placement_score(at),
    decreases i,
{
    let j = at[i];
    assert(0 <= at[i] < candidate.len());
    assert(chars_match(query.take(i + 1)[i], candidate[at[i]]));
    if i == 0 {
        assert(adjacent_pairs(at) == 0);
    } else {
        let front = at.drop_last();
        lemma_placement_prefix(query, candidate, at, i);
        lemma_ending_optimal(query, candidate, i - 1, front);
        assert(front[i - 1] == at[i - 1]);
        assert(at[i - 1] < at[i]);
        assert(at =~= front.push(j));
        lemma_score_push(front, j);
        if at[i - 1] < j - 1 {
            lemma_upto_covers(query, candidate, i - 1, j - 2, at[i - 1]);
        }
    }
}

/// The reported placement is a placement, its score is `best_score`, and no
/// placement of the query scores more. There is a best score exactly when the
/// query is a subsequence of the candidate.
pub proof fn lemma_best_placement(query: Seq<char>, candidate: Seq<char>)
    ensures
        best_score(query, candidate) is Some <==> is_subsequence(query, candidate),
        best_score(query, candidate) is Some ==> {
            &&& is_placement(query, candidate, best_placement(query, candidate))
            &&& placement_score(best_placement(query, candidate)) == best_score(
                query,
                candidate,
            )->0
        },
        forall|at: Seq<int>| #[trigger]
            is_placement(query, candidate, at) ==> best_score(query, candidate) is Some
                && placement_score(at) <= best_score(query, candidate)->0,
{
    let m = query.len() as int;
    let n = candidate.len() as int;
    if m == 0 {
        assert(is_placement(query, candidate, Seq::<int>::empty()));
    } else {
        assert(query.take(m) =~= query);
        if best_score(query, candidate) is Some {
            lemma_upto_reached(query, candidate, m - 1, n - 1);
            lemma_trace_sound(query, candidate, m - 1, upto_pos(query, candidate, m - 1, n - 1));
        }
        assert forall|at: Seq<int>| #[trigger]
            is_placement(query, candidate, at) implies best_score(query, candidate) is Some
            && placement_score(at) <= best_score(query, candidate)->0 by {
            lemma_ending_optimal(query, candidate, m - 1, at);
            assert(0 <= at[m - 1] < n);
            lemma_upto_covers(query, candidate, m - 1, n - 1, at[m - 1]);
        }
    }
}

} // verus!
