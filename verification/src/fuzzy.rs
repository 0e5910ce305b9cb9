//! The fuzzy matcher: finds the best placement of a query in a candidate name
//! by filling a table row by row and reading the placement back from it.

use vstd::prelude::*;
use vstd::string::StringExecFns;
use crate::matching::{
    adjacent_pairs, chars_match, exact_bonus, is_placement, is_subsequence, is_substring,
    lead_bonus, lemma_adjacent_pairs_bound, lemma_all_adjacent_is_run,
    lemma_full_length_match_is_exact, lemma_occurrence_is_placement,
    lemma_placement_score_bounds, match_score, occurs_at, placement_score, run, ADJACENT_BONUS,
    EXACT_BONUS, LEAD_BONUS,
};
use crate::optimum::{
    best_ending, best_placement, best_score, best_upto, bump, lemma_best_placement,
    lemma_trace_sound, lemma_upto_reached, previous_pos, steps_adjacent, trace, upto_pos,
};
use crate::text::{chars_of, fold_case};

verus! {

/// One candidate that a query matched.
#[derive(Debug)]
pub struct MatchResult {
    /// The candidate, as it is stored.
    pub country_name: String,
    /// The score of the match; a higher score is a better match.
    pub score: u128,
    /// The places in `country_name`, counted in characters from zero, where
    /// the characters of the query were found, in increasing order.
    pub matched_indices: Vec<usize>,
}

/// A match as a mathematical value.
pub struct MatchView {
    pub country_name: Seq<char>,
    pub score: int,
    pub matched_indices: Seq<int>,
}

/// A sequence of machine indices as a sequence of integers.
pub open spec fn positions(v: Seq<usize>) -> Seq<int> {
    v.map_values(|p: usize| p as int)
}

impl View for MatchResult {
    type V = MatchView;

    open spec fn view(&self) -> MatchView {
        MatchView {
            country_name: self.country_name@,
            score: self.score as int,
            matched_indices: positions(self.matched_indices@),
        }
    }
}

/// What the matcher reports for a query and a candidate: nothing where the
/// query is no subsequence of the candidate, else the best placement with its
/// score.
pub open spec fn fuzzy_match_spec(query: Seq<char>, candidate: Seq<char>) -> Option<MatchView> {
    match best_score(query, candidate) {
        Some(score) => Some(
            MatchView {
                country_name: candidate,
                score: score + exact_bonus(query, candidate),
                matched_indices: best_placement(query, candidate),
            },
        ),
        None => None,
    }
}

/// The view of an optional match.
pub open spec fn match_view(found: Option<MatchResult>) -> Option<MatchView> {
    match found {
        Some(r) => Some(r@),
        None => None,
    }
}

/// A table cell holds the score `v`.
spec fn holds(cell: Option<u128>, v: Option<int>) -> bool {
    match cell {
        Some(x) => v == Some(x as int),
        None => v is None,
    }
}

/// One row of the table: for one query character, the best scores at and up to
/// each candidate position, and where the latter are reached.
struct Row {
    ending: Vec<Option<u128>>,
    upto: Vec<Option<u128>>,
    reached: Vec<usize>,
}

impl Row {
    /// The row holds what the recurrences give for query character `i`.
    spec fn fits(&self, query: Seq<char>, candidate: Seq<char>, i: int) -> bool {
        &&& self.ending.len() == candidate.len()
        &&& self.upto.len() == candidate.len()
        &&& self.reached.len() == candidate.len()
        &&& forall|j: int|
            0 <= j < candidate.len() ==> holds(
                #[trigger] self.ending[j],
                best_ending(query, candidate, i, j),
            )
        &&& forall|j: int|
            0 <= j < candidate.len() ==> holds(
                #[trigger] self.upto[j],
                best_upto(query, candidate, i, j),
            )
        &&& forall|j: int|
            0 <= j < candidate.len() ==> #[trigger] self.reached[j] == upto_pos(
                query,
                candidate,
                i,
                j,
            )
    }
}

/// A score found by the recurrences fits the table's cells with room to spare.
proof fn lemma_ending_bound(query: Seq<char>, candidate: Seq<char>, i: int, j: int)
    requires
        best_ending(query, candidate, i, j) is Some,
    ensures
        0 <= i < query.len(),
        0 <= j < candidate.len(),
        0 <= best_ending(query, candidate, i, j)->0 <= LEAD_BONUS + ADJACENT_BONUS * i,
{
    lemma_trace_sound(query, candidate, i, j);
    let found = trace(query, candidate, i, j);
    assert(0 <= found[0]);
    lemma_placement_score_bounds(found);
}

/// Whether two characters match.
fn chars_match_exec(a: char, b: char) -> (r: bool)
    ensures
        r == chars_match(a, b),
{
    fold_case(a) == fold_case(b)
}

/// The bonus for a match that starts at `start`.
fn lead_bonus_exec(start: usize) -> (r: u128)
    ensures
        r == lead_bonus(start as int),
{
    if start < 99 {
        LEAD_BONUS - (start as u128)
    } else {
        0
    }
}

/// The better of a placement that continues at the adjacent position and one
/// that continues from further left.
fn pick(near: Option<u128>, far: Option<u128>) -> (r: Option<u128>)
    ensures
        r == (match (near, far) {
            (Some(x), Some(y)) => if x >= y { near } else { far },
            (Some(_), None) => near,
            _ => far,
        }),
{
    match (near, far) {
        (Some(x), Some(y)) => if x >= y { near } else { far },
        (Some(_), None) => near,
        _ => far,
    }
}

/// The score of the adjacent continuation at `(i, j)`, read from the row of
/// query character `i - 1`.
fn near_score(query: &Vec<char>, candidate: &Vec<char>, i: usize, j: usize, prev: &Row) -> (r:
    Option<u128>)
    requires
        0 < i < query.len(),
        j < candidate.len(),
        prev.fits(query@, candidate@, i - 1),
    ensures
        holds(r, bump(best_ending(query@, candidate@, i - 1, j - 1))),
{
    if j >= 1 {
        match prev.ending[j - 1] {
            Some(x) => {
                proof {
                    lemma_ending_bound(query@, candidate@, i - 1, j - 1);
                    assert(ADJACENT_BONUS * (i - 1) <= ADJACENT_BONUS * usize::MAX)
                        by (nonlinear_arith)
                        requires
                            i - 1 <= usize::MAX,
                    ;
                }
                Some(x + ADJACENT_BONUS)
            },
            None => None,
        }
    } else {
        None
    }
}

/// The score of the best continuation from further left at `(i, j)`, read
/// from the row of query character `i - 1`.
fn far_score(query: &Vec<char>, candidate: &Vec<char>, i: usize, j: usize, prev: &Row) -> (r:
    Option<u128>)
    requires
        0 < i < query.len(),
        j < candidate.len(),
        prev.fits(query@, candidate@, i - 1),
    ensures
        holds(r, best_upto(query@, candidate@, i - 1, j - 2)),
{
    if j >= 2 {
        prev.upto[j - 2]
    } else {
        None
    }
}

/// The table cell for query character `i` at candidate position `j`.
fn ending_cell(query: &Vec<char>, candidate: &Vec<char>, i: usize, j: usize, prev: &Row) -> (r:
    Option<u128>)
    requires
        i < query.len(),
        j < candidate.len(),
        i > 0 ==> prev.fits(query@, candidate@, i - 1),
    ensures
        holds(r, best_ending(query@, candidate@, i as int, j as int)),
{
    if chars_match_exec(query[i], candidate[j]) {
        if i == 0 {
            Some(lead_bonus_exec(j))
        } else {
            let near = near_score(query, candidate, i, j, prev);
            let far = far_score(query, candidate, i, j, prev);
            pick(near, far)
        }
    } else {
        None
    }
}

/// The table row for query character `i`, from the row before it.
fn next_row(query: &Vec<char>, candidate: &Vec<char>, i: usize, prev: &Row) -> (row: Row)
    requires
        i < query.len(),
        i > 0 ==> prev.fits(query@, candidate@, i - 1),
    ensures
        row.fits(query@, candidate@, i as int),
{
    let n = candidate.len();
    let mut ending: Vec<Option<u128>> = Vec::new();
    let mut upto: Vec<Option<u128>> = Vec::new();
    let mut reached: Vec<usize> = Vec::new();
    let mut j: usize = 0;
    while j < n
        invariant
            j <= n,
            n == candidate.len(),
            i < query.len(),
            i > 0 ==> prev.fits(query@, candidate@, i - 1),
            ending.len() == j,
            upto.len() == j,
            reached.len() == j,
            forall|k: int|
                0 <= k < j ==> holds(#[trigger] ending[k], best_ending(query@, candidate@, i as int, k)),
            forall|k: int|
                0 <= k < j ==> holds(#[trigger] upto[k], best_upto(query@, candidate@, i as int, k)),
            forall|k: int|
                0 <= k < j ==> #[trigger] reached[k] == upto_pos(query@, candidate@, i as int, k),
        decreases n - j,
    {
        let here = ending_cell(query, candidate, i, j, prev);
        let mut best = here;
        let mut place = j;
        if j > 0 {
            let earlier = upto[j - 1];
            let takes = match (earlier, here) {
                (Some(e), Some(h)) => h > e,
                (None, Some(_)) => true,
                _ => false,
            };
            if !takes {
                best = earlier;
                place = reached[j - 1];
            }
        }
        ending.push(here);
        upto.push(best);
        reached.push(place);
        j += 1;
    }
    Row { ending, upto, reached }
}

/// All rows of the table for a non-empty query.
fn fill_table(query: &Vec<char>, candidate: &Vec<char>) -> (rows: Vec<Row>)
    requires
        query.len() >= 1,
    ensures
        rows.len() == query.len(),
        forall|i: int| 0 <= i < rows.len() ==> (#[trigger] rows[i]).fits(query@, candidate@, i),
{
    let m = query.len();
    let mut rows: Vec<Row> = Vec::new();
    let first = Row { ending: Vec::new(), upto: Vec::new(), reached: Vec::new() };
    let row = next_row(query, candidate, 0, &first);
    rows.push(row);
    let mut i: usize = 1;
    while i < m
        invariant
            1 <= i <= m,
            m == query.len(),
            rows.len() == i,
            forall|k: int| 0 <= k < rows.len() ==> (#[trigger] rows[k]).fits(query@, candidate@, k),
        decreases m - i,
    {
        let row = next_row(query, candidate, i, &rows[i - 1]);
        rows.push(row);
        i += 1;
    }
    rows
}

/// Whether the best placement that puts query character `i` at `j` continues
/// from the adjacent position.
fn steps_adjacent_exec(query: &Vec<char>, candidate: &Vec<char>, i: usize, j: usize, prev: &Row) -> (r:
    bool)
    requires
        0 < i < query.len(),
        j < candidate.len(),
        prev.fits(query@, candidate@, i - 1),
    ensures
        r == steps_adjacent(query@, candidate@, i as int, j as int),
{
    let near = near_score(query, candidate, i, j, prev);
    let far = far_score(query, candidate, i, j, prev);
    match (near, far) {
        (Some(x), Some(y)) => x >= y,
        (Some(_), None) => true,
        _ => false,
    }
}

/// The best placement that ends at `end`, read back from the table.
fn read_back(query: &Vec<char>, candidate: &Vec<char>, rows: &Vec<Row>, end: usize) -> (at: Vec<
    usize,
>)
    requires
        query.len() >= 1,
        rows.len() == query.len(),
        forall|i: int| 0 <= i < rows.len() ==> (#[trigger] rows[i]).fits(query@, candidate@, i),
        best_ending(query@, candidate@, query.len() - 1, end as int) is Some,
    ensures
        positions(at@) == trace(query@, candidate@, query.len() - 1, end as int),
{
    let m = query.len();
    let ghost full = trace(query@, candidate@, m - 1, end as int);
    proof {
        lemma_trace_sound(query@, candidate@, m - 1, end as int);
        assert(full.take(m as int) =~= full);
    }
    let mut at: Vec<usize> = Vec::new();
    let mut filled: usize = 0;
    while filled < m
        invariant
            filled <= m,
            at.len() == filled,
        decreases m - filled,
    {
        at.push(0);
        filled += 1;
    }
    let mut k: usize = m;
    let mut p: usize = end;
    while k > 0
        invariant
            k <= m,
            m == query.len(),
            m == rows.len(),
            at.len() == m,
            full.len() == m,
            forall|i: int| 0 <= i < rows.len() ==> (#[trigger] rows[i]).fits(query@, candidate@, i),
            k > 0 ==> best_ending(query@, candidate@, k - 1, p as int) is Some,
            k > 0 ==> full.take(k as int) == trace(query@, candidate@, k - 1, p as int),
            forall|t: int| k <= t < m ==> #[trigger] at[t] == full[t],
        decreases k,
    {
        let i = k - 1;
        proof {
            lemma_trace_sound(query@, candidate@, i as int, p as int);
            lemma_ending_bound(query@, candidate@, i as int, p as int);
            assert(full[i as int] == full.take(k as int)[i as int]);
        }
        at.set(i, p);
        if i > 0 {
            let prev = &rows[i - 1];
            let ghost before = previous_pos(query@, candidate@, i as int, p as int);
            let q: usize;
            if steps_adjacent_exec(query, candidate, i, p, prev) {
                q = p - 1;
            } else {
                proof {
                    lemma_upto_reached(query@, candidate@, i - 1, p - 2);
                }
                q = prev.reached[p - 2];
            }
            proof {
                assert(q == before);
                let shorter = trace(query@, candidate@, i - 1, before);
                assert(trace(query@, candidate@, i as int, p as int) == shorter.push(p as int));
                assert(full.take(i as int) =~= shorter);
            }
            p = q;
        }
        k = i;
    }
    proof {
        assert(positions(at@) =~= full);
    }
    at
}

/// The best placement of `query` in `candidate` and its score with the bonus
/// for an exact match, or nothing where the query is no subsequence of the
/// candidate.
pub fn match_chars(query: &Vec<char>, candidate: &Vec<char>) -> (res: Option<(u128, Vec<usize>)>)
    ensures
        res is Some <==> best_score(query@, candidate@) is Some,
        res matches Some((score, at)) ==> {
            &&& score == best_score(query@, candidate@)->0 + exact_bonus(query@, candidate@)
            &&& positions(at@) == best_placement(query@, candidate@)
        },
{
    let m = query.len();
    let n = candidate.len();
    let bonus: u128 = if m == n { EXACT_BONUS } else { 0 };
    if m == 0 {
        let at: Vec<usize> = Vec::new();
        proof {
            assert(positions(at@) =~= Seq::<int>::empty());
        }
        return Some((bonus, at));
    }
    if n == 0 {
        return None;
    }
    let rows = fill_table(query, candidate);
    let last = &rows[m - 1];
    match last.upto[n - 1] {
        Some(score) => {
            let end = last.reached[n - 1];
            proof {
                lemma_upto_reached(query@, candidate@, m - 1, n - 1);
                lemma_ending_bound(query@, candidate@, m - 1, end as int);
                assert(ADJACENT_BONUS * (m - 1) <= ADJACENT_BONUS * usize::MAX)
                    by (nonlinear_arith)
                    requires
                        m - 1 <= usize::MAX,
                ;
            }
            let at = read_back(query, candidate, &rows, end);
            Some((score + bonus, at))
        },
        None => None,
    }
}

/// Matches `query` against `candidate`.
///
/// The query matches when its characters occur in the candidate in order,
/// compared without regard to ASCII case. The result then names the
/// candidate, the best placement of the query in it, and the score of that
/// placement; no placement scores more. The empty query matches every
/// candidate with the empty placement.
pub fn fuzzy_match(query: &str, candidate: &str) -> (res: Option<MatchResult>)
    ensures
        match_view(res) == fuzzy_match_spec(query@, candidate@),
        res is Some <==> is_subsequence(query@, candidate@),
        res matches Some(r) ==> {
            &&& r.country_name@ == candidate@
            &&& is_placement(query@, candidate@, r@.matched_indices)
            &&& r@.score == match_score(query@, candidate@, r@.matched_indices)
            &&& forall|at: Seq<int>| #[trigger]
                is_placement(query@, candidate@, at) ==> match_score(query@, candidate@, at)
                    <= r@.score
        },
{
    let q = chars_of(query);
    let c = chars_of(candidate);
    proof {
        lemma_best_placement(query@, candidate@);
    }
    match match_chars(&q, &c) {
        Some((score, at)) => {
            let r = MatchResult {
                country_name: String::from_str(candidate),
                score,
                matched_indices: at,
            };
            Some(r)
        },
        None => None,
    }
}

/// A placement that reaches the score of an unbroken run is an unbroken run,
/// and the query occurs where it starts.
pub proof fn lemma_top_score_is_run(query: Seq<char>, candidate: Seq<char>, at: Seq<int>)
    requires
        query.len() >= 1,
        is_placement(query, candidate, at),
        placement_score(at) >= ADJACENT_BONUS * (query.len() - 1),
    ensures
        at == run(at[0], query.len()),
        occurs_at(query, candidate, at[0]),
{
    lemma_adjacent_pairs_bound(at);
    assert(0 <= at[0]);
    assert(adjacent_pairs(at) >= at.len() - 1) by (nonlinear_arith)
        requires
            lead_bonus(at[0]) + ADJACENT_BONUS * adjacent_pairs(at) >= ADJACENT_BONUS * (at.len()
                - 1),
            lead_bonus(at[0]) < ADJACENT_BONUS,
            ADJACENT_BONUS == 100,
    ;
    lemma_all_adjacent_is_run(at);
    assert forall|i: int| 0 <= i < query.len() implies chars_match(
        #[trigger] query[i],
        candidate[at[0] + i],
    ) by {
        assert(at[i] == at[0] + i);
    }
    assert(at[query.len() - 1] < candidate.len());
}

/// A query that occurs in a candidate as one unbroken run is matched there:
/// the reported places are an unbroken run over an occurrence of the query,
/// and no occurrence earns more for where it starts. So among the first
/// `LEAD_BONUS` places the leftmost occurrence is the one reported.
pub proof fn lemma_substring_is_matched_in_place(query: Seq<char>, candidate: Seq<char>)
    requires
        query.len() >= 1,
        is_substring(query, candidate),
    ensures
        fuzzy_match_spec(query, candidate) is Some,
        ({
            let found = fuzzy_match_spec(query, candidate)->0.matched_indices;
            &&& found == run(found[0], query.len())
            &&& occurs_at(query, candidate, found[0])
            &&& forall|start: int| #[trigger]
                occurs_at(query, candidate, start) ==> lead_bonus(start) <= lead_bonus(found[0])
        }),
{
    let first = choose|start: int| occurs_at(query, candidate, start);
    lemma_occurrence_is_placement(query, candidate, first);
    lemma_best_placement(query, candidate);
    let found = best_placement(query, candidate);
    assert(is_placement(query, candidate, run(first, query.len())));
    lemma_top_score_is_run(query, candidate, found);
    lemma_adjacent_pairs_bound(found);
    assert forall|start: int| #[trigger] occurs_at(query, candidate, start) implies lead_bonus(
        start,
    ) <= lead_bonus(found[0]) by {
        lemma_occurrence_is_placement(query, candidate, start);
        assert(is_placement(query, candidate, run(start, query.len())));
        assert(ADJACENT_BONUS * adjacent_pairs(found) <= ADJACENT_BONUS * (query.len() - 1))
            by (nonlinear_arith)
            requires
                adjacent_pairs(found) <= query.len() - 1,
        ;
    }
}

/// A candidate in which the query occurs as one unbroken run scores strictly
/// more than a candidate in which its characters are only found scattered,
/// whatever the lengths of the two candidates are.
pub proof fn lemma_run_beats_scattered(query: Seq<char>, whole: Seq<char>, scattered: Seq<char>)
    requires
        query.len() >= 1,
        is_substring(query, whole),
        is_subsequence(query, scattered),
        !is_substring(query, scattered),
    ensures
        fuzzy_match_spec(query, whole) is Some,
        fuzzy_match_spec(query, scattered) is Some,
        fuzzy_match_spec(query, whole)->0.score > fuzzy_match_spec(query, scattered)->0.score,
{
    lemma_substring_is_matched_in_place(query, whole);
    lemma_best_placement(query, whole);
    lemma_best_placement(query, scattered);
    let first = choose|start: int| occurs_at(query, whole, start);
    lemma_occurrence_is_placement(query, whole, first);
    assert(is_placement(query, whole, run(first, query.len())));
    let found = best_placement(query, scattered);
    if placement_score(found) >= ADJACENT_BONUS * (query.len() - 1) {
        lemma_top_score_is_run(query, scattered, found);
    }
    if query.len() == scattered.len() {
        lemma_full_length_match_is_exact(query, scattered, found);
        assert(occurs_at(query, scattered, 0));
    }
}

/// A candidate that the query matches in full scores strictly more than any
/// candidate of another length.
pub proof fn lemma_exact_match_scores_highest(query: Seq<char>, exact: Seq<char>, other: Seq<char>)
    requires
        query.len() >= 1,
        exact.len() == query.len(),
        other.len() != query.len(),
        is_subsequence(query, exact),
        is_subsequence(query, other),
    ensures
        fuzzy_match_spec(query, exact) is Some,
        fuzzy_match_spec(query, other) is Some,
        fuzzy_match_spec(query, exact)->0.score == LEAD_BONUS + ADJACENT_BONUS * (query.len() - 1)
            + EXACT_BONUS,
        fuzzy_match_spec(query, exact)->0.score > fuzzy_match_spec(query, other)->0.score,
{
    lemma_best_placement(query, exact);
    lemma_best_placement(query, other);
    let full = best_placement(query, exact);
    lemma_full_length_match_is_exact(query, exact, full);
    assert(occurs_at(query, exact, 0));
    lemma_occurrence_is_placement(query, exact, 0);
    let found = best_placement(query, other);
    assert(0 <= found[0]);
    lemma_placement_score_bounds(found);
}

/// Of two placements with equally many adjacent pairs, the one that starts
/// earlier scores more, as long as it starts among the first `LEAD_BONUS`
/// places.
pub proof fn lemma_earlier_start_scores_higher(early: Seq<int>, late: Seq<int>)
    requires
        early.len() >= 1,
        late.len() >= 1,
        adjacent_pairs(early) == adjacent_pairs(late),
        0 <= early[0] < late[0],
        early[0] < LEAD_BONUS,
    ensures
        placement_score(early) > placement_score(late),
{
}

/// The matcher depends on nothing but the two strings: what it reports for
/// the same query and candidate is the same every time.
pub proof fn lemma_match_is_determined(
    query: Seq<char>,
    candidate: Seq<char>,
    first: Option<MatchView>,
    second: Option<MatchView>,
)
    requires
        first == fuzzy_match_spec(query, candidate),
        second == fuzzy_match_spec(query, candidate),
    ensures
        first == second,
{
}

/// The places that are to be marked in a name of `len` characters: one flag
/// for each character, set for the matched places.
pub open spec fn highlight_spec(len: nat, matched: Seq<int>) -> Seq<bool> {
    Seq::new(len, |i: int| matched.contains(i))
}

/// For each of the first `len` characters of a name, whether `matched` holds
/// its place.
pub fn highlights(len: usize, matched: &Vec<usize>) -> (flags: Vec<bool>)
    ensures
        flags@ == highlight_spec(len as nat, positions(matched@)),
{
    let mut flags: Vec<bool> = Vec::new();
    let mut i: usize = 0;
    while i < len
        invariant
            i <= len,
            flags.len() == i,
            forall|k: int| 0 <= k < i ==> #[trigger] flags[k] == positions(matched@).contains(k),
        decreases len - i,
    {
        let mut hit = false;
        let mut j: usize = 0;
        while j < matched.len()
            invariant
                j <= matched.len(),
                hit == exists|t: int| 0 <= t < j && #[trigger] positions(matched@)[t] == i as int,
            decreases matched.len() - j,
        {
            if matched[j] == i {
                hit = true;
                assert(positions(matched@)[j as int] == i as int);
            }
            j += 1;
        }
        flags.push(hit);
        i += 1;
    }
    assert(flags@ =~= highlight_spec(len as nat, positions(matched@)));
    flags
}

} // verus!
