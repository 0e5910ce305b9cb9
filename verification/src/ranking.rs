//! Choosing the best of several matches: the highest score wins, and among
//! equal scores the name that comes first in the order of names.

use vstd::prelude::*;
use vstd::string::StringExecFns;
use crate::fuzzy::{MatchResult, MatchView};
use crate::matching::{is_placement, is_subsequence, run};
use crate::progress::{LifeError, LifeErrorView};
use crate::table::{
    lemma_position_of, lemma_search_empty, lemma_search_names, lookup_spec, match_views,
    position_of, search_spec, CountryInfo, StatisticsTable,
};
use crate::text::chars_of;

verus! {

/// `a` and `b` agree on their first `k` characters, and there `a` ends while
/// `b` goes on, or `a` has the smaller character.
pub open spec fn decides(a: Seq<char>, b: Seq<char>, k: int) -> bool {
    &&& 0 <= k <= a.len()
    &&& k < b.len()
    &&& forall|t: int| 0 <= t < k ==> #[trigger] a[t] == b[t]
    &&& (k == a.len() || a[k] < b[k])
}

/// The name `a` comes strictly before the name `b`: character by character,
/// by code point, a proper prefix before the longer name.
pub open spec fn name_precedes(a: Seq<char>, b: Seq<char>) -> bool {
    exists|k: int| decides(a, b, k)
}

/// The match `a` is strictly better than the match `b`.
pub open spec fn outranks(a: MatchView, b: MatchView) -> bool {
    a.score > b.score || (a.score == b.score && name_precedes(a.country_name, b.country_name))
}

/// `k` is the place of the best match: no match is strictly better, and no
/// earlier match has the same score and the same name.
pub open spec fn is_best(results: Seq<MatchView>, k: int) -> bool {
    &&& 0 <= k < results.len()
    &&& forall|j: int| 0 <= j < results.len() ==> !outranks(#[trigger] results[j], results[k])
    &&& forall|j: int|
        0 <= j < k ==> (#[trigger] results[j]).score != results[k].score
            || results[j].country_name != results[k].country_name
}

/// The place of the best match, found by going through the matches in order
/// and keeping the best so far.
pub open spec fn best_index(results: Seq<MatchView>) -> Option<int>
    decreases results.len(),
{
    if results.len() == 0 {
        None
    } else {
        match best_index(results.drop_last()) {
            None => Some(results.len() - 1),
            Some(b) => if outranks(results.last(), results[b]) {
                Some(results.len() - 1)
            } else {
                Some(b)
            },
        }
    }
}

/// The order of names is transitive.
pub proof fn lemma_name_order_transitive(a: Seq<char>, b: Seq<char>, c: Seq<char>)
    requires
        name_precedes(a, b),
        name_precedes(b, c),
    ensures
        name_precedes(a, c),
{
    let k1 = choose|k: int| decides(a, b, k);
    let k2 = choose|k: int| decides(b, c, k);
    let k = if k1 <= k2 { k1 } else { k2 };
    assert forall|t: int| 0 <= t < k implies #[trigger] a[t] == c[t] by {
        assert(a[t] == b[t]);
        assert(b[t] == c[t]);
    }
    if k1 < k2 {
        assert(b[k1] == c[k1]);
    } else if k2 < k1 {
        assert(a[k2] == b[k2]);
    }
    assert(decides(a, c, k));
}

/// No name comes before itself.
pub proof fn lemma_name_order_irreflexive(a: Seq<char>)
    ensures
        !name_precedes(a, a),
{
}

/// Of two different names one comes before the other.
pub proof fn lemma_name_order_total(a: Seq<char>, b: Seq<char>)
    ensures
        a == b || name_precedes(a, b) || name_precedes(b, a),
{
    lemma_total_from(a, b, 0);
}

proof fn lemma_total_from(a: Seq<char>, b: Seq<char>, k: int)
    requires
        0 <= k <= a.len(),
        k <= b.len(),
        forall|t: int| 0 <= t < k ==> #[trigger] a[t] == b[t],
    ensures
        a == b || name_precedes(a, b) || name_precedes(b, a),
    decreases a.len() - k,
{
    if k == a.len() || k == b.len() {
        if a.len() == b.len() {
            assert(a =~= b);
        } else if k == a.len() {
            assert(decides(a, b, k));
        } else {
            assert(decides(b, a, k));
        }
    } else if a[k] != b[k] {
        if a[k] < b[k] {
            assert(decides(a, b, k));
        } else {
            assert(decides(b, a, k));
        }
    } else {
        lemma_total_from(a, b, k + 1);
    }
}

/// Being strictly better is transitive.
pub proof fn lemma_outranks_transitive(a: MatchView, b: MatchView, c: MatchView)
    requires
        outranks(a, b),
        outranks(b, c),
    ensures
        outranks(a, c),
{
    if a.score == b.score && b.score == c.score {
        lemma_name_order_transitive(a.country_name, b.country_name, c.country_name);
    }
}

/// `best_index` finds the best match, and finds none only among no matches.
pub proof fn lemma_best_index(results: Seq<MatchView>)
    ensures
        match best_index(results) {
            Some(k) => is_best(results, k),
            None => results.len() == 0,
        },
    decreases results.len(),
{
    if results.len() > 0 {
        let front = results.drop_last();
        let n = results.len() - 1;
        lemma_best_index(front);
        lemma_name_order_irreflexive(results[n].country_name);
        match best_index(front) {
            None => {},
            Some(b) => {
                assert(front[b] == results[b]);
                if outranks(results[n], results[b]) {
                    assert forall|j: int| 0 <= j < results.len() implies !outranks(
                        #[trigger] results[j],
                        results[n],
                    ) by {
                        if j < n && outranks(results[j], results[n]) {
                            lemma_outranks_transitive(results[j], results[n], results[b]);
                            assert(front[j] == results[j]);
                        }
                    }
                    assert forall|j: int| 0 <= j < n implies (#[trigger] results[j]).score
                        != results[n].score || results[j].country_name
                        != results[n].country_name by {
                        assert(front[j] == results[j]);
                    }
                } else {
                    assert forall|j: int| 0 <= j < results.len() implies !outranks(
                        #[trigger] results[j],
                        results[b],
                    ) by {
                        if j < n {
                            assert(front[j] == results[j]);
                        }
                    }
                    assert forall|j: int| 0 <= j < b implies (#[trigger] results[j]).score
                        != results[b].score || results[j].country_name
                        != results[b].country_name by {
                        assert(front[j] == results[j]);
                    }
                }
            },
        }
    }
}

/// There is only one best match.
pub proof fn lemma_best_is_unique(results: Seq<MatchView>, k1: int, k2: int)
    requires
        is_best(results, k1),
        is_best(results, k2),
    ensures
        k1 == k2,
{
    lemma_name_order_total(results[k1].country_name, results[k2].country_name);
}

/// Whether the name `a` comes strictly before the name `b`.
pub fn names_in_order(a: &Vec<char>, b: &Vec<char>) -> (r: bool)
    ensures
        r == name_precedes(a@, b@),
{
    let mut i: usize = 0;
    while i < a.len() && i < b.len()
        invariant
            i <= a.len(),
            i <= b.len(),
            forall|t: int| 0 <= t < i ==> #[trigger] a@[t] == b@[t],
        decreases a.len() - i,
    {
        if a[i] != b[i] {
            let r = a[i] < b[i];
            proof {
                if r {
                    assert(decides(a@, b@, i as int));
                } else {
                    assert forall|k: int| !decides(a@, b@, k) by {
                        if i < k && decides(a@, b@, k) {
                            assert(a@[i as int] == b@[i as int]);
                        }
                    }
                }
            }
            return r;
        }
        i += 1;
    }
    let r = i < b.len();
    proof {
        if r {
            assert(decides(a@, b@, i as int));
        } else {
            assert forall|k: int| !decides(a@, b@, k) by {
                if decides(a@, b@, k) {
                    assert(a@[k] == b@[k]);
                }
            }
        }
    }
    r
}

/// Whether the match `a` is strictly better than the match `b`.
pub fn outranks_exec(a: &MatchResult, b: &MatchResult) -> (r: bool)
    ensures
        r == outranks(a@, b@),
{
    if a.score != b.score {
        a.score > b.score
    } else {
        let x = chars_of(a.country_name.as_str());
        let y = chars_of(b.country_name.as_str());
        names_in_order(&x, &y)
    }
}

/// The place of the best match in `results`: the one with the highest score,
/// and among equal scores the one whose name comes first; of matches equal in
/// both, the first. There is none only where `results` is empty.
pub fn best_match(results: &Vec<MatchResult>) -> (best: Option<usize>)
    ensures
        best is None <==> results.len() == 0,
        best matches Some(k) ==> is_best(match_views(results@), k as int),
        best matches Some(k) ==> best_index(match_views(results@)) == Some(k as int),
{
    let ghost views = match_views(results@);
    let mut best: Option<usize> = None;
    let mut i: usize = 0;
    assert(views.take(0) =~= Seq::empty());
    while i < results.len()
        invariant
            i <= results.len(),
            views == match_views(results@),
            best is None <==> best_index(views.take(i as int)) is None,
            best matches Some(k) ==> k < i && best_index(views.take(i as int)) == Some(k as int),
        decreases results.len() - i,
    {
        proof {
            let longer = views.take(i + 1);
            assert(longer.drop_last() =~= views.take(i as int));
            assert(longer.last() == results[i as int]@);
        }
        match best {
            None => {
                best = Some(i);
            },
            Some(b) => {
                assert(views.take(i + 1)[b as int] == results[b as int]@);
                if outranks_exec(&results[i], &results[b]) {
                    best = Some(i);
                }
            },
        }
        i += 1;
    }
    proof {
        assert(views.take(results.len() as int) =~= views);
        lemma_best_index(views);
    }
    best
}

/// The name under which the world average is stored.
pub open spec fn default_nation() -> Seq<char> {
    "Common"@
}

/// The country name that a nation argument stands for. The empty argument
/// stands for the default entry. Any other argument stands for the country
/// named exactly like it, or else for the best fuzzy match; an argument that
/// is a subsequence of no name stands for nothing.
pub open spec fn nation_spec(table: Seq<(Seq<char>, CountryInfo)>, input: Seq<char>) -> Result<
    Seq<char>,
    LifeErrorView,
> {
    let results = search_spec(table, input);
    if input.len() == 0 {
        Ok(default_nation())
    } else if lookup_spec(table, input) is Some {
        Ok(input)
    } else {
        match best_index(results) {
            Some(k) => Ok(results[k].country_name),
            None => Err(LifeErrorView::UnknownCountry { query: input }),
        }
    }
}

/// A parsed nation argument as a mathematical value.
pub open spec fn nation_view(parsed: Result<String, LifeError>) -> Result<Seq<char>, LifeErrorView> {
    match parsed {
        Ok(name) => Ok(name@),
        Err(e) => Err(e@),
    }
}

/// When a nation argument stands for a country: the empty argument always
/// does, and any other exactly when it is a subsequence of some name in the
/// table. A name that a non-empty argument stands for is a name of the table.
/// The only failure is `UnknownCountry`, with the argument.
pub proof fn lemma_nation(table: Seq<(Seq<char>, CountryInfo)>, input: Seq<char>)
    ensures
        nation_spec(table, input) is Err <==> input.len() > 0 && forall|k: int|
            0 <= k < table.len() ==> !is_subsequence(input, (#[trigger] table[k]).0),
        nation_spec(table, input) is Err ==> nation_spec(table, input) == Err::<
            Seq<char>,
            LifeErrorView,
        >(LifeErrorView::UnknownCountry { query: input }),
        input.len() > 0 && nation_spec(table, input) is Ok ==> lookup_spec(
            table,
            nation_spec(table, input)->Ok_0,
        ) is Some,
{
    if input.len() > 0 {
        let results = search_spec(table, input);
        lemma_position_of(table, input);
        lemma_search_empty(table, input);
        lemma_best_index(results);
        if lookup_spec(table, input) is Some {
            let k = position_of(table, input)->0;
            assert(is_placement(input, input, run(0, input.len())));
            assert(is_subsequence(input, table[k].0));
        } else {
            match best_index(results) {
                Some(k) => {
                    lemma_search_names(table, input, k);
                },
                None => {},
            }
        }
    }
}

/// Turns a nation argument into the name of a country of the table.
///
/// The empty argument gives the name of the default entry. Any other
/// argument gives itself where the table has a country of exactly that name,
/// else the name of its best fuzzy match. It fails with `UnknownCountry`
/// exactly when the argument is not empty and is a subsequence of no name in
/// the table.
pub fn fuzzy_search_nation_parser(table: &StatisticsTable, input: &str) -> (name: Result<
    String,
    LifeError,
>)
    ensures
        nation_view(name) == nation_spec(table@, input@),
        name is Err <==> input@.len() > 0 && forall|k: int|
            0 <= k < table@.len() ==> !is_subsequence(input@, (#[trigger] table@[k]).0),
        name matches Err(e) ==> e@ == (LifeErrorView::UnknownCountry { query: input@ }),
        name matches Ok(found) ==> input@.len() > 0 ==> lookup_spec(table@, found@) is Some,
{
    proof {
        lemma_nation(table@, input@);
    }
    if input.unicode_len() == 0 {
        return Ok(String::from_str("Common"));
    }
    if table.lookup_exact(input).is_some() {
        return Ok(String::from_str(input));
    }
    let results = table.search(input);
    match best_match(&results) {
        Some(k) => {
            assert(match_views(results@)[k as int] == results[k as int]@);
            Ok(results[k].country_name.clone())
        },
        None => {
            assert(match_views(results@).len() == 0);
            Err(LifeError::UnknownCountry { query: String::from_str(input) })
        },
    }
}

} // verus!
