//! The progress calculator: from a birthday and a life expectancy to the days
//! spent, the days left and the percentage of the lifespan that has passed.

use vstd::prelude::*;
use vstd::string::StringExecFns;
use crate::calendar::{days_between, days_from, lemma_days_between_follows_calendar, Date};
use crate::matching::{is_placement, is_subsequence, run};
use crate::ranking::{
    best_index, best_match, default_nation, lemma_best_index, lemma_nation, nation_spec,
};
use crate::table::{
    lemma_position_of, lemma_search_empty, lemma_search_names, lookup_spec, match_views,
    position_of, search_spec, CountryInfo, StatisticsTable,
};

verus! {

/// Selects the life expectancy of men or of women.
#[derive(Clone, Copy, Debug, PartialEq, Eq, Structural)]
pub enum Gender {
    Male,
    Female,
}

/// How far a life has come.
#[derive(Clone, Copy, Debug, PartialEq, Eq, Structural)]
pub struct ProgressInfo {
    /// Whole days from the birthday to today.
    pub spent: u64,
    /// Whole days from today to the end of the expected lifespan; zero once
    /// the lifespan is over.
    pub rest: u64,
    /// The part of the expected lifespan that has passed, in percent.
    pub progress: u8,
}

/// Why no progress could be computed.
#[derive(Debug)]
pub enum LifeError {
    /// The birthday or today is no calendar date, or the birthday lies after
    /// today.
    InvalidDate,
    /// Neither an exact nor a fuzzy lookup of `query` found a country.
    UnknownCountry { query: String },
    /// The statistics table holds no country at all.
    EmptyCandidateSet,
}

/// An error as a mathematical value.
pub enum LifeErrorView {
    InvalidDate,
    UnknownCountry { query: Seq<char> },
    EmptyCandidateSet,
}

impl View for LifeError {
    type V = LifeErrorView;

    open spec fn view(&self) -> LifeErrorView {
        match self {
            LifeError::InvalidDate => LifeErrorView::InvalidDate,
            LifeError::UnknownCountry { query } => LifeErrorView::UnknownCountry { query: query@ },
            LifeError::EmptyCandidateSet => LifeErrorView::EmptyCandidateSet,
        }
    }
}

/// A result with its error as a mathematical value.
pub open spec fn outcome_view<T>(r: Result<T, LifeError>) -> Result<T, LifeErrorView> {
    match r {
        Ok(v) => Ok(v),
        Err(e) => Err(e@),
    }
}

/// The view of an optional query.
pub open spec fn query_view(query: Option<&str>) -> Option<Seq<char>> {
    match query {
        Some(q) => Some(q@),
        None => None,
    }
}

/// The life expectancy, in hundredths of a year, that applies to `gender`.
pub open spec fn expectancy_spec(info: CountryInfo, gender: Option<Gender>) -> u32 {
    match gender {
        Some(Gender::Male) => info.male,
        Some(Gender::Female) => info.female,
        None => info.all,
    }
}

/// The expected lifespan in whole days: a year counts 365 days, and a
/// fraction of a day is dropped.
pub open spec fn lifespan_days(expectancy: int) -> int {
    expectancy * 365 / 100
}

/// The percentage of `total` that `spent` makes up, rounded to the nearest
/// whole number, halves upwards, and never more than 100. A lifespan that is
/// over, or has no days at all, is complete.
pub open spec fn percent_of(spent: int, total: int) -> int {
    if spent >= total {
        100
    } else {
        (200 * spent + total) / (2 * total)
    }
}

/// The days left of `total` after `spent`.
pub open spec fn rest_of(spent: int, total: int) -> int {
    if spent <= total {
        total - spent
    } else {
        0
    }
}

/// The progress after `spent` days of a life expected to last `expectancy`
/// hundredths of a year.
pub open spec fn progress_spec(spent: int, expectancy: int) -> ProgressInfo {
    ProgressInfo {
        spent: spent as u64,
        rest: rest_of(spent, lifespan_days(expectancy)) as u64,
        progress: percent_of(spent, lifespan_days(expectancy)) as u8,
    }
}

/// The figures that a country query stands for. Without a query, or with an
/// empty one, they are those of the default entry. Otherwise they are those
/// of the country named exactly like the query, or else of the best fuzzy
/// match; every name that has the query as a subsequence is a match.
pub open spec fn resolve_spec(table: Seq<(Seq<char>, CountryInfo)>, query: Option<Seq<char>>) -> Result<
    CountryInfo,
    LifeErrorView,
> {
    if table.len() == 0 {
        Err(LifeErrorView::EmptyCandidateSet)
    } else if query is None || query->0.len() == 0 {
        match lookup_spec(table, default_nation()) {
            Some(info) => Ok(info),
            None => Err(LifeErrorView::UnknownCountry { query: default_nation() }),
        }
    } else {
        let q = query->0;
        let results = search_spec(table, q);
        match lookup_spec(table, q) {
            Some(info) => Ok(info),
            None => match best_index(results) {
                Some(k) => match lookup_spec(table, results[k].country_name) {
                    Some(info) => Ok(info),
                    None => Err(LifeErrorView::UnknownCountry { query: q }),
                },
                None => Err(LifeErrorView::UnknownCountry { query: q }),
            },
        }
    }
}

/// The progress of a life, or the reason why there is none. The dates are
/// judged first, then the table and the country.
pub open spec fn progress_outcome(
    table: Seq<(Seq<char>, CountryInfo)>,
    birthday: Date,
    today: Date,
    gender: Option<Gender>,
    query: Option<Seq<char>>,
) -> Result<ProgressInfo, LifeErrorView> {
    if !birthday.is_calendar_date() || !today.is_calendar_date() || days_between(birthday, today)
        < 0 {
        Err(LifeErrorView::InvalidDate)
    } else {
        match resolve_spec(table, query) {
            Ok(info) => Ok(
                progress_spec(days_between(birthday, today), expectancy_spec(info, gender) as int),
            ),
            Err(e) => Err(e),
        }
    }
}

/// The percentage is the quotient rounded to the nearest whole number: it
/// differs from `100 * spent / total` by at most one half.
pub proof fn lemma_percent_is_rounded(spent: int, total: int)
    requires
        0 <= spent < total,
    ensures
        0 <= percent_of(spent, total) <= 100,
        2 * total * percent_of(spent, total) <= 200 * spent + total,
        200 * spent + total < 2 * total * (percent_of(spent, total) + 1),
{
    let p = percent_of(spent, total);
    let n = 200 * spent + total;
    let d = 2 * total;
    assert(n == d * (n / d) + n % d && 0 <= n % d < d) by (nonlinear_arith)
        requires
            d > 0,
    ;
    assert(p >= 0) by (nonlinear_arith)
        requires
            n >= 0,
            d > 0,
            n == d * p + n % d,
            n % d < d,
    ;
    assert(p <= 100) by (nonlinear_arith)
        requires
            n < 101 * d,
            d > 0,
            n == d * p + n % d,
            0 <= n % d,
    ;
    assert(d * (p + 1) == d * p + d) by (nonlinear_arith);
}

/// Days spent and days left add up to the lifespan until it is over; from
/// then on nothing is left. The percentage never leaves the range from 0 to
/// 100, and reaches 100 no later than the end of the lifespan.
pub proof fn lemma_progress_adds_up(spent: int, total: int)
    requires
        0 <= spent,
        0 <= total,
    ensures
        spent <= total ==> spent + rest_of(spent, total) == total,
        spent > total ==> rest_of(spent, total) == 0,
        0 <= percent_of(spent, total) <= 100,
        spent >= total ==> percent_of(spent, total) == 100,
{
    if spent < total {
        lemma_percent_is_rounded(spent, total);
    }
}

/// A non-empty query is a subsequence of itself.
pub proof fn lemma_subsequence_of_itself(query: Seq<char>)
    ensures
        is_subsequence(query, query),
{
    assert(is_placement(query, query, run(0, query.len())));
}

/// The life expectancy, in hundredths of a year, that applies to `gender`.
pub fn expectancy_for(info: &CountryInfo, gender: Option<Gender>) -> (expectancy: u32)
    ensures
        expectancy == expectancy_spec(*info, gender),
{
    match gender {
        Some(Gender::Male) => info.male,
        Some(Gender::Female) => info.female,
        None => info.all,
    }
}

/// The progress after `spent` days of a life expected to last `expectancy`
/// hundredths of a year.
pub fn compute_progress(spent: u64, expectancy: u32) -> (info: ProgressInfo)
    ensures
        info == progress_spec(spent as int, expectancy as int),
        info.spent == spent,
        info.rest == rest_of(spent as int, lifespan_days(expectancy as int)),
        info.progress == percent_of(spent as int, lifespan_days(expectancy as int)),
        info.progress <= 100,
        spent <= lifespan_days(expectancy as int) ==> info.spent + info.rest == lifespan_days(
            expectancy as int,
        ),
{
    let total: u64 = (expectancy as u64) * 365 / 100;
    proof {
        lemma_progress_adds_up(spent as int, total as int);
    }
    if spent >= total {
        ProgressInfo { spent, rest: 0, progress: 100 }
    } else {
        let percent: u64 = (200 * spent + total) / (2 * total);
        ProgressInfo { spent, rest: total - spent, progress: percent as u8 }
    }
}

/// When a country query resolves: on a table that is not empty, a missing or
/// empty query resolves exactly when the table has the default entry, and any
/// other query exactly when it is a subsequence of some name in the table. An
/// empty table is the only source of `EmptyCandidateSet`.
pub proof fn lemma_resolve(table: Seq<(Seq<char>, CountryInfo)>, query: Option<Seq<char>>)
    ensures
        resolve_spec(table, query) == Err::<CountryInfo, LifeErrorView>(
            LifeErrorView::EmptyCandidateSet,
        ) <==> table.len() == 0,
        resolve_spec(table, query) is Err && table.len() > 0 ==> resolve_spec(table, query)
            == Err::<CountryInfo, LifeErrorView>(
            LifeErrorView::UnknownCountry {
                query: if query is None || query->0.len() == 0 {
                    default_nation()
                } else {
                    query->0
                },
            },
        ),
        table.len() > 0 && (query is None || query->0.len() == 0) ==> (resolve_spec(table, query)
            is Ok <==> exists|k: int|
            0 <= k < table.len() && (#[trigger] table[k]).0 == default_nation()),
        table.len() > 0 && query is Some && query->0.len() > 0 ==> (resolve_spec(table, query)
            is Ok <==> exists|k: int|
            0 <= k < table.len() && is_subsequence(query->0, (#[trigger] table[k]).0)),
{
    if table.len() > 0 {
        if query is None || query->0.len() == 0 {
            lemma_position_of(table, default_nation());
        } else {
            let q = query->0;
            let results = search_spec(table, q);
            lemma_position_of(table, q);
            lemma_search_empty(table, q);
            lemma_best_index(results);
            match lookup_spec(table, q) {
                Some(_) => {
                    let k = position_of(table, q)->0;
                    lemma_subsequence_of_itself(q);
                    assert(is_subsequence(q, table[k].0));
                },
                None => {
                    match best_index(results) {
                        Some(k) => {
                            lemma_search_names(table, q, k);
                        },
                        None => {},
                    }
                },
            }
        }
    }
}

/// A query resolves to the figures of the country that the nation parser
/// names for it, and fails where the parser fails, for the same reason.
pub proof fn lemma_resolution_follows_parser(
    table: Seq<(Seq<char>, CountryInfo)>,
    input: Seq<char>,
)
    requires
        table.len() > 0,
        input.len() > 0,
    ensures
        match nation_spec(table, input) {
            Ok(name) => lookup_spec(table, name) is Some && resolve_spec(table, Some(input))
                == Ok::<CountryInfo, LifeErrorView>(lookup_spec(table, name)->0),
            Err(e) => resolve_spec(table, Some(input)) == Err::<CountryInfo, LifeErrorView>(e),
        },
{
    lemma_nation(table, input);
}

/// The figures that a country query stands for.
///
/// Fails with `EmptyCandidateSet` on an empty table. Without a query, or with
/// an empty one, the figures are those of the entry named `Common`. Otherwise
/// they are those of the country named exactly like the query, or else of the
/// best fuzzy match. Every name that has the query as a subsequence counts as
/// a match, so the lookup fails with `UnknownCountry` only where the query is
/// a subsequence of no name in the table.
pub fn resolve_country(table: &StatisticsTable, query: Option<&str>) -> (found: Result<
    CountryInfo,
    LifeError,
>)
    ensures
        outcome_view(found) == resolve_spec(table@, query_view(query)),
        found matches Err(LifeError::EmptyCandidateSet) <==> table@.len() == 0,
        found is Err && table@.len() > 0 ==> found matches Err(LifeError::UnknownCountry { .. }),
        table@.len() > 0 && (query is None || query->0@.len() == 0) ==> (found is Ok <==> exists|
            k: int,
        |
            0 <= k < table@.len() && (#[trigger] table@[k]).0 == default_nation()),
        table@.len() > 0 && query is Some && query->0@.len() > 0 ==> (found is Ok <==> exists|
            k: int,
        |
            0 <= k < table@.len() && is_subsequence(query->0@, (#[trigger] table@[k]).0)),
{
    let found = resolve_inner(table, query);
    proof {
        lemma_resolve(table@, query_view(query));
    }
    found
}

/// The figures of the default entry.
fn resolve_default(table: &StatisticsTable) -> (found: Result<CountryInfo, LifeError>)
    requires
        table@.len() > 0,
    ensures
        outcome_view(found) == resolve_spec(table@, None),
        outcome_view(found) == resolve_spec(table@, Some(Seq::<char>::empty())),
{
    match table.lookup_exact("Common") {
        Some(info) => Ok(info),
        None => Err(LifeError::UnknownCountry { query: String::from_str("Common") }),
    }
}

/// Resolves a country query step by step.
fn resolve_inner(table: &StatisticsTable, query: Option<&str>) -> (found: Result<
    CountryInfo,
    LifeError,
>)
    ensures
        outcome_view(found) == resolve_spec(table@, query_view(query)),
{
    if table.is_empty() {
        return Err(LifeError::EmptyCandidateSet);
    }
    let wanted: &str = match query {
        Some(q) => q,
        None => {
            return resolve_default(table);
        },
    };
    if wanted.unicode_len() == 0 {
        assert(wanted@ =~= Seq::<char>::empty());
        return resolve_default(table);
    }
    match table.lookup_exact(wanted) {
        Some(info) => Ok(info),
        None => {
            let results = table.search(wanted);
            match best_match(&results) {
                Some(k) => {
                    assert(match_views(results@)[k as int] == results[k as int]@);
                    match table.lookup_exact(results[k].country_name.as_str()) {
                        Some(info) => Ok(info),
                        None => Err(LifeError::UnknownCountry { query: String::from_str(wanted) }),
                    }
                },
                None => {
                    assert(match_views(results@).len() == 0);
                    Err(LifeError::UnknownCountry { query: String::from_str(wanted) })
                },
            }
        },
    }
}

/// The progress of a life that began on `birthday`, as of `today`.
///
/// Fails with `InvalidDate` where one of the two is no calendar date or the
/// birthday lies after today; these are judged first. The life expectancy is
/// that of the country that `country_query` resolves to, for the given
/// gender.
pub fn resolve_and_compute(
    table: &StatisticsTable,
    birthday: Date,
    today: Date,
    gender: Option<Gender>,
    country_query: Option<&str>,
) -> (outcome: Result<ProgressInfo, LifeError>)
    ensures
        outcome_view(outcome) == progress_outcome(
            table@,
            birthday,
            today,
            gender,
            query_view(country_query),
        ),
        outcome matches Err(LifeError::InvalidDate) <==> !birthday.is_calendar_date()
            || !today.is_calendar_date() || today.precedes(birthday),
        outcome matches Err(LifeError::InvalidDate) <==> !birthday.is_calendar_date()
            || !today.is_calendar_date() || days_between(birthday, today) < 0,
        outcome matches Ok(info) ==> info.progress <= 100 && info.spent == days_between(
            birthday,
            today,
        ),
{
    proof {
        if birthday.is_calendar_date() && today.is_calendar_date() {
            lemma_days_between_follows_calendar(birthday, today);
        }
    }
    let spent: u64 = match days_from(birthday, today) {
        Some(days) => {
            if days < 0 {
                return Err(LifeError::InvalidDate);
            }
            days as u64
        },
        None => {
            return Err(LifeError::InvalidDate);
        },
    };
    match resolve_country(table, country_query) {
        Ok(info) => Ok(compute_progress(spent, expectancy_for(&info, gender))),
        Err(e) => Err(e),
    }
}

/// Two computations from the same table, dates, gender and query come to the
/// same end: both fail for the same reason, or both give the same progress.
pub proof fn lemma_progress_is_determined(
    table: Seq<(Seq<char>, CountryInfo)>,
    birthday: Date,
    today: Date,
    gender: Option<Gender>,
    query: Option<Seq<char>>,
    first: Result<ProgressInfo, LifeError>,
    second: Result<ProgressInfo, LifeError>,
)
    requires
        outcome_view(first) == progress_outcome(table, birthday, today, gender, query),
        outcome_view(second) == progress_outcome(table, birthday, today, gender, query),
    ensures
        first is Ok <==> second is Ok,
        first is Ok ==> first->Ok_0 == second->Ok_0,
        first is Err ==> first->Err_0@ == second->Err_0@,
{
}

/// The gender that a gender argument stands for.
pub open spec fn gender_spec(input: Seq<char>) -> Gender {
    if input == seq!['0'] {
        Gender::Female
    } else {
        Gender::Male
    }
}

/// Reads a gender argument: `0` stands for female, everything else for male.
pub fn gender_parser(input: &str) -> (gender: Gender)
    ensures
        gender == gender_spec(input@),
{
    if input.unicode_len() == 1 && input.get_char(0) == '0' {
        assert(input@ =~= seq!['0']);
        Gender::Female
    } else {
        assert(seq!['0'].len() == 1 && seq!['0'][0] == '0');
        Gender::Male
    }
}

} // verus!
