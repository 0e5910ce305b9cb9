use life_progress::calendar::{days_from, Date};
use life_progress::progress::{
    compute_progress, expectancy_for, gender_parser, resolve_and_compute, resolve_country, Gender,
    LifeError, ProgressInfo,
};
use life_progress::table::{CountryInfo, StatisticsTable};

fn date(year: i32, month: u32, day: u32) -> Date {
    Date { year, month, day }
}

fn sample() -> StatisticsTable {
    let mut table = StatisticsTable::new();
    table.insert("Common", CountryInfo { all: 8000, male: 7800, female: 8200 });
    table.insert("Chile", CountryInfo { all: 8010, male: 7750, female: 8270 });
    table.insert("China", CountryInfo { all: 7700, male: 7500, female: 7900 });
    table.insert("Japan", CountryInfo { all: 8400, male: 8100, female: 8700 });
    table
}

#[test]
fn days_from_counts_whole_days() {
    assert_eq!(days_from(date(2000, 1, 1), date(2024, 1, 1)), Some(8766));
    assert_eq!(days_from(date(2024, 1, 1), date(2024, 1, 1)), Some(0));
    assert_eq!(days_from(date(2024, 2, 28), date(2024, 3, 1)), Some(2));
    assert_eq!(days_from(date(2023, 2, 28), date(2023, 3, 1)), Some(1));
    assert_eq!(days_from(date(2024, 1, 2), date(2024, 1, 1)), Some(-1));
    assert_eq!(days_from(date(1, 1, 1), date(1970, 1, 1)), Some(719_162));
    assert_eq!(days_from(date(-1, 12, 31), date(1, 1, 1)), Some(367));
}

#[test]
fn days_from_refuses_what_is_no_calendar_date() {
    assert_eq!(days_from(date(2023, 2, 29), date(2024, 1, 1)), None);
    assert_eq!(days_from(date(2024, 2, 29), date(2024, 2, 30)), None);
    assert_eq!(days_from(date(2024, 0, 1), date(2024, 1, 1)), None);
    assert_eq!(days_from(date(2024, 13, 1), date(2025, 1, 1)), None);
    assert_eq!(days_from(date(2024, 1, 0), date(2024, 1, 1)), None);
    assert_eq!(days_from(date(2024, 4, 31), date(2024, 5, 1)), None);
    assert_eq!(days_from(date(1900, 2, 29), date(2024, 1, 1)), None);
    assert_eq!(days_from(date(262_143, 1, 1), date(262_143, 1, 2)), None);
    assert_eq!(days_from(date(-262_144, 12, 31), date(2024, 1, 1)), None);
    assert!(days_from(date(2000, 2, 29), date(2024, 1, 1)).is_some());
    assert!(days_from(date(-262_143, 1, 1), date(262_142, 12, 31)).is_some());
}

#[test]
fn progress_after_twenty_four_of_eighty_years() {
    let info = compute_progress(8766, 8000);
    assert_eq!(info, ProgressInfo { spent: 8766, rest: 20434, progress: 30 });
    assert_eq!(info.spent + info.rest, 29200);
}

#[test]
fn progress_rounds_to_the_nearest_percent() {
    assert_eq!(compute_progress(145, 8000).progress, 0);
    assert_eq!(compute_progress(146, 8000).progress, 1);
    assert_eq!(compute_progress(437, 8000).progress, 1);
    assert_eq!(compute_progress(438, 8000).progress, 2);
    assert_eq!(compute_progress(14600, 8000).progress, 50);
    assert_eq!(compute_progress(29053, 8000).progress, 99);
    assert_eq!(compute_progress(29054, 8000).progress, 100);
    assert_eq!(compute_progress(29199, 8000).progress, 100);
    assert_eq!(compute_progress(0, 8000), ProgressInfo { spent: 0, rest: 29200, progress: 0 });
}

#[test]
fn progress_stops_at_the_end_of_the_lifespan() {
    assert_eq!(compute_progress(29200, 8000), ProgressInfo { spent: 29200, rest: 0, progress: 100 });
    assert_eq!(compute_progress(40000, 8000), ProgressInfo { spent: 40000, rest: 0, progress: 100 });
    assert_eq!(compute_progress(0, 0), ProgressInfo { spent: 0, rest: 0, progress: 100 });
    assert_eq!(compute_progress(5, 0), ProgressInfo { spent: 5, rest: 0, progress: 100 });
    let far = compute_progress(u64::MAX, u32::MAX);
    assert_eq!(far.rest, 0);
    assert_eq!(far.progress, 100);
}

#[test]
fn lifespan_drops_the_fraction_of_a_day() {
    let info = compute_progress(0, 7316);
    assert_eq!(info.rest, 26703);
    let info = compute_progress(0, 1);
    assert_eq!(info.rest, 3);
    let info = compute_progress(0, u32::MAX);
    assert_eq!(info.rest, 15_676_630_626);
}

#[test]
fn spent_and_rest_add_up_until_the_lifespan_is_over() {
    for spent in [0u64, 1, 100, 8766, 29199, 29200] {
        let info = compute_progress(spent, 8000);
        assert_eq!(info.spent + info.rest, 29200);
        assert!(info.progress <= 100);
    }
}

#[test]
fn expectancy_follows_the_gender() {
    let info = CountryInfo { all: 8000, male: 7800, female: 8200 };
    assert_eq!(expectancy_for(&info, None), 8000);
    assert_eq!(expectancy_for(&info, Some(Gender::Male)), 7800);
    assert_eq!(expectancy_for(&info, Some(Gender::Female)), 8200);
}

#[test]
fn gender_parser_reads_zero_as_female() {
    assert_eq!(gender_parser("0"), Gender::Female);
    assert_eq!(gender_parser("1"), Gender::Male);
    assert_eq!(gender_parser(""), Gender::Male);
    assert_eq!(gender_parser("00"), Gender::Male);
    assert_eq!(gender_parser("female"), Gender::Male);
}

#[test]
fn resolve_without_a_query_takes_the_default_entry() {
    let table = sample();
    let common = CountryInfo { all: 8000, male: 7800, female: 8200 };
    assert_eq!(resolve_country(&table, None).unwrap(), common);
    assert_eq!(resolve_country(&table, Some("")).unwrap(), common);
}

#[test]
fn resolve_prefers_the_exact_name() {
    let mut table = sample();
    table.insert("Chi", CountryInfo { all: 1, male: 2, female: 3 });
    let found = resolve_country(&table, Some("Chi")).unwrap();
    assert_eq!(found, CountryInfo { all: 1, male: 2, female: 3 });
}

#[test]
fn resolve_falls_back_to_the_best_fuzzy_match() {
    let table = sample();
    let china = CountryInfo { all: 7700, male: 7500, female: 7900 };
    let chile = CountryInfo { all: 8010, male: 7750, female: 8270 };
    assert_eq!(resolve_country(&table, Some("Chin")).unwrap(), china);
    assert_eq!(resolve_country(&table, Some("china")).unwrap(), china);
    assert_eq!(resolve_country(&table, Some("chi")).unwrap(), chile);
}

#[test]
fn resolve_fails_for_a_query_that_matches_nothing() {
    let table = sample();
    match resolve_country(&table, Some("zzznonexistent12345")) {
        Err(LifeError::UnknownCountry { query }) => assert_eq!(query, "zzznonexistent12345"),
        other => panic!("unexpected: {:?}", other),
    }
}

#[test]
fn resolve_fails_where_the_default_entry_is_missing() {
    let mut table = StatisticsTable::new();
    table.insert("Japan", CountryInfo { all: 8400, male: 8100, female: 8700 });
    match resolve_country(&table, None) {
        Err(LifeError::UnknownCountry { query }) => assert_eq!(query, "Common"),
        other => panic!("unexpected: {:?}", other),
    }
    assert!(matches!(resolve_country(&table, Some("")), Err(LifeError::UnknownCountry { .. })));
}

#[test]
fn resolve_fails_on_an_empty_table() {
    let table = StatisticsTable::new();
    assert!(matches!(resolve_country(&table, None), Err(LifeError::EmptyCandidateSet)));
    assert!(matches!(resolve_country(&table, Some("China")), Err(LifeError::EmptyCandidateSet)));
}

#[test]
fn progress_of_a_life_begun_in_2000_as_of_2024() {
    let table = sample();
    let info = resolve_and_compute(&table, date(2000, 1, 1), date(2024, 1, 1), None, None).unwrap();
    assert_eq!(info, ProgressInfo { spent: 8766, rest: 20434, progress: 30 });
}

#[test]
fn progress_follows_gender_and_country() {
    let table = sample();
    let info = resolve_and_compute(
        &table,
        date(2000, 1, 1),
        date(2024, 1, 1),
        Some(Gender::Female),
        Some("jap"),
    )
    .unwrap();
    assert_eq!(info.spent, 8766);
    assert_eq!(info.rest, 31755 - 8766);
    assert_eq!(info.progress, 28);
    let info = resolve_and_compute(
        &table,
        date(2000, 1, 1),
        date(2024, 1, 1),
        Some(Gender::Male),
        Some("China"),
    )
    .unwrap();
    assert_eq!(info.rest, 27375 - 8766);
    assert_eq!(info.progress, 32);
}

#[test]
fn birthday_today_is_no_progress_yet() {
    let table = sample();
    let info = resolve_and_compute(&table, date(2024, 1, 1), date(2024, 1, 1), None, None).unwrap();
    assert_eq!(info, ProgressInfo { spent: 0, rest: 29200, progress: 0 });
}

#[test]
fn birthday_in_the_future_is_an_invalid_date() {
    let table = sample();
    let outcome = resolve_and_compute(&table, date(2024, 1, 2), date(2024, 1, 1), None, None);
    assert!(matches!(outcome, Err(LifeError::InvalidDate)));
}

#[test]
fn date_that_does_not_exist_is_an_invalid_date() {
    let table = sample();
    let outcome = resolve_and_compute(&table, date(2023, 2, 29), date(2024, 1, 1), None, None);
    assert!(matches!(outcome, Err(LifeError::InvalidDate)));
    let outcome = resolve_and_compute(&table, date(2000, 1, 1), date(2024, 13, 1), None, None);
    assert!(matches!(outcome, Err(LifeError::InvalidDate)));
}

#[test]
fn dates_are_judged_before_the_table_and_the_country() {
    let empty = StatisticsTable::new();
    let outcome = resolve_and_compute(&empty, date(2024, 1, 2), date(2024, 1, 1), None, None);
    assert!(matches!(outcome, Err(LifeError::InvalidDate)));
    let outcome = resolve_and_compute(&empty, date(2000, 1, 1), date(2024, 1, 1), None, None);
    assert!(matches!(outcome, Err(LifeError::EmptyCandidateSet)));
}

#[test]
fn unknown_country_is_reported_with_the_query() {
    let table = sample();
    let outcome = resolve_and_compute(
        &table,
        date(2000, 1, 1),
        date(2024, 1, 1),
        None,
        Some("zzznonexistent12345"),
    );
    match outcome {
        Err(LifeError::UnknownCountry { query }) => assert_eq!(query, "zzznonexistent12345"),
        other => panic!("unexpected: {:?}", other),
    }
}

#[test]
fn computing_twice_gives_the_same_progress() {
    let table = sample();
    let first =
        resolve_and_compute(&table, date(1990, 6, 15), date(2024, 1, 1), Some(Gender::Male), Some("chl"));
    let second =
        resolve_and_compute(&table, date(1990, 6, 15), date(2024, 1, 1), Some(Gender::Male), Some("chl"));
    assert_eq!(first.unwrap(), second.unwrap());
}

fn leap(year: i64) -> bool {
    year.rem_euclid(4) == 0 && (year.rem_euclid(100) != 0 || year.rem_euclid(400) == 0)
}

fn month_length(year: i64, month: i64) -> i64 {
    match month {
        2 => {
            if leap(year) {
                29
            } else {
                28
            }
        }
        4 | 6 | 9 | 11 => 30,
        _ => 31,
    }
}

fn counted_by_hand(year: i64, month: i64, day: i64) -> i64 {
    let y = year - 1;
    let mut number = 365 * y + y.div_euclid(4) - y.div_euclid(100) + y.div_euclid(400);
    for m in 1..month {
        number += month_length(year, m);
    }
    number + day
}

#[test]
fn day_numbers_follow_the_calendar_formula() {
    let first = date(1, 1, 1);
    let years = [
        -262_143, -100_000, -401, -400, -101, -100, -5, -4, -1, 0, 1, 2, 4, 100, 400, 1582, 1600,
        1700, 1899, 1900, 1970, 1999, 2000, 2001, 2023, 2024, 2100, 2400, 99_999, 262_142,
    ];
    for year in years {
        for month in 1..=12u32 {
            let last = month_length(year as i64, month as i64) as u32;
            for day in [1, 2, 15, 28, last] {
                let expected = counted_by_hand(year as i64, month as i64, day as i64) - 1;
                assert_eq!(days_from(first, date(year, month, day)), Some(expected));
            }
            assert_eq!(days_from(first, date(year, month, last + 1)), None);
        }
    }
}

#[test]
fn later_dates_have_more_days_behind_them() {
    let days = [
        date(-262_143, 1, 1),
        date(-1, 12, 31),
        date(0, 1, 1),
        date(0, 2, 29),
        date(0, 3, 1),
        date(1999, 12, 31),
        date(2000, 1, 1),
        date(2000, 2, 29),
        date(2000, 3, 1),
        date(2000, 12, 31),
        date(2001, 1, 1),
        date(262_142, 12, 31),
    ];
    for i in 0..days.len() {
        for j in 0..days.len() {
            let between = days_from(days[i], days[j]).unwrap();
            assert_eq!(between < 0, j < i);
            assert_eq!(between == 0, i == j);
        }
    }
}
