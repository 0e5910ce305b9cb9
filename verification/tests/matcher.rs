use life_progress::fuzzy::{fuzzy_match, highlights, match_chars};
use life_progress::ranking::names_in_order;
use life_progress::text::{chars_of, fold_case};

fn chars(s: &str) -> Vec<char> {
    s.chars().collect()
}

#[test]
fn prefix_match_scores_lead_and_adjacent_bonus() {
    let found = fuzzy_match("Chin", "China").expect("Chin is a prefix of China");
    assert_eq!(found.country_name, "China");
    assert_eq!(found.matched_indices, vec![0, 1, 2, 3]);
    assert_eq!(found.score, 399);
}

#[test]
fn query_that_is_no_subsequence_does_not_match() {
    assert!(fuzzy_match("Chin", "Chile").is_none());
    assert!(fuzzy_match("zzznonexistent12345", "China").is_none());
    assert!(fuzzy_match("ab", "ba").is_none());
    assert!(fuzzy_match("a", "").is_none());
    assert!(fuzzy_match("aa", "a").is_none());
}

#[test]
fn china_beats_chile_for_chin() {
    let china = fuzzy_match("Chin", "China");
    let chile = fuzzy_match("Chin", "Chile");
    assert!(china.is_some());
    assert!(chile.is_none());
    let china_short = fuzzy_match("Chi", "China").unwrap();
    let chile_short = fuzzy_match("Chi", "Chile").unwrap();
    assert_eq!(china_short.score, 299);
    assert_eq!(chile_short.score, 299);
}

#[test]
fn exact_match_earns_the_exact_bonus() {
    let found = fuzzy_match("china", "China").unwrap();
    assert_eq!(found.matched_indices, vec![0, 1, 2, 3, 4]);
    assert_eq!(found.score, 599);
    let longer = fuzzy_match("china", "China Sea").unwrap();
    assert_eq!(longer.score, 499);
    assert!(found.score > longer.score);
}

#[test]
fn matching_ignores_ascii_case_only() {
    let found = fuzzy_match("CHINA", "china").unwrap();
    assert_eq!(found.score, 599);
    assert!(fuzzy_match("é", "É").is_none());
    let accented = fuzzy_match("é", "Café").unwrap();
    assert_eq!(accented.matched_indices, vec![3]);
    assert_eq!(accented.score, 96);
}

#[test]
fn empty_query_matches_everything_with_the_empty_placement() {
    let found = fuzzy_match("", "China").unwrap();
    assert_eq!(found.country_name, "China");
    assert_eq!(found.score, 0);
    assert!(found.matched_indices.is_empty());
    let nothing = fuzzy_match("", "").unwrap();
    assert_eq!(nothing.score, 100);
    assert!(nothing.matched_indices.is_empty());
}

#[test]
fn scattered_match_scores_only_the_lead_bonus() {
    let found = fuzzy_match("cia", "China").unwrap();
    assert_eq!(found.matched_indices, vec![0, 2, 4]);
    assert_eq!(found.score, 99);
}

#[test]
fn a_later_run_beats_an_earlier_scattered_placement() {
    let found = fuzzy_match("aa", "aXaa").unwrap();
    assert_eq!(found.matched_indices, vec![2, 3]);
    assert_eq!(found.score, 197);
    let banana = fuzzy_match("na", "Banana").unwrap();
    assert_eq!(banana.matched_indices, vec![2, 3]);
    assert_eq!(banana.score, 197);
    let canada = fuzzy_match("an", "Canada").unwrap();
    assert_eq!(canada.matched_indices, vec![1, 2]);
    assert_eq!(canada.score, 198);
}

#[test]
fn substring_is_reported_as_one_unbroken_run() {
    let found = fuzzy_match("and", "Trinidad and Tobago").unwrap();
    assert_eq!(found.matched_indices, vec![9, 10, 11]);
    assert_eq!(found.score, 90 + 200);
    let name: Vec<char> = "Trinidad and Tobago".chars().collect();
    for (k, at) in found.matched_indices.iter().enumerate() {
        assert_eq!(name[*at], ['a', 'n', 'd'][k]);
    }
}

#[test]
fn run_beats_scattered_whatever_the_lengths() {
    let run = fuzzy_match("ab", "xxxxxxxxxxab").unwrap();
    let scattered = fuzzy_match("ab", "axb").unwrap();
    assert_eq!(run.score, 89 + 100);
    assert_eq!(scattered.score, 99);
    assert!(run.score > scattered.score);
}

#[test]
fn lead_bonus_runs_out_after_ninety_nine_places() {
    let mut name = "x".repeat(150);
    name.push_str("ab");
    let found = fuzzy_match("ab", &name).unwrap();
    assert_eq!(found.matched_indices, vec![150, 151]);
    assert_eq!(found.score, 100);
    let mut near = "x".repeat(98);
    near.push('a');
    let late = fuzzy_match("a", &near).unwrap();
    assert_eq!(late.matched_indices, vec![98]);
    assert_eq!(late.score, 1);
}

#[test]
fn ties_end_as_far_left_as_they_can() {
    let found = fuzzy_match("ab", "abab").unwrap();
    assert_eq!(found.matched_indices, vec![0, 1]);
    assert_eq!(found.score, 199);
    let single = fuzzy_match("a", "banana").unwrap();
    assert_eq!(single.matched_indices, vec![1]);
    assert_eq!(single.score, 98);
}

#[test]
fn matched_indices_are_increasing_and_in_range() {
    let names = ["Bosnia and Herzegovina", "Saint Kitts and Nevis", "United Arab Emirates"];
    for name in names {
        if let Some(found) = fuzzy_match("aie", name) {
            let len = name.chars().count();
            assert_eq!(found.matched_indices.len(), 3);
            for pair in found.matched_indices.windows(2) {
                assert!(pair[0] < pair[1]);
            }
            for at in &found.matched_indices {
                assert!(*at < len);
            }
        }
    }
}

#[test]
fn matching_twice_gives_the_same_result() {
    let first = fuzzy_match("gua", "Guatemala").unwrap();
    let second = fuzzy_match("gua", "Guatemala").unwrap();
    assert_eq!(first.country_name, second.country_name);
    assert_eq!(first.score, second.score);
    assert_eq!(first.matched_indices, second.matched_indices);
}

#[test]
fn match_chars_reports_score_and_places() {
    let found = match_chars(&chars("Chin"), &chars("China")).unwrap();
    assert_eq!(found.0, 399);
    assert_eq!(found.1, vec![0, 1, 2, 3]);
    assert!(match_chars(&chars("Chin"), &chars("Chile")).is_none());
}

#[test]
fn highlights_flag_the_matched_places() {
    assert_eq!(highlights(5, &vec![0, 1, 2, 3]), vec![true, true, true, true, false]);
    assert_eq!(highlights(5, &vec![0, 2, 4]), vec![true, false, true, false, true]);
    assert_eq!(highlights(3, &vec![]), vec![false, false, false]);
    assert_eq!(highlights(0, &vec![1]), Vec::<bool>::new());
    assert_eq!(highlights(2, &vec![5]), vec![false, false]);
}

#[test]
fn fold_case_lowers_ascii_capitals_only() {
    assert_eq!(fold_case('A'), 'a');
    assert_eq!(fold_case('Z'), 'z');
    assert_eq!(fold_case('m'), 'm');
    assert_eq!(fold_case('@'), '@');
    assert_eq!(fold_case('['), '[');
    assert_eq!(fold_case('É'), 'É');
    assert_eq!(fold_case('7'), '7');
}

#[test]
fn chars_of_lists_the_characters() {
    assert_eq!(chars_of("Côte"), vec!['C', 'ô', 't', 'e']);
    assert_eq!(chars_of(""), Vec::<char>::new());
}

#[test]
fn names_are_ordered_character_by_character() {
    assert!(names_in_order(&chars("Chad"), &chars("Chile")));
    assert!(!names_in_order(&chars("Chile"), &chars("Chad")));
    assert!(names_in_order(&chars("China"), &chars("China Sea")));
    assert!(!names_in_order(&chars("China Sea"), &chars("China")));
    assert!(!names_in_order(&chars("China"), &chars("China")));
    assert!(names_in_order(&chars(""), &chars("a")));
    assert!(!names_in_order(&chars(""), &chars("")));
    assert!(names_in_order(&chars("Zambia"), &chars("zambia")));
    assert_eq!(names_in_order(&chars("Åland"), &chars("Zambia")), "Åland" < "Zambia");
}
