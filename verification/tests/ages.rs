use swim_qualifiers::ages::{find_best_age_index, find_best_age_match, is_closer};

fn labels(items: &[&str]) -> Vec<String> {
    items.iter().map(|s| s.to_string()).collect()
}

#[test]
fn age_below_the_youngest_group_takes_the_youngest() {
    let ages = labels(&["11", "13", "15"]);
    assert_eq!(find_best_age_match("10", &ages), Some(String::from("11")));
}

#[test]
fn age_above_the_oldest_group_takes_the_oldest() {
    let ages = labels(&["11", "13", "15"]);
    assert_eq!(find_best_age_match("20", &ages), Some(String::from("15")));
}

#[test]
fn exact_age_wins() {
    let ages = labels(&["11", "13", "15"]);
    assert_eq!(find_best_age_match("13", &ages), Some(String::from("13")));
}

#[test]
fn age_between_two_groups_takes_the_nearer() {
    let ages = labels(&["10", "13", "20"]);
    assert_eq!(find_best_age_match("12", &ages), Some(String::from("13")));
    assert_eq!(find_best_age_match("11", &ages), Some(String::from("10")));
    assert_eq!(find_best_age_match("17", &ages), Some(String::from("20")));
}

#[test]
fn equally_near_groups_give_the_younger() {
    let ages = labels(&["15", "13", "11"]);
    assert_eq!(find_best_age_match("12", &ages), Some(String::from("11")));
    assert_eq!(find_best_age_match("14", &ages), Some(String::from("13")));
}

#[test]
fn order_of_the_labels_does_not_matter_for_distinct_numbers() {
    let ages = labels(&["15", "11", "13"]);
    assert_eq!(find_best_age_match("10", &ages), Some(String::from("11")));
    assert_eq!(find_best_age_match("20", &ages), Some(String::from("15")));
    assert_eq!(find_best_age_match("13", &ages), Some(String::from("13")));
}

#[test]
fn age_that_is_no_number_has_no_group() {
    let ages = labels(&["11", "13", "15"]);
    assert_eq!(find_best_age_match("", &ages), None);
    assert_eq!(find_best_age_match("13&U", &ages), None);
    assert_eq!(find_best_age_match("Open", &ages), None);
    assert_eq!(find_best_age_match(" 13", &ages), None);
}

#[test]
fn no_numbered_label_gives_no_group() {
    assert_eq!(find_best_age_match("13", &labels(&[])), None);
    assert_eq!(find_best_age_match("13", &labels(&["Open", "", "x"])), None);
}

#[test]
fn labels_that_are_no_numbers_are_passed_over() {
    let ages = labels(&["Open", "11", "Senior", "15"]);
    assert_eq!(find_best_age_match("30", &ages), Some(String::from("15")));
    assert_eq!(find_best_age_index("30", &ages), Some(3));
    assert_eq!(find_best_age_index("1", &ages), Some(1));
}

#[test]
fn labels_of_one_number_give_the_first_but_above_all_the_last() {
    let ages = labels(&["13", "013", "+13"]);
    assert_eq!(find_best_age_match("13", &ages), Some(String::from("13")));
    assert_eq!(find_best_age_match("10", &ages), Some(String::from("13")));
    assert_eq!(find_best_age_match("20", &ages), Some(String::from("+13")));
    let ages = labels(&["11", "15", "015", "13"]);
    assert_eq!(find_best_age_match("14", &ages), Some(String::from("13")));
    assert_eq!(find_best_age_match("15", &ages), Some(String::from("15")));
    assert_eq!(find_best_age_match("16", &ages), Some(String::from("015")));
}

#[test]
fn distance_is_taken_without_overflow() {
    let ages = labels(&["-2147483648", "2147483647"]);
    assert_eq!(find_best_age_match("100", &ages), Some(String::from("2147483647")));
    assert_eq!(find_best_age_match("-100", &ages), Some(String::from("-2147483648")));
    assert_eq!(find_best_age_match("-1", &ages), Some(String::from("-2147483648")));
    assert_eq!(find_best_age_match("0", &ages), Some(String::from("2147483647")));
}

#[test]
fn nearer_number_is_closer_and_the_smaller_on_a_tie() {
    assert!(is_closer(12, 13, 10));
    assert!(!is_closer(12, 10, 13));
    assert!(is_closer(12, 11, 13));
    assert!(!is_closer(12, 13, 11));
    assert!(!is_closer(12, 11, 11));
    assert!(is_closer(0, i32::MAX, i32::MIN));
}
