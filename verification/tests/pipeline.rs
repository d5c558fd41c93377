use swim_qualifiers::athletes::{
    add_name, athlete_age_of, count_total_athletes, count_unique_qualifiers, qualifying_age_of,
    AthleteGroup, AthleteGroups,
};
use swim_qualifiers::cells::Cell;
use swim_qualifiers::meet::{parse_meet_file, MeetResult, Sheet};
use swim_qualifiers::qualifiers::{
    count_qualifiers, increment, qualifies, QualifierCount, QualifierCounts,
};
use swim_qualifiers::report::{
    collect_age_groups, rank_of, report_rows, sort_ages, ReportCell,
};
use swim_qualifiers::seconds::{time_text, Seconds, TimeText};
use swim_qualifiers::standards::{load_time_standards, StandardsTable};

fn secs(x: f64) -> Seconds {
    Seconds::from_bits(x.to_bits())
}

fn read(s: &str) -> Option<Seconds> {
    match time_text(s) {
        TimeText::Absent => None,
        TimeText::MinutesSeconds { minutes, seconds } => {
            let m: f64 = minutes.parse().ok()?;
            let s: f64 = seconds.parse().ok()?;
            Some(secs(m * 60.0 + s))
        }
        TimeText::Decimal { seconds } => seconds.parse::<f64>().ok().map(secs),
    }
}

fn text(s: &str) -> Cell {
    Cell::Text { text: s.to_string(), number: read(s) }
}

fn number(x: f64) -> Cell {
    Cell::Number { seconds: secs(x), shown: x.to_string() }
}

fn strings(items: &[&str]) -> Vec<String> {
    items.iter().map(|s| s.to_string()).collect()
}

fn result_row(name: &str, time: &str) -> Vec<Cell> {
    let mut cells = vec![Cell::Other; 10];
    cells[4] = text(name);
    cells[9] = text(time);
    cells
}

fn result(sex: &str, age: &str, event: &str, time: f64, name: &str) -> MeetResult {
    MeetResult {
        course: String::from("LCM"),
        sex: sex.to_string(),
        age: age.to_string(),
        event: event.to_string(),
        time: secs(time),
        name: name.to_string(),
    }
}

fn table() -> StandardsTable {
    let mens = vec![
        vec![text("Event"), text("11&U"), text("13"), text("15")],
        vec![text("200 Free"), number(150.0), number(130.0), number(120.0)],
        vec![text("100 Fly"), number(80.0), Cell::Other, number(70.0)],
    ];
    let womens = vec![
        vec![text("Event"), text("13")],
        vec![text("200 Free"), number(140.0)],
    ];
    load_time_standards(&mens, &womens)
}

fn one_standard() -> StandardsTable {
    let mens = vec![vec![text("Event"), text("13")], vec![text("200 Free"), number(130.0)]];
    load_time_standards(&mens, &Vec::new())
}

fn count_cells(title: &str, counts: &[usize]) -> Vec<ReportCell> {
    let mut row = vec![ReportCell::Text(title.to_string())];
    for c in counts {
        row.push(ReportCell::Count(*c));
    }
    row
}

fn text_cells(items: &[&str]) -> Vec<ReportCell> {
    items.iter().map(|s| ReportCell::Text(s.to_string())).collect()
}

#[test]
fn result_qualifies_when_its_time_is_at_most_the_standard() {
    let t = table();
    assert!(qualifies(&result("Men", "13", "200Fr", 125.0, "A"), &t));
    assert!(qualifies(&result("Men", "13", "200Fr", 130.0, "A"), &t));
    assert!(!qualifies(&result("Men", "13", "200Fr", 130.01, "A"), &t));
    assert!(qualifies(&result("Men", "13", "200Fr", 125.0, ""), &t));
}

#[test]
fn result_without_a_standard_of_its_own_does_not_qualify() {
    let t = table();
    assert!(!qualifies(&result("Men", "12", "200Fr", 1.0, "A"), &t));
    assert!(!qualifies(&result("Men", "13", "100Bu", 1.0, "A"), &t));
    assert!(!qualifies(&result("Men", "13", "50Fr", 1.0, "A"), &t));
    assert!(!qualifies(&result("M", "13", "200Fr", 1.0, "A"), &t));
    assert!(!qualifies(&result("Women", "15", "200Fr", 1.0, "A"), &t));
}

#[test]
fn counts_hold_the_results_within_their_standard() {
    let results = vec![
        result("Men", "13", "200Fr", 125.0, "A"),
        result("Men", "13", "200Fr", 135.0, "B"),
        result("Men", "13", "200Fr", 130.0, "C"),
        result("Men", "15", "200Fr", 119.0, "D"),
        result("Men", "12", "200Fr", 100.0, "E"),
        result("Women", "13", "200Fr", 139.0, "F"),
        result("Men", "13", "200Fr", 100.0, ""),
        result("Men", "15", "100Bu", 70.0, "A"),
    ];
    let counts = count_qualifiers(&results, &table());
    assert_eq!(counts.count("Men", "13", "200Fr"), 3);
    assert_eq!(counts.count("Men", "15", "200Fr"), 1);
    assert_eq!(counts.count("Men", "12", "200Fr"), 0);
    assert_eq!(counts.count("Men", "11", "200Fr"), 0);
    assert_eq!(counts.count("Women", "13", "200Fr"), 1);
    assert_eq!(counts.count("Men", "15", "100Bu"), 1);
    assert_eq!(counts.count("Men", "200Fr", "13"), 0);
    assert_eq!(
        counts.entries,
        vec![
            QualifierCount {
                sex: String::from("Men"),
                age: String::from("13"),
                event: String::from("200Fr"),
                count: 3,
            },
            QualifierCount {
                sex: String::from("Men"),
                age: String::from("15"),
                event: String::from("200Fr"),
                count: 1,
            },
            QualifierCount {
                sex: String::from("Women"),
                age: String::from("13"),
                event: String::from("200Fr"),
                count: 1,
            },
            QualifierCount {
                sex: String::from("Men"),
                age: String::from("15"),
                event: String::from("100Bu"),
                count: 1,
            },
        ]
    );
}

#[test]
fn one_more_result_adds_to_its_own_count_only_when_within_the_standard() {
    let t = table();
    let mut results = vec![
        result("Men", "13", "200Fr", 125.0, "A"),
        result("Men", "15", "200Fr", 119.0, "D"),
    ];
    let before = count_qualifiers(&results, &t);
    results.push(result("Men", "13", "200Fr", 129.0, "B"));
    let after = count_qualifiers(&results, &t);
    assert_eq!(after.count("Men", "13", "200Fr"), before.count("Men", "13", "200Fr") + 1);
    assert_eq!(after.count("Men", "15", "200Fr"), before.count("Men", "15", "200Fr"));
    results.push(result("Men", "13", "200Fr", 131.0, "C"));
    let slower = count_qualifiers(&results, &t);
    assert_eq!(slower, after);
}

#[test]
fn no_results_give_no_counts() {
    let counts = count_qualifiers(&Vec::new(), &table());
    assert_eq!(counts, QualifierCounts { entries: Vec::new() });
    assert_eq!(counts.count("Men", "13", "200Fr"), 0);
}

#[test]
fn increment_raises_one_count() {
    let mut entries = Vec::new();
    increment(&mut entries, "Men", "13", "200Fr");
    increment(&mut entries, "Men", "15", "200Fr");
    increment(&mut entries, "Men", "13", "200Fr");
    let counts = QualifierCounts { entries };
    assert_eq!(counts.count("Men", "13", "200Fr"), 2);
    assert_eq!(counts.count("Men", "15", "200Fr"), 1);
    assert_eq!(counts.entries.len(), 2);
}

#[test]
fn age_is_resolved_to_the_nearest_group_of_the_event() {
    let t = table();
    assert_eq!(
        qualifying_age_of(&result("Men", "12", "200Fr", 140.0, "A"), &t),
        Some(String::from("11"))
    );
    assert_eq!(
        qualifying_age_of(&result("Men", "14", "200Fr", 130.0, "A"), &t),
        Some(String::from("13"))
    );
    assert_eq!(qualifying_age_of(&result("Men", "14", "200Fr", 130.5, "A"), &t), None);
    assert_eq!(
        qualifying_age_of(&result("Men", "13", "100Bu", 80.0, "A"), &t),
        Some(String::from("11"))
    );
    assert_eq!(
        qualifying_age_of(&result("Men", "18", "200Fr", 120.0, "A"), &t),
        Some(String::from("15"))
    );
    assert_eq!(
        qualifying_age_of(&result("Men", "9", "200Fr", 150.0, "A"), &t),
        Some(String::from("11"))
    );
    assert_eq!(
        qualifying_age_of(&result("Women", "10", "200Fr", 140.0, "A"), &t),
        Some(String::from("13"))
    );
}

#[test]
fn nameless_or_unresolved_results_qualify_nobody() {
    let t = table();
    assert_eq!(qualifying_age_of(&result("Men", "13", "200Fr", 100.0, ""), &t), None);
    assert_eq!(qualifying_age_of(&result("Men", "Open", "200Fr", 100.0, "A"), &t), None);
    assert_eq!(qualifying_age_of(&result("Men", "13", "50Fr", 100.0, "A"), &t), None);
    assert_eq!(qualifying_age_of(&result("M", "13", "200Fr", 100.0, "A"), &t), None);
    assert_eq!(athlete_age_of(&result("Men", "13", "200Fr", 100.0, ""), &t), None);
    assert_eq!(athlete_age_of(&result("Men", "Open", "200Fr", 100.0, "A"), &t), None);
    assert_eq!(athlete_age_of(&result("M", "13", "200Fr", 100.0, "A"), &t), None);
    let empty = load_time_standards(&Vec::new(), &Vec::new());
    assert_eq!(athlete_age_of(&result("Men", "13", "200Fr", 100.0, "A"), &empty), None);
}

#[test]
fn athletes_are_counted_among_the_age_groups_of_the_first_event() {
    let t = table();
    assert_eq!(
        athlete_age_of(&result("Men", "13", "100Bu", 999.0, "A"), &t),
        Some(String::from("13"))
    );
    assert_eq!(
        athlete_age_of(&result("Men", "14", "50Fr", 999.0, "A"), &t),
        Some(String::from("13"))
    );
    assert_eq!(
        athlete_age_of(&result("Men", "99", "50Fr", 999.0, "A"), &t),
        Some(String::from("15"))
    );
}

#[test]
fn athlete_qualifying_twice_in_one_group_is_counted_once() {
    let t = table();
    let results = vec![
        result("Men", "15", "200Fr", 119.0, "A. Swimmer"),
        result("Men", "15", "100Bu", 69.0, "A. Swimmer"),
        result("Men", "15", "100Bu", 69.5, "B. Swimmer"),
        result("Men", "15", "200Fr", 500.0, "C. Swimmer"),
    ];
    let qualifiers = count_unique_qualifiers(&results, &t);
    assert_eq!(qualifiers.count("Men", "15"), 2);
    assert_eq!(
        qualifiers.groups,
        vec![AthleteGroup {
            sex: String::from("Men"),
            age: String::from("15"),
            names: strings(&["A. Swimmer", "B. Swimmer"]),
        }]
    );
    let totals = count_total_athletes(&results, &t);
    assert_eq!(totals.count("Men", "15"), 3);
    assert_eq!(totals.count("Men", "13"), 0);
    assert_eq!(totals.count("Women", "15"), 0);
}

#[test]
fn one_name_in_two_groups_is_counted_in_each() {
    let t = table();
    let results = vec![
        result("Men", "13", "200Fr", 125.0, "A"),
        result("Men", "15", "200Fr", 119.0, "A"),
        result("Women", "13", "200Fr", 125.0, "A"),
    ];
    let qualifiers = count_unique_qualifiers(&results, &t);
    assert_eq!(qualifiers.count("Men", "13"), 1);
    assert_eq!(qualifiers.count("Men", "15"), 1);
    assert_eq!(qualifiers.count("Women", "13"), 1);
    assert_eq!(qualifiers.groups.len(), 3);
}

#[test]
fn qualifiers_use_resolved_ages_where_counts_use_literal_ones() {
    let t = table();
    let results = vec![result("Men", "14", "200Fr", 125.0, "A")];
    assert_eq!(count_qualifiers(&results, &t).count("Men", "13", "200Fr"), 0);
    assert_eq!(count_qualifiers(&results, &t).count("Men", "14", "200Fr"), 0);
    assert_eq!(count_unique_qualifiers(&results, &t).count("Men", "13"), 1);
    assert_eq!(count_total_athletes(&results, &t).count("Men", "13"), 1);
}

#[test]
fn add_name_keeps_each_name_once() {
    let mut groups = Vec::new();
    add_name(&mut groups, "Men", "13", "A");
    add_name(&mut groups, "Men", "13", "B");
    add_name(&mut groups, "Men", "13", "A");
    add_name(&mut groups, "Women", "13", "A");
    let groups = AthleteGroups { groups };
    assert_eq!(groups.count("Men", "13"), 2);
    assert_eq!(groups.count("Women", "13"), 1);
    assert_eq!(groups.count("Men", "15"), 0);
    assert_eq!(groups.groups[0].names, strings(&["A", "B"]));
}

#[test]
fn age_groups_are_sorted_by_their_numbers() {
    assert_eq!(sort_ages(&strings(&["15", "11", "13"])), strings(&["11", "13", "15"]));
    assert_eq!(sort_ages(&strings(&["9", "10", "100"])), strings(&["9", "10", "100"]));
    assert_eq!(
        sort_ages(&strings(&["Open", "1000", "15", "Senior", "999"])),
        strings(&["15", "Open", "Senior", "999", "1000"])
    );
    assert_eq!(sort_ages(&strings(&["13", "013", "11", "+13"])), strings(&["11", "13", "013", "+13"]));
    assert_eq!(sort_ages(&strings(&[])), strings(&[]));
    assert_eq!(rank_of("13"), 13);
    assert_eq!(rank_of("Open"), 999);
    assert_eq!(rank_of("-2"), -2);
}

#[test]
fn age_groups_of_all_events_are_collected_once() {
    let mens = vec![
        vec![text("Event"), text("15"), text("11")],
        vec![text("200 Free"), number(1.0), number(2.0)],
    ];
    let more = vec![
        vec![text("Event"), text("13"), text("15")],
        vec![text("100 Fly"), number(1.0), number(2.0)],
    ];
    let mut events = load_time_standards(&mens, &Vec::new()).men.events;
    events.extend(load_time_standards(&more, &Vec::new()).men.events);
    assert_eq!(collect_age_groups(&events), strings(&["15", "11", "13"]));
    assert_eq!(collect_age_groups(&Vec::new()), strings(&[]));
}

#[test]
fn report_lays_out_events_and_summaries() {
    let t = table();
    let results = vec![
        result("Men", "13", "200Fr", 125.0, "A"),
        result("Men", "13", "200Fr", 126.0, "B"),
        result("Men", "15", "100Bu", 69.0, "A"),
        result("Men", "14", "200Fr", 500.0, "C"),
        result("Women", "13", "200Fr", 100.0, "W"),
    ];
    let counts = count_qualifiers(&results, &t);
    let totals = count_total_athletes(&results, &t);
    let qualifiers = count_unique_qualifiers(&results, &t);
    let rows = report_rows("Men", &t, &counts, &totals, &qualifiers);
    assert_eq!(
        rows,
        vec![
            text_cells(&["Event", "11", "13", "15"]),
            count_cells("200Fr", &[0, 2, 0]),
            count_cells("100Bu", &[0, 0, 1]),
            Vec::new(),
            count_cells("Total Unique Athletes", &[0, 3, 1]),
            count_cells("Unique Qualifiers", &[0, 2, 1]),
        ]
    );
    let rows = report_rows("Women", &t, &counts, &totals, &qualifiers);
    assert_eq!(
        rows,
        vec![
            text_cells(&["Event", "13"]),
            count_cells("200Fr", &[1]),
            Vec::new(),
            count_cells("Total Unique Athletes", &[1]),
            count_cells("Unique Qualifiers", &[1]),
        ]
    );
    assert_eq!(report_rows("Mixed", &t, &counts, &totals, &qualifiers), Vec::<Vec<ReportCell>>::new());
}

#[test]
fn report_of_a_sex_without_standards_has_the_fixed_rows() {
    let t = load_time_standards(&Vec::new(), &Vec::new());
    let none = AthleteGroups { groups: Vec::new() };
    let counts = QualifierCounts { entries: Vec::new() };
    assert_eq!(
        report_rows("Men", &t, &counts, &none, &none),
        vec![
            text_cells(&["Event"]),
            Vec::new(),
            text_cells(&["Total Unique Athletes"]),
            text_cells(&["Unique Qualifiers"]),
        ]
    );
}

#[test]
fn qualifying_swim_is_counted_in_the_report() {
    let t = one_standard();
    let sheets = vec![Sheet {
        name: String::from("200 Free"),
        rows: vec![result_row("A. Swimmer", "2:05.00")],
    }];
    let results = parse_meet_file("X_X_LCM_Men_00-13_meet.xlsx", &sheets).unwrap();
    assert_eq!(results, vec![result("Men", "13", "200Fr", 125.0, "A. Swimmer")]);
    let counts = count_qualifiers(&results, &t);
    let totals = count_total_athletes(&results, &t);
    let qualifiers = count_unique_qualifiers(&results, &t);
    assert_eq!(
        report_rows("Men", &t, &counts, &totals, &qualifiers),
        vec![
            text_cells(&["Event", "13"]),
            count_cells("200Fr", &[1]),
            Vec::new(),
            count_cells("Total Unique Athletes", &[1]),
            count_cells("Unique Qualifiers", &[1]),
        ]
    );
}

#[test]
fn slower_swim_is_not_counted_in_the_report() {
    let t = one_standard();
    let sheets = vec![Sheet {
        name: String::from("200 Free"),
        rows: vec![result_row("A. Swimmer", "2:15.00")],
    }];
    let results = parse_meet_file("X_X_LCM_Men_00-13_meet.xlsx", &sheets).unwrap();
    assert_eq!(results, vec![result("Men", "13", "200Fr", 135.0, "A. Swimmer")]);
    let counts = count_qualifiers(&results, &t);
    let totals = count_total_athletes(&results, &t);
    let qualifiers = count_unique_qualifiers(&results, &t);
    assert_eq!(
        report_rows("Men", &t, &counts, &totals, &qualifiers),
        vec![
            text_cells(&["Event", "13"]),
            count_cells("200Fr", &[0]),
            Vec::new(),
            count_cells("Total Unique Athletes", &[1]),
            count_cells("Unique Qualifiers", &[0]),
        ]
    );
}

#[test]
fn sex_of_the_file_name_is_looked_up_as_it_is_written() {
    let t = one_standard();
    let sheets = vec![Sheet {
        name: String::from("200 Free"),
        rows: vec![result_row("A. Swimmer", "2:05.00")],
    }];
    let results = parse_meet_file("X_X_LCM_M_00-13_meet.xlsx", &sheets).unwrap();
    assert_eq!(results, vec![result("M", "13", "200Fr", 125.0, "A. Swimmer")]);
    assert_eq!(count_qualifiers(&results, &t).count("Men", "13", "200Fr"), 0);
    assert_eq!(count_qualifiers(&results, &t).count("M", "13", "200Fr"), 0);
    assert_eq!(count_unique_qualifiers(&results, &t).count("Men", "13"), 0);
}
