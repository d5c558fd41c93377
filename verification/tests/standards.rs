use swim_qualifiers::cells::Cell;
use swim_qualifiers::seconds::{time_text, Seconds, TimeText};
use swim_qualifiers::standards::{
    event_of_row, header_ages, insert_age, insert_event, load_time_standards, standards_of_row,
    standards_of_sheet, AgeStandard, EventStandards, SexStandards,
};

fn secs(x: f64) -> Seconds {
    Seconds::from_bits(x.to_bits())
}

fn read(s: &str) -> Option<Seconds> {
    match time_text(s) {
        TimeText::Absent => None,
        TimeText::MinutesSeconds { minutes, seconds } => {
            let m: f64 = minutes.parse().ok()?;
            let s: f64 = seconds.parse().ok()?;
            Some(secs(m * 60.0 + s))
        }
        TimeText::Decimal { seconds } => seconds.parse::<f64>().ok().map(secs),
    }
}

fn text(s: &str) -> Cell {
    Cell::Text { text: s.to_string(), number: read(s) }
}

fn number(x: f64) -> Cell {
    Cell::Number { seconds: secs(x), shown: x.to_string() }
}

fn age(label: &str, time: f64) -> AgeStandard {
    AgeStandard { age: label.to_string(), time: secs(time) }
}

fn columns(items: &[Option<&str>]) -> Vec<Option<String>> {
    items.iter().map(|s| s.map(|t| t.to_string())).collect()
}

fn strings(items: &[&str]) -> Vec<String> {
    items.iter().map(|s| s.to_string()).collect()
}

fn sheet() -> Vec<Vec<Cell>> {
    vec![
        vec![text("Event"), text("11&U"), number(13.0), text(" 15 ")],
        vec![text("200 Free"), text("2:30.00"), number(130.0), text("2:00.00")],
        vec![text("100 Fly"), number(80.0), text(""), number(70.0)],
        vec![Cell::Other, number(1.0), number(2.0), number(3.0)],
        vec![text("  "), number(1.0), number(2.0), number(3.0)],
        vec![text("50 Back"), number(40.0)],
    ]
}

#[test]
fn header_gives_each_column_its_age_group() {
    assert_eq!(header_ages(&sheet()[0]), columns(&[None, Some("11"), Some("13"), Some("15")]));
    assert_eq!(header_ages(&Vec::new()), columns(&[]));
    assert_eq!(header_ages(&vec![text("Event")]), columns(&[None]));
    assert_eq!(header_ages(&vec![text("13"), text("11")]), columns(&[None, Some("11")]));
}

#[test]
fn header_cells_without_a_label_head_no_age_group() {
    let header = vec![text("13"), text("11"), Cell::Other, text("  "), text("13&U"), text("&U")];
    assert_eq!(
        header_ages(&header),
        columns(&[None, Some("11"), None, None, Some("13"), Some("")])
    );
}

#[test]
fn row_names_its_event_in_the_first_cell() {
    assert_eq!(event_of_row(&vec![text(" 200 Free ")]), Some(String::from("200Fr")));
    assert_eq!(event_of_row(&vec![text("   ")]), None);
    assert_eq!(event_of_row(&vec![number(200.0)]), None);
    assert_eq!(event_of_row(&vec![Cell::Other, text("200 Free")]), None);
    assert_eq!(event_of_row(&Vec::new()), None);
}

#[test]
fn row_gives_each_age_group_the_time_in_its_column() {
    let ages = columns(&[None, Some("11"), Some("13"), Some("15")]);
    let s = sheet();
    assert_eq!(
        standards_of_row(&ages, &s[1]),
        vec![age("11", 150.0), age("13", 130.0), age("15", 120.0)]
    );
    assert_eq!(standards_of_row(&ages, &s[2]), vec![age("11", 80.0), age("15", 70.0)]);
    assert_eq!(standards_of_row(&ages, &s[5]), vec![age("11", 40.0)]);
    assert_eq!(standards_of_row(&ages, &Vec::new()), Vec::new());
}

#[test]
fn cell_belongs_to_the_age_group_that_heads_its_column() {
    let header = vec![text("Event"), text("11"), Cell::Other, text("13")];
    let ages = header_ages(&header);
    assert_eq!(ages, columns(&[None, Some("11"), None, Some("13")]));
    let row = vec![text("200 Free"), number(1.0), number(2.0), number(3.0)];
    assert_eq!(standards_of_row(&ages, &row), vec![age("11", 1.0), age("13", 3.0)]);
}

#[test]
fn blank_heading_does_not_shift_the_columns_behind_it() {
    let mens = vec![
        vec![text("Event"), Cell::Other, text("13")],
        vec![text("200 Free"), number(999.0), number(130.0)],
    ];
    let table = load_time_standards(&mens, &Vec::new());
    assert_eq!(table.standard("Men", "200Fr", "13"), Some(secs(130.0)));
    assert_eq!(
        table.men.events,
        vec![EventStandards { event: String::from("200Fr"), ages: vec![age("13", 130.0)] }]
    );
}

#[test]
fn first_column_gives_no_standard_even_when_it_holds_a_time() {
    let ages = columns(&[Some("11"), Some("13")]);
    let row = vec![number(1.0), number(2.0)];
    assert_eq!(standards_of_row(&ages, &row), vec![age("11", 1.0), age("13", 2.0)]);
    let ages = header_ages(&vec![text("11"), text("13")]);
    assert_eq!(standards_of_row(&ages, &row), vec![age("13", 2.0)]);
}

#[test]
fn later_column_of_one_age_group_replaces_the_earlier() {
    let ages = columns(&[None, Some("11"), Some("13"), Some("11")]);
    let row = vec![text("200 Free"), number(1.0), number(2.0), number(3.0)];
    assert_eq!(standards_of_row(&ages, &row), vec![age("11", 3.0), age("13", 2.0)]);
    let row = vec![text("200 Free"), number(1.0), number(2.0), text("DQ")];
    assert_eq!(standards_of_row(&ages, &row), vec![age("11", 1.0), age("13", 2.0)]);
}

#[test]
fn insert_age_replaces_or_appends() {
    let mut ages = vec![age("11", 1.0), age("13", 2.0)];
    insert_age(&mut ages, String::from("13"), secs(5.0));
    assert_eq!(ages, vec![age("11", 1.0), age("13", 5.0)]);
    insert_age(&mut ages, String::from("15"), secs(6.0));
    assert_eq!(ages, vec![age("11", 1.0), age("13", 5.0), age("15", 6.0)]);
}

#[test]
fn insert_event_replaces_or_appends() {
    let mut events = Vec::new();
    insert_event(&mut events, String::from("200Fr"), vec![age("11", 1.0)]);
    insert_event(&mut events, String::from("100Bu"), vec![age("11", 2.0)]);
    insert_event(&mut events, String::from("200Fr"), vec![age("13", 3.0)]);
    assert_eq!(
        events,
        vec![
            EventStandards { event: String::from("200Fr"), ages: vec![age("13", 3.0)] },
            EventStandards { event: String::from("100Bu"), ages: vec![age("11", 2.0)] },
        ]
    );
}

#[test]
fn sheet_gives_events_and_their_order() {
    let standards = standards_of_sheet(&sheet());
    assert_eq!(standards.order, strings(&["200Fr", "100Bu", "50Bk"]));
    assert_eq!(
        standards.events,
        vec![
            EventStandards {
                event: String::from("200Fr"),
                ages: vec![age("11", 150.0), age("13", 130.0), age("15", 120.0)],
            },
            EventStandards {
                event: String::from("100Bu"),
                ages: vec![age("11", 80.0), age("15", 70.0)],
            },
            EventStandards { event: String::from("50Bk"), ages: vec![age("11", 40.0)] },
        ]
    );
}

#[test]
fn event_named_twice_keeps_the_later_row_and_both_places_in_the_order() {
    let rows = vec![
        vec![text("Event"), text("11"), text("13")],
        vec![text("200 Free"), number(1.0), number(2.0)],
        vec![text("100 Fly"), number(3.0), number(4.0)],
        vec![text("200Free"), Cell::Other, number(5.0)],
    ];
    let standards = standards_of_sheet(&rows);
    assert_eq!(standards.order, strings(&["200Fr", "100Bu", "200Fr"]));
    assert_eq!(
        standards.events,
        vec![
            EventStandards { event: String::from("200Fr"), ages: vec![age("13", 5.0)] },
            EventStandards {
                event: String::from("100Bu"),
                ages: vec![age("11", 3.0), age("13", 4.0)],
            },
        ]
    );
}

#[test]
fn sheet_without_rows_gives_no_standards() {
    assert_eq!(standards_of_sheet(&Vec::new()), SexStandards::new());
    assert_eq!(standards_of_sheet(&vec![vec![text("Event"), text("11")]]), SexStandards::new());
    assert_eq!(SexStandards::new().events, Vec::new());
    assert_eq!(SexStandards::new().order, strings(&[]));
}

#[test]
fn table_is_looked_up_by_sex_event_and_age() {
    let womens = vec![
        vec![text("Event"), text("13")],
        vec![text("200 Free"), text("2:20.00")],
    ];
    let table = load_time_standards(&sheet(), &womens);
    assert_eq!(table.standard("Men", "200Fr", "13"), Some(secs(130.0)));
    assert_eq!(table.standard("Men", "200Fr", "11"), Some(secs(150.0)));
    assert_eq!(table.standard("Men", "100Bu", "13"), None);
    assert_eq!(table.standard("Men", "200 Free", "13"), None);
    assert_eq!(table.standard("Men", "200Fr", "13&U"), None);
    assert_eq!(table.standard("Women", "200Fr", "13"), Some(secs(140.0)));
    assert_eq!(table.standard("Women", "100Bu", "13"), None);
    assert_eq!(table.standard("M", "200Fr", "13"), None);
    assert_eq!(table.standard("Mens", "200Fr", "13"), None);
    assert!(table.sex("Men").is_some());
    assert!(table.sex("Women").is_some());
    assert!(table.sex("men").is_none());
    assert_eq!(
        table.event("Men", "100Bu").map(|e| e.labels()),
        Some(strings(&["11", "15"]))
    );
    assert!(table.event("Women", "100Bu").is_none());
    assert_eq!(table.men.event("50Bk").map(|e| e.standard("11")), Some(Some(secs(40.0))));
}

#[test]
fn missing_sheet_leaves_the_sex_without_standards() {
    let table = load_time_standards(&sheet(), &Vec::new());
    assert_eq!(table.women, SexStandards::new());
    assert_eq!(table.standard("Women", "200Fr", "13"), None);
    assert_eq!(table.standard("Men", "200Fr", "13"), Some(secs(130.0)));
}
