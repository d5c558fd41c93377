use swim_qualifiers::cells::Cell;
use swim_qualifiers::meet::{
    parse_meet_file, parse_meet_filename, result_of_row, results_of_sheet, MalformedFilename,
    MeetFile, MeetResult, Sheet, NAME_COLUMN, TIME_COLUMN,
};
use swim_qualifiers::seconds::{time_text, Seconds, TimeText};

fn secs(x: f64) -> Seconds {
    Seconds::from_bits(x.to_bits())
}

fn read(s: &str) -> Option<Seconds> {
    match time_text(s) {
        TimeText::Absent => None,
        TimeText::MinutesSeconds { minutes, seconds } => {
            let m: f64 = minutes.parse().ok()?;
            let s: f64 = seconds.parse().ok()?;
            Some(secs(m * 60.0 + s))
        }
        TimeText::Decimal { seconds } => seconds.parse::<f64>().ok().map(secs),
    }
}

fn text(s: &str) -> Cell {
    Cell::Text { text: s.to_string(), number: read(s) }
}

fn number(x: f64) -> Cell {
    Cell::Number { seconds: secs(x), shown: x.to_string() }
}

fn row(name: Cell, time: Cell) -> Vec<Cell> {
    let mut cells = vec![Cell::Other; 10];
    cells[NAME_COLUMN] = name;
    cells[TIME_COLUMN] = time;
    cells
}

fn file() -> MeetFile {
    MeetFile { course: String::from("LCM"), sex: String::from("Men"), age: String::from("13") }
}

fn result(event: &str, time: f64, name: &str) -> MeetResult {
    MeetResult {
        course: String::from("LCM"),
        sex: String::from("Men"),
        age: String::from("13"),
        event: event.to_string(),
        time: secs(time),
        name: name.to_string(),
    }
}

#[test]
fn file_name_gives_course_sex_and_age() {
    let expected = MeetFile {
        course: String::from("LCM"),
        sex: String::from("M"),
        age: String::from("13"),
    };
    assert_eq!(parse_meet_filename("X_X_LCM_M_00-13_results.xlsx"), Ok(expected.clone()));
    assert_eq!(parse_meet_filename("X_X_LCM_M_00-13.xlsx"), Ok(expected.clone()));
    assert_eq!(parse_meet_filename("X_X_LCM_M_00-13.xls"), Ok(expected.clone()));
    assert_eq!(parse_meet_filename("X_X_LCM_M_00-13"), Ok(expected));
    assert_eq!(
        parse_meet_filename("CAN-MBSK_2024_SCM_Women_14-15_finals_v2.xlsx"),
        Ok(MeetFile {
            course: String::from("SCM"),
            sex: String::from("Women"),
            age: String::from("15"),
        })
    );
}

#[test]
fn file_name_with_few_parts_is_malformed() {
    assert_eq!(parse_meet_filename("X_X_LCM_M.xlsx"), Err(MalformedFilename::TooFewTokens));
    assert_eq!(parse_meet_filename(""), Err(MalformedFilename::TooFewTokens));
    assert_eq!(parse_meet_filename("results.xlsx"), Err(MalformedFilename::TooFewTokens));
}

#[test]
fn file_name_with_bad_age_range_is_malformed() {
    assert_eq!(
        parse_meet_filename("X_X_LCM_M_13_x.xlsx"),
        Err(MalformedFilename::InvalidAgeRange)
    );
    assert_eq!(
        parse_meet_filename("X_X_LCM_M_00-13-15_x.xlsx"),
        Err(MalformedFilename::InvalidAgeRange)
    );
    assert_eq!(parse_meet_filename("X_X_LCM_M_"), Err(MalformedFilename::InvalidAgeRange));
}

#[test]
fn file_name_keeps_empty_parts() {
    assert_eq!(
        parse_meet_filename("____-"),
        Ok(MeetFile { course: String::new(), sex: String::new(), age: String::new() })
    );
}

#[test]
fn row_with_a_time_above_zero_holds_a_result() {
    let r = result_of_row(&file(), "200Fr", &row(text(" A. Swimmer "), text("2:05.00")));
    assert_eq!(r, Some(result("200Fr", 125.0, "A. Swimmer")));
    let r = result_of_row(&file(), "200Fr", &row(text("B"), number(130.5)));
    assert_eq!(r, Some(result("200Fr", 130.5, "B")));
}

#[test]
fn short_row_holds_no_result() {
    let mut cells = row(text("A"), number(100.0));
    cells.truncate(9);
    assert_eq!(result_of_row(&file(), "200Fr", &cells), None);
    assert_eq!(result_of_row(&file(), "200Fr", &Vec::new()), None);
    cells.push(number(100.0));
    assert_eq!(result_of_row(&file(), "200Fr", &cells), Some(result("200Fr", 100.0, "A")));
}

#[test]
fn row_without_a_time_above_zero_holds_no_result() {
    assert_eq!(result_of_row(&file(), "200Fr", &row(text("A"), number(0.0))), None);
    assert_eq!(result_of_row(&file(), "200Fr", &row(text("A"), number(-3.0))), None);
    assert_eq!(result_of_row(&file(), "200Fr", &row(text("A"), number(f64::NAN))), None);
    assert_eq!(result_of_row(&file(), "200Fr", &row(text("A"), text("DQ"))), None);
    assert_eq!(result_of_row(&file(), "200Fr", &row(text("A"), text(""))), None);
    assert_eq!(result_of_row(&file(), "200Fr", &row(text("A"), Cell::Other)), None);
}

#[test]
fn row_without_a_name_gives_an_empty_name() {
    let r = result_of_row(&file(), "200Fr", &row(Cell::Other, number(100.0)));
    assert_eq!(r, Some(result("200Fr", 100.0, "")));
    let r = result_of_row(&file(), "200Fr", &row(text("   "), number(100.0)));
    assert_eq!(r, Some(result("200Fr", 100.0, "")));
    let r = result_of_row(&file(), "200Fr", &row(number(7.0), number(100.0)));
    assert_eq!(r, Some(result("200Fr", 100.0, "")));
}

#[test]
fn sheet_results_follow_the_rows() {
    let sheet = Sheet {
        name: String::from("200 Free"),
        rows: vec![
            row(text("Name"), text("Time")),
            row(text("A"), text("2:05.00")),
            vec![Cell::Other; 3],
            row(text("B"), text("2:15.00")),
        ],
    };
    let mut results = vec![result("50Fr", 30.0, "Z")];
    results_of_sheet(&file(), &sheet, &mut results);
    assert_eq!(
        results,
        vec![result("50Fr", 30.0, "Z"), result("200Fr", 125.0, "A"), result("200Fr", 135.0, "B")]
    );
}

#[test]
fn sheet_with_a_blank_name_is_passed_over() {
    let sheet = Sheet { name: String::from("  "), rows: vec![row(text("A"), number(100.0))] };
    let mut results = Vec::new();
    results_of_sheet(&file(), &sheet, &mut results);
    assert_eq!(results, Vec::new());
}

#[test]
fn file_results_go_sheet_after_sheet() {
    let sheets = vec![
        Sheet { name: String::from("200 Free"), rows: vec![row(text("A"), text("2:05.00"))] },
        Sheet { name: String::from(""), rows: vec![row(text("C"), number(1.0))] },
        Sheet { name: String::from("100 Fly"), rows: vec![row(text("B"), number(70.0))] },
    ];
    assert_eq!(
        parse_meet_file("X_X_LCM_Men_00-13_x.xlsx", &sheets),
        Ok(vec![result("200Fr", 125.0, "A"), result("100Bu", 70.0, "B")])
    );
    assert_eq!(parse_meet_file("bad.xlsx", &sheets), Err(MalformedFilename::TooFewTokens));
    assert_eq!(parse_meet_file("X_X_LCM_Men_00-13_x.xlsx", &Vec::new()), Ok(Vec::new()));
}
