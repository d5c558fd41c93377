use calamine::{Data, Reader, Xlsx};
use rust_xlsxwriter::{Workbook, Worksheet};
use std::io::Cursor;
use swim_qualifiers::athletes::{count_total_athletes, count_unique_qualifiers};
use swim_qualifiers::cells::Cell;
use swim_qualifiers::meet::{parse_meet_file, Sheet};
use swim_qualifiers::qualifiers::count_qualifiers;
use swim_qualifiers::report::ReportCell;
use swim_qualifiers::seconds::{time_text, Seconds, TimeText};
use swim_qualifiers::sheet::{report_sheet, rows_fit, write_rows, ReportError};
use swim_qualifiers::standards::{load_time_standards, SexStandards, StandardsTable};

fn secs(x: f64) -> Seconds {
    Seconds::from_bits(x.to_bits())
}

fn read(s: &str) -> Option<Seconds> {
    match time_text(s) {
        TimeText::Absent => None,
        TimeText::MinutesSeconds { minutes, seconds } => {
            let m: f64 = minutes.parse().ok()?;
            let s: f64 = seconds.parse().ok()?;
            Some(secs(m * 60.0 + s))
        }
        TimeText::Decimal { seconds } => seconds.parse::<f64>().ok().map(secs),
    }
}

fn text(s: &str) -> Cell {
    Cell::Text { text: s.to_string(), number: read(s) }
}

fn number(x: f64) -> Cell {
    Cell::Number { seconds: secs(x), shown: x.to_string() }
}

fn result_row(name: &str, time: &str) -> Vec<Cell> {
    let mut cells = vec![Cell::Other; 10];
    cells[4] = text(name);
    cells[9] = text(time);
    cells
}

fn one_standard() -> StandardsTable {
    let mens = vec![vec![text("Event"), text("13")], vec![text("200 Free"), number(130.0)]];
    load_time_standards(&mens, &Vec::new())
}

fn saved(sheets: Vec<Worksheet>) -> Xlsx<Cursor<Vec<u8>>> {
    let mut workbook = Workbook::new();
    for sheet in sheets {
        workbook.push_worksheet(sheet);
    }
    let bytes = workbook.save_to_buffer().unwrap();
    Xlsx::new(Cursor::new(bytes)).unwrap()
}

fn cells_of(book: &mut Xlsx<Cursor<Vec<u8>>>, sheet: &str) -> Vec<Vec<Data>> {
    let range = book.worksheet_range(sheet).unwrap();
    range.rows().map(|row| row.to_vec()).collect()
}

fn s(text_value: &str) -> Data {
    Data::String(text_value.to_string())
}

fn n(value: f64) -> Data {
    Data::Float(value)
}

fn report_of(time: &str) -> Xlsx<Cursor<Vec<u8>>> {
    let table = one_standard();
    let sheets = vec![Sheet {
        name: String::from("200 Free"),
        rows: vec![result_row("A. Swimmer", time)],
    }];
    let results = parse_meet_file("X_X_LCM_Men_00-13_meet.xlsx", &sheets).unwrap();
    let counts = count_qualifiers(&results, &table);
    let totals = count_total_athletes(&results, &table);
    let qualifiers = count_unique_qualifiers(&results, &table);
    let men = report_sheet("Men", &table, &counts, &totals, &qualifiers).unwrap();
    let women = report_sheet("Women", &table, &counts, &totals, &qualifiers).unwrap();
    saved(vec![men, women])
}

#[test]
fn saved_report_counts_the_qualifying_swim() {
    let mut book = report_of("2:05.00");
    assert_eq!(book.sheet_names(), vec![String::from("Mens"), String::from("Womens")]);
    assert_eq!(
        cells_of(&mut book, "Mens"),
        vec![
            vec![s("Event"), s("13")],
            vec![s("200Fr"), n(1.0)],
            vec![Data::Empty, Data::Empty],
            vec![s("Total Unique Athletes"), n(1.0)],
            vec![s("Unique Qualifiers"), n(1.0)],
        ]
    );
}

#[test]
fn saved_report_does_not_count_the_slower_swim() {
    let mut book = report_of("2:15.00");
    assert_eq!(
        cells_of(&mut book, "Mens"),
        vec![
            vec![s("Event"), s("13")],
            vec![s("200Fr"), n(0.0)],
            vec![Data::Empty, Data::Empty],
            vec![s("Total Unique Athletes"), n(1.0)],
            vec![s("Unique Qualifiers"), n(0.0)],
        ]
    );
}

#[test]
fn saved_report_of_a_sex_without_standards_has_the_titles() {
    let mut book = report_of("2:05.00");
    assert_eq!(
        cells_of(&mut book, "Womens"),
        vec![
            vec![s("Event")],
            vec![Data::Empty],
            vec![s("Total Unique Athletes")],
            vec![s("Unique Qualifiers")],
        ]
    );
}

#[test]
fn report_of_an_unknown_sex_is_refused() {
    let table = one_standard();
    let counts = count_qualifiers(&Vec::new(), &table);
    let none = count_total_athletes(&Vec::new(), &table);
    let r = report_sheet("Mixed", &table, &counts, &none, &none);
    assert_eq!(r.err(), Some(ReportError::UnknownSex));
}

#[test]
fn report_with_a_cell_too_long_for_a_sheet_is_refused() {
    let table = StandardsTable {
        men: SexStandards { events: Vec::new(), order: vec!["x".repeat(32_768)] },
        women: SexStandards { events: Vec::new(), order: vec!["x".repeat(32_767)] },
    };
    let counts = count_qualifiers(&Vec::new(), &table);
    let none = count_total_athletes(&Vec::new(), &table);
    let r = report_sheet("Men", &table, &counts, &none, &none);
    assert_eq!(r.err(), Some(ReportError::TooLarge));
    assert!(report_sheet("Women", &table, &counts, &none, &none).is_ok());
}

#[test]
fn written_rows_go_to_their_rows_and_columns() {
    let rows = vec![
        vec![ReportCell::Text(String::from("a")), ReportCell::Count(7)],
        Vec::new(),
        vec![ReportCell::Text(String::new()), ReportCell::Text(String::from("b"))],
        vec![ReportCell::Count(0), ReportCell::Count(4000000000), ReportCell::Count(3)],
    ];
    let mut sheet = Worksheet::new();
    sheet.set_name("Rows").unwrap();
    assert!(rows_fit(&rows));
    assert!(write_rows(&mut sheet, &rows));
    let mut book = saved(vec![sheet]);
    assert_eq!(
        cells_of(&mut book, "Rows"),
        vec![
            vec![s("a"), n(7.0), Data::Empty],
            vec![Data::Empty, Data::Empty, Data::Empty],
            vec![Data::Empty, s("b"), Data::Empty],
            vec![n(0.0), n(4000000000.0), n(3.0)],
        ]
    );
}

#[test]
fn later_write_replaces_the_cell() {
    let mut sheet = Worksheet::new();
    sheet.set_name("Rows").unwrap();
    assert!(write_rows(&mut sheet, &vec![vec![ReportCell::Count(1), ReportCell::Count(2)]]));
    assert!(write_rows(&mut sheet, &vec![vec![ReportCell::Text(String::from("x"))]]));
    assert!(write_rows(&mut sheet, &vec![vec![ReportCell::Text(String::new())]]));
    let mut book = saved(vec![sheet]);
    assert_eq!(cells_of(&mut book, "Rows"), vec![vec![s("x"), n(2.0)]]);
}

#[test]
fn rows_beyond_the_sheet_are_not_written() {
    let wide = vec![vec![ReportCell::Count(1); 16_385]];
    assert!(!rows_fit(&wide));
    let long = vec![vec![ReportCell::Text("x".repeat(32_768))]];
    assert!(!rows_fit(&long));
    let mut sheet = Worksheet::new();
    sheet.set_name("Rows").unwrap();
    assert!(write_rows(&mut sheet, &vec![vec![ReportCell::Count(5)]]));
    assert!(!write_rows(&mut sheet, &wide));
    assert!(!write_rows(&mut sheet, &long));
    let mut book = saved(vec![sheet]);
    assert_eq!(cells_of(&mut book, "Rows"), vec![vec![n(5.0)]]);
}

#[test]
fn counts_of_any_size_are_written() {
    let rows = vec![vec![
        ReportCell::Count(4_294_967_296),
        ReportCell::Count(9_007_199_254_740_992),
        ReportCell::Count(9_007_199_254_740_993),
        ReportCell::Count(usize::MAX),
    ]];
    assert!(rows_fit(&rows));
    let mut sheet = Worksheet::new();
    sheet.set_name("Rows").unwrap();
    assert!(write_rows(&mut sheet, &rows));
    let mut book = saved(vec![sheet]);
    assert_eq!(
        cells_of(&mut book, "Rows"),
        vec![vec![
            n(4_294_967_296.0),
            n(9_007_199_254_740_992.0),
            n(9_007_199_254_740_992.0),
            n(usize::MAX as f64),
        ]]
    );
}

#[test]
fn rows_at_the_limits_of_the_sheet_are_written() {
    let mut rows = vec![vec![ReportCell::Count(1); 16_384]];
    rows.push(vec![ReportCell::Text("x".repeat(32_767)), ReportCell::Count(4_294_967_295)]);
    assert!(rows_fit(&rows));
    let mut sheet = Worksheet::new();
    sheet.set_name("Rows").unwrap();
    assert!(write_rows(&mut sheet, &rows));
    let mut book = saved(vec![sheet]);
    let cells = cells_of(&mut book, "Rows");
    assert_eq!(cells[0].len(), 16_384);
    assert_eq!(cells[0][16_383], n(1.0));
    assert_eq!(cells[1][0], s(&"x".repeat(32_767)));
    assert_eq!(cells[1][1], n(4_294_967_295.0));
}
