//! The results of a meet: what the name of a result file says, and the
//! results that its sheets hold.

use vstd::prelude::*;
use vstd::string::*;
use crate::cells::{cell_seconds, cell_text, text_of, time_to_seconds, Cell, Row};
use crate::lookup::views;
use crate::names::{normalize_event_name, normalized_event};
use crate::seconds::Seconds;
use crate::text::{fields, replace, replaced, split, texts};

verus! {

/// The column of a result row that holds the time.
pub const TIME_COLUMN: usize = 9;

/// The column of a result row that holds the athlete's name.
pub const NAME_COLUMN: usize = 4;

/// One timed swim of one athlete.
#[derive(Clone, Debug, PartialEq, Eq)]
pub struct MeetResult {
    pub course: String,
    pub sex: String,
    /// The age group as the file's name gives it.
    pub age: String,
    /// The event, in canonical form.
    pub event: String,
    pub time: Seconds,
    /// The athlete's name; empty where the row gave none.
    pub name: String,
}

/// The model of a `MeetResult`.
pub ghost struct ResultModel {
    pub course: Seq<char>,
    pub sex: Seq<char>,
    pub age: Seq<char>,
    pub event: Seq<char>,
    pub time: Seconds,
    pub name: Seq<char>,
}

impl View for MeetResult {
    type V = ResultModel;

    open spec fn view(&self) -> ResultModel {
        ResultModel {
            course: self.course@,
            sex: self.sex@,
            age: self.age@,
            event: self.event@,
            time: self.time,
            name: self.name@,
        }
    }
}

/// What the name of a result file says of all results in the file.
#[derive(Clone, Debug, PartialEq, Eq)]
pub struct MeetFile {
    pub course: String,
    pub sex: String,
    pub age: String,
}

/// The model of a `MeetFile`.
pub ghost struct MeetFileModel {
    pub course: Seq<char>,
    pub sex: Seq<char>,
    pub age: Seq<char>,
}

impl View for MeetFile {
    type V = MeetFileModel;

    open spec fn view(&self) -> MeetFileModel {
        MeetFileModel { course: self.course@, sex: self.sex@, age: self.age@ }
    }
}

/// Why the name of a result file cannot be read.
#[derive(Clone, Copy, Debug, PartialEq, Eq)]
pub enum MalformedFilename {
    /// The name has fewer than five parts between underscores.
    TooFewTokens,
    /// The fifth part is not two ages with one hyphen between them.
    InvalidAgeRange,
}

/// One sheet of a result file. Its name is the event.
#[derive(Clone, Debug, PartialEq, Eq)]
pub struct Sheet {
    pub name: String,
    pub rows: Vec<Row>,
}

/// The name of a file without the endings `.xlsx` and `.xls`, wherever
/// they stand in it.
pub open spec fn file_stem(name: Seq<char>) -> Seq<char> {
    replaced(replaced(name, ".xlsx"@, ""@), ".xls"@, ""@)
}

/// What the name of a result file says.
///
/// The parts of the name stand between underscores. The third is the
/// course, the fourth the sex, the fifth a range of ages, of which the
/// upper end is the age group of the file.
pub open spec fn meet_file(name: Seq<char>) -> Result<MeetFileModel, MalformedFilename> {
    let tokens = fields(file_stem(name), '_');
    if tokens.len() < 5 {
        Err(MalformedFilename::TooFewTokens)
    } else {
        let range = fields(tokens[4], '-');
        if range.len() != 2 {
            Err(MalformedFilename::InvalidAgeRange)
        } else {
            Ok(MeetFileModel { course: tokens[2], sex: tokens[3], age: range[1] })
        }
    }
}

/// The name that a cell gives: its text, trimmed, or nothing where it is
/// no text.
pub open spec fn athlete_name(cell: Cell) -> Seq<char> {
    match cell_text(cell) {
        Some(name) => name,
        None => Seq::empty(),
    }
}

/// The result that a row holds. A row holds one where it reaches beyond
/// the column of the time and that cell holds a time above zero.
pub open spec fn row_result(file: MeetFileModel, event: Seq<char>, row: Seq<Cell>) -> Option<
    ResultModel,
> {
    if row.len() <= TIME_COLUMN {
        None
    } else {
        match cell_seconds(row[TIME_COLUMN as int]) {
            Some(time) => if time.positive() {
                Some(
                    ResultModel {
                        course: file.course,
                        sex: file.sex,
                        age: file.age,
                        event,
                        time,
                        name: athlete_name(row[NAME_COLUMN as int]),
                    },
                )
            } else {
                None
            },
            None => None,
        }
    }
}

/// The results that the first `n` of `rows` hold, in the order of the
/// rows.
pub open spec fn rows_results(file: MeetFileModel, event: Seq<char>, rows: Seq<Row>, n: int) -> Seq<
    ResultModel,
>
    decreases n,
{
    if n <= 0 {
        Seq::empty()
    } else {
        let before = rows_results(file, event, rows, n - 1);
        match row_result(file, event, rows[n - 1]@) {
            Some(result) => before.push(result),
            None => before,
        }
    }
}

/// The results that a sheet holds. A sheet whose name is no event holds
/// none.
pub open spec fn sheet_results(file: MeetFileModel, sheet: Sheet) -> Seq<ResultModel> {
    match normalized_event(sheet.name@) {
        Some(event) => rows_results(file, event, sheet.rows@, sheet.rows@.len() as int),
        None => Seq::empty(),
    }
}

/// The results that the first `n` of `sheets` hold, sheet after sheet.
pub open spec fn sheets_results(file: MeetFileModel, sheets: Seq<Sheet>, n: int) -> Seq<ResultModel>
    decreases n,
{
    if n <= 0 {
        Seq::empty()
    } else {
        sheets_results(file, sheets, n - 1) + sheet_results(file, sheets[n - 1])
    }
}

/// The results of the file with the name `name` and the sheets `sheets`.
pub open spec fn file_results(name: Seq<char>, sheets: Seq<Sheet>) -> Result<
    Seq<ResultModel>,
    MalformedFilename,
> {
    match meet_file(name) {
        Ok(file) => Ok(sheets_results(file, sheets, sheets.len() as int)),
        Err(e) => Err(e),
    }
}

/// Whether a result is one of the file: it has the course, sex and age
/// group of the file, and a time above zero.
pub open spec fn is_result_of(result: ResultModel, file: MeetFileModel) -> bool {
    &&& result.course == file.course
    &&& result.sex == file.sex
    &&& result.age == file.age
    &&& result.time.positive()
}

/// Every result of a run of rows is one of the file and of the event.
pub proof fn lemma_rows_results(file: MeetFileModel, event: Seq<char>, rows: Seq<Row>, n: int)
    ensures
        forall|i: int|
            0 <= i < rows_results(file, event, rows, n).len() ==> is_result_of(
                #[trigger] rows_results(file, event, rows, n)[i],
                file,
            ) && rows_results(file, event, rows, n)[i].event == event,
    decreases n,
{
    if n > 0 {
        lemma_rows_results(file, event, rows, n - 1);
        let before = rows_results(file, event, rows, n - 1);
        let after = rows_results(file, event, rows, n);
        assert forall|i: int| 0 <= i < after.len() implies is_result_of(#[trigger] after[i], file)
            && after[i].event == event by {
            if i < before.len() {
                assert(after[i] == before[i]);
            }
        }
    }
}

/// Every result of a file has the course, sex and age group of the file,
/// and a time above zero.
pub proof fn lemma_sheets_results(file: MeetFileModel, sheets: Seq<Sheet>, n: int)
    ensures
        forall|i: int|
            0 <= i < sheets_results(file, sheets, n).len() ==> is_result_of(
                #[trigger] sheets_results(file, sheets, n)[i],
                file,
            ),
    decreases n,
{
    if n > 0 {
        lemma_sheets_results(file, sheets, n - 1);
        let sheet = sheets[n - 1];
        let before = sheets_results(file, sheets, n - 1);
        let added = sheet_results(file, sheet);
        match normalized_event(sheet.name@) {
            Some(event) => {
                lemma_rows_results(file, event, sheet.rows@, sheet.rows@.len() as int);
            },
            None => {},
        }
        assert forall|i: int| 0 <= i < (before + added).len() implies is_result_of(
            #[trigger] (before + added)[i],
            file,
        ) by {
            if i < before.len() {
                assert((before + added)[i] == before[i]);
            } else {
                assert((before + added)[i] == added[i - before.len()]);
            }
        }
    }
}

/// Reads the name of a result file.
pub fn parse_meet_filename(name: &str) -> (r: Result<MeetFile, MalformedFilename>)
    ensures
        match r {
            Ok(file) => meet_file(name@) == Ok::<MeetFileModel, MalformedFilename>(file@),
            Err(e) => meet_file(name@) == Err::<MeetFileModel, MalformedFilename>(e),
        },
{
    let stem = replace(name, ".xlsx", "");
    let stem = replace(stem.as_str(), ".xls", "");
    let tokens = split(stem.as_str(), '_');
    assert(texts(tokens@).len() == tokens.len());
    if tokens.len() < 5 {
        return Err(MalformedFilename::TooFewTokens);
    }
    let mut range = split(tokens[4].as_str(), '-');
    assert(texts(tokens@)[4] == tokens@[4]@);
    assert(texts(tokens@)[3] == tokens@[3]@);
    assert(texts(tokens@)[2] == tokens@[2]@);
    assert(texts(range@).len() == range.len());
    if range.len() != 2 {
        return Err(MalformedFilename::InvalidAgeRange);
    }
    assert(texts(range@)[1] == range@[1]@);
    let age = range.pop().unwrap();
    Ok(MeetFile { course: tokens[2].clone(), sex: tokens[3].clone(), age })
}

/// The result that a row holds, if it holds one.
pub fn result_of_row(file: &MeetFile, event: &str, row: &Vec<Cell>) -> (r: Option<MeetResult>)
    ensures
        match r {
            Some(result) => row_result(file@, event@, row@) == Some(result@),
            None => row_result(file@, event@, row@) is None,
        },
{
    if row.len() <= TIME_COLUMN {
        return None;
    }
    let time = match time_to_seconds(&row[TIME_COLUMN]) {
        Some(time) => time,
        None => {
            return None;
        },
    };
    if !time.is_positive() {
        return None;
    }
    let name = match text_of(&row[NAME_COLUMN]) {
        Some(name) => String::from_str(name),
        None => String::new(),
    };
    Some(
        MeetResult {
            course: file.course.clone(),
            sex: file.sex.clone(),
            age: file.age.clone(),
            event: String::from_str(event),
            time,
            name,
        },
    )
}

/// Adds the results that `sheet` holds to `results`.
pub fn results_of_sheet(file: &MeetFile, sheet: &Sheet, results: &mut Vec<MeetResult>)
    ensures
        views(final(results)@) == views(old(results)@) + sheet_results(file@, *sheet),
{
    let event = match normalize_event_name(sheet.name.as_str()) {
        Some(event) => event,
        None => {
            assert(views(results@) + Seq::<ResultModel>::empty() =~= views(results@));
            return ;
        },
    };
    let mut n: usize = 0;
    assert(views(results@) + rows_results(file@, event@, sheet.rows@, 0) =~= views(results@));
    while n < sheet.rows.len()
        invariant
            n <= sheet.rows.len(),
            views(results@) == views(old(results)@) + rows_results(
                file@,
                event@,
                sheet.rows@,
                n as int,
            ),
        decreases sheet.rows.len() - n,
    {
        let ghost before = views(results@);
        match result_of_row(file, event.as_str(), &sheet.rows[n]) {
            Some(result) => {
                results.push(result);
                assert(views(results@) =~= before.push(result@));
                assert(views(results@) =~= views(old(results)@) + rows_results(
                    file@,
                    event@,
                    sheet.rows@,
                    n + 1,
                ));
            },
            None => {},
        }
        n += 1;
    }
}

/// The results of the file with the name `file_name` and the sheets
/// `sheets`, sheet after sheet and row after row. The file has results
/// exactly when its name can be read.
pub fn parse_meet_file(file_name: &str, sheets: &Vec<Sheet>) -> (r: Result<
    Vec<MeetResult>,
    MalformedFilename,
>)
    ensures
        match r {
            Ok(results) => file_results(file_name@, sheets@) == Ok::<
                Seq<ResultModel>,
                MalformedFilename,
            >(views(results@)),
            Err(e) => file_results(file_name@, sheets@) == Err::<
                Seq<ResultModel>,
                MalformedFilename,
            >(e),
        },
        r matches Ok(results) ==> forall|i: int|
            0 <= i < results.len() ==> (#[trigger] results[i]).time.positive(),
{
    let file = match parse_meet_filename(file_name) {
        Ok(file) => file,
        Err(e) => {
            return Err(e);
        },
    };
    let mut results: Vec<MeetResult> = Vec::new();
    let mut n: usize = 0;
    assert(views(results@) =~= sheets_results(file@, sheets@, 0));
    while n < sheets.len()
        invariant
            n <= sheets.len(),
            views(results@) == sheets_results(file@, sheets@, n as int),
        decreases sheets.len() - n,
    {
        results_of_sheet(&file, &sheets[n], &mut results);
        n += 1;
    }
    proof {
        lemma_sheets_results(file@, sheets@, sheets.len() as int);
        assert forall|i: int| 0 <= i < results.len() implies (#[trigger] results[i]).time.positive() by {
            assert(views(results@)[i] == results[i]@);
        }
    }
    Ok(results)
}

} // verus!
