//! The report as a worksheet that can be saved.
//!
//! The worksheet is that of the crate `rust_xlsxwriter`. What its methods
//! do is taken on trust from their source; what is written where is
//! decided and proved here.

use vstd::prelude::*;
use vstd::string::*;
use rust_xlsxwriter::Worksheet;
use crate::athletes::AthleteGroups;
use crate::lookup::views;
use crate::qualifiers::QualifierCounts;
use crate::report::{report, report_rows, report_view, ReportCell, ReportEntry};
use crate::standards::StandardsTable;
use crate::text::same_text;

verus! {

/// A worksheet of `rust_xlsxwriter`. Nothing of its inside is known here.
#[verifier::external_type_specification]
#[verifier::external_body]
pub struct ExWorksheet(rust_xlsxwriter::Worksheet);

/// The cells that a worksheet holds, by row and column.
pub uninterp spec fn sheet_cells(sheet: Worksheet) -> Map<(int, int), ReportEntry>;

/// The name of a worksheet.
pub uninterp spec fn sheet_title(sheet: Worksheet) -> Seq<char>;

/// The whole number that a cell holds in the place of `count`, where
/// `count` is above `EXACT_LIMIT`: the nearest one that a cell can hold.
pub uninterp spec fn rounded_count(count: u64) -> nat;

/// The largest whole number up to which a cell holds every whole number
/// as it is.
pub const EXACT_LIMIT: u64 = 9_007_199_254_740_992;

/// The number of rows of a worksheet.
pub const ROW_LIMIT: u32 = 1_048_576;

/// The number of columns of a worksheet.
pub const COLUMN_LIMIT: u16 = 16_384;

/// The largest number of characters that a cell holds.
pub const TEXT_LIMIT: usize = 32_767;

/// The largest number of characters in the name of a worksheet.
pub const TITLE_LIMIT: usize = 31;

/// Whether a character may stand in the name of a worksheet.
pub open spec fn is_title_char(c: char) -> bool {
    c != '*' && c != '?' && c != ':' && c != '[' && c != ']' && c != '\\' && c != '/'
}

/// Whether a worksheet can have the name `name`: it is not empty and not
/// longer than `TITLE_LIMIT`, none of its characters is one of
/// `* ? : [ ] \ /`, and it neither begins nor ends with an apostrophe.
pub open spec fn valid_title(name: Seq<char>) -> bool {
    &&& 0 < name.len() <= TITLE_LIMIT
    &&& forall|i: int| 0 <= i < name.len() ==> is_title_char(#[trigger] name[i])
    &&& name.first() != '\''
    &&& name.last() != '\''
}

/// The cells of an empty worksheet.
pub open spec fn no_cells() -> Map<(int, int), ReportEntry> {
    Map::empty()
}

/// Calls `Worksheet::new`, which makes a worksheet without a name and
/// without cells.
#[verifier::external_body]
fn new_sheet() -> (sheet: Worksheet)
    ensures
        sheet_cells(sheet) == no_cells(),
        sheet_title(sheet) == Seq::<char>::empty(),
{
    Worksheet::new()
}

/// Calls `Worksheet::set_name`. It checks the name by the rules that
/// `valid_title` states and, where the name passes, gives it to the
/// worksheet; where not, it fails and changes nothing. The cells stay.
#[verifier::external_body]
fn set_title(sheet: &mut Worksheet, name: &str) -> (ok: bool)
    ensures
        ok == valid_title(name@),
        sheet_cells(*final(sheet)) == sheet_cells(*old(sheet)),
        sheet_title(*final(sheet)) == if ok {
            name@
        } else {
            sheet_title(*old(sheet))
        },
{
    sheet.set_name(name).is_ok()
}

/// Calls `Worksheet::write_string`. An empty text is accepted and
/// ignored, wherever it is to go. Any other text is stored at its row and
/// column, in the place of what stood there, if the row is below
/// `ROW_LIMIT`, the column below `COLUMN_LIMIT` and the text has at most
/// `TEXT_LIMIT` characters; else the call fails and no cell changes.
#[verifier::external_body]
fn write_text(sheet: &mut Worksheet, row: u32, column: u16, text: &str) -> (ok: bool)
    ensures
        ok == (text@.len() == 0 || (row < ROW_LIMIT && column < COLUMN_LIMIT && text@.len()
            <= TEXT_LIMIT)),
        sheet_title(*final(sheet)) == sheet_title(*old(sheet)),
        sheet_cells(*final(sheet)) == if ok && text@.len() > 0 {
            sheet_cells(*old(sheet)).insert((row as int, column as int), ReportEntry::Text(text@))
        } else {
            sheet_cells(*old(sheet))
        },
{
    sheet.write_string(row, column, text).is_ok()
}

/// Calls `Worksheet::write` with a whole number of 64 bits, which stores
/// it as a number. The number is stored at its row and column, in the
/// place of what stood there, if the row is below `ROW_LIMIT` and the
/// column below `COLUMN_LIMIT`; else the call fails and no cell changes.
/// A cell holds a whole number up to `EXACT_LIMIT` as it is, and a larger
/// one as `rounded_count` names it.
#[verifier::external_body]
fn write_count(sheet: &mut Worksheet, row: u32, column: u16, count: u64) -> (ok: bool)
    ensures
        ok == (row < ROW_LIMIT && column < COLUMN_LIMIT),
        sheet_title(*final(sheet)) == sheet_title(*old(sheet)),
        sheet_cells(*final(sheet)) == if ok {
            sheet_cells(*old(sheet)).insert(
                (row as int, column as int),
                ReportEntry::Count(
                    if count <= EXACT_LIMIT {
                        count as nat
                    } else {
                        rounded_count(count)
                    },
                ),
            )
        } else {
            sheet_cells(*old(sheet))
        },
{
    sheet.write(row, column, count).is_ok()
}

/// Why a report cannot be put on a worksheet.
#[derive(Clone, Copy, Debug, PartialEq, Eq)]
pub enum ReportError {
    /// The sex is neither `Men` nor `Women`.
    UnknownSex,
    /// The report has more rows or columns than a worksheet, or a text
    /// that is too long for a cell.
    TooLarge,
}

/// Whether a worksheet can hold the entry in one cell.
pub open spec fn entry_fits(entry: ReportEntry) -> bool {
    match entry {
        ReportEntry::Text(text) => text.len() <= TEXT_LIMIT,
        ReportEntry::Count(count) => count <= u64::MAX,
    }
}

/// What a cell holds once an entry is written to it: a text as it is, a
/// count up to `EXACT_LIMIT` as it is, a larger count rounded.
pub open spec fn stored(entry: ReportEntry) -> ReportEntry {
    match entry {
        ReportEntry::Text(text) => ReportEntry::Text(text),
        ReportEntry::Count(count) => ReportEntry::Count(
            if count <= EXACT_LIMIT {
                count
            } else {
                rounded_count(count as u64)
            },
        ),
    }
}

/// Whether a worksheet can hold the rows.
pub open spec fn fits(rows: Seq<Seq<ReportEntry>>) -> bool {
    &&& rows.len() <= ROW_LIMIT
    &&& forall|i: int| 0 <= i < rows.len() ==> (#[trigger] rows[i]).len() <= COLUMN_LIMIT
    &&& forall|i: int, j: int|
        0 <= i < rows.len() && 0 <= j < rows[i].len() ==> entry_fits(#[trigger] rows[i][j])
}

/// Whether an entry leaves anything in its cell. An empty text leaves the
/// cell as it was.
pub open spec fn is_written(entry: ReportEntry) -> bool {
    match entry {
        ReportEntry::Text(text) => text.len() > 0,
        ReportEntry::Count(_) => true,
    }
}

/// The cells that the first `i` of `rows` and the first `j` entries of
/// the row behind them fill: entry `j` of row `i` goes to row `i`, column
/// `j`, and the cell holds what `stored` says.
pub open spec fn cells_before(rows: Seq<Seq<ReportEntry>>, i: int, j: int) -> Map<
    (int, int),
    ReportEntry,
> {
    Map::new(
        |at: (int, int)|
            0 <= at.0 < rows.len() && 0 <= at.1 < rows[at.0].len() && is_written(rows[at.0][at.1])
                && (at.0 < i || (at.0 == i && at.1 < j)),
        |at: (int, int)| stored(rows[at.0][at.1]),
    )
}

/// The cells that `rows` fill.
pub open spec fn cells_of(rows: Seq<Seq<ReportEntry>>) -> Map<(int, int), ReportEntry> {
    cells_before(rows, rows.len() as int, 0)
}

/// The name of the worksheet for a sex.
pub open spec fn report_title(sex: Seq<char>) -> Seq<char> {
    if sex == "Men"@ {
        "Mens"@
    } else {
        "Womens"@
    }
}

/// Whether a worksheet can hold the rows.
pub fn rows_fit(rows: &Vec<Vec<ReportCell>>) -> (r: bool)
    ensures
        r == fits(report_view(rows@)),
{
    let ghost model = report_view(rows@);
    if rows.len() > ROW_LIMIT as usize {
        return false;
    }
    let mut i: usize = 0;
    while i < rows.len()
        invariant
            i <= rows.len(),
            model == report_view(rows@),
            forall|k: int| 0 <= k < i ==> (#[trigger] model[k]).len() <= COLUMN_LIMIT,
            forall|k: int, j: int|
                0 <= k < i && 0 <= j < model[k].len() ==> entry_fits(#[trigger] model[k][j]),
        decreases rows.len() - i,
    {
        let row = &rows[i];
        assert(model[i as int] == views(row@));
        if row.len() > COLUMN_LIMIT as usize {
            return false;
        }
        let mut j: usize = 0;
        while j < row.len()
            invariant
                j <= row.len(),
                i < rows.len(),
                model == report_view(rows@),
                model[i as int] == views(row@),
                forall|k: int| 0 <= k < j ==> entry_fits(#[trigger] model[i as int][k]),
            decreases row.len() - j,
        {
            assert(model[i as int][j as int] == row[j as int]@);
            let ok = match &row[j] {
                ReportCell::Text(text) => text.as_str().unicode_len() <= TEXT_LIMIT,
                ReportCell::Count(_) => true,
            };
            if !ok {
                return false;
            }
            j += 1;
        }
        i += 1;
    }
    true
}

/// Writes the rows to a worksheet: entry `j` of row `i` to row `i`,
/// column `j`. Rows that the worksheet cannot hold are not written at
/// all.
pub fn write_rows(sheet: &mut Worksheet, rows: &Vec<Vec<ReportCell>>) -> (written: bool)
    ensures
        written == fits(report_view(rows@)),
        sheet_title(*final(sheet)) == sheet_title(*old(sheet)),
        sheet_cells(*final(sheet)) == if written {
            sheet_cells(*old(sheet)).union_prefer_right(cells_of(report_view(rows@)))
        } else {
            sheet_cells(*old(sheet))
        },
{
    if !rows_fit(rows) {
        return false;
    }
    let ghost model = report_view(rows@);
    let ghost start = sheet_cells(*sheet);
    let mut i: usize = 0;
    assert(start.union_prefer_right(cells_before(model, 0, 0)) =~= start);
    while i < rows.len()
        invariant
            i <= rows.len(),
            model == report_view(rows@),
            fits(model),
            sheet_title(*sheet) == sheet_title(*old(sheet)),
            start == sheet_cells(*old(sheet)),
            sheet_cells(*sheet) == start.union_prefer_right(cells_before(model, i as int, 0)),
        decreases rows.len() - i,
    {
        let row = &rows[i];
        assert(model[i as int] == views(row@));
        let mut j: usize = 0;
        while j < row.len()
            invariant
                j <= row.len(),
                i < rows.len(),
                model == report_view(rows@),
                model[i as int] == views(row@),
                fits(model),
                sheet_title(*sheet) == sheet_title(*old(sheet)),
                start == sheet_cells(*old(sheet)),
                sheet_cells(*sheet) == start.union_prefer_right(
                    cells_before(model, i as int, j as int),
                ),
            decreases row.len() - j,
        {
            assert(model[i as int][j as int] == row[j as int]@);
            assert(entry_fits(model[i as int][j as int]));
            let ghost before = sheet_cells(*sheet);
            let stored = match &row[j] {
                ReportCell::Text(text) => write_text(sheet, i as u32, j as u16, text.as_str()),
                ReportCell::Count(count) => write_count(sheet, i as u32, j as u16, *count as u64),
            };
            if !stored {
                return false;
            }
            assert(sheet_cells(*sheet) =~= start.union_prefer_right(
                cells_before(model, i as int, j + 1),
            ));
            j += 1;
        }
        assert(cells_before(model, i as int, j as int) =~= cells_before(model, i + 1, 0));
        i += 1;
    }
    true
}

/// Makes the worksheet of the report of one sex, `Men` or `Women`: it
/// has the name `Mens` or `Womens` and holds the rows of `report_rows`.
pub fn report_sheet(
    sex: &str,
    table: &StandardsTable,
    counts: &QualifierCounts,
    totals: &AthleteGroups,
    qualifiers: &AthleteGroups,
) -> (r: Result<Worksheet, ReportError>)
    ensures
        match r {
            Ok(sheet) => table@.sex(sex@) is Some && sheet_title(sheet) == report_title(sex@)
                && sheet_cells(sheet) == cells_of(
                report(sex@, table@, counts@, totals@, qualifiers@),
            ),
            Err(ReportError::UnknownSex) => table@.sex(sex@) is None,
            Err(ReportError::TooLarge) => table@.sex(sex@) is Some && !fits(
                report(sex@, table@, counts@, totals@, qualifiers@),
            ),
        },
{
    if table.sex(sex).is_none() {
        return Err(ReportError::UnknownSex);
    }
    let rows = report_rows(sex, table, counts, totals, qualifiers);
    let mut sheet = new_sheet();
    let title = if same_text(sex, "Men") {
        "Mens"
    } else {
        "Womens"
    };
    proof {
        reveal_strlit("Mens");
        reveal_strlit("Womens");
        assert(valid_title(title@));
    }
    if !set_title(&mut sheet, title) || !write_rows(&mut sheet, &rows) {
        return Err(ReportError::TooLarge);
    }
    assert(sheet_cells(sheet) =~= cells_of(report_view(rows@)));
    Ok(sheet)
}

} // verus!
