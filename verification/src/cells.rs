//! The cells of a sheet, as the library reads them.

use vstd::prelude::*;
use vstd::string::*;
use crate::seconds::{time_shape, time_text, Seconds, TimeShape, TimeText};
use crate::text::{trim, trimmed};

verus! {

/// One cell of a sheet.
///
/// Whoever reads the sheet computes the numbers: the library takes them as
/// they are and decides what they are used for.
#[derive(Clone, Debug, PartialEq, Eq)]
pub enum Cell {
    /// A number: the seconds it stands for, and the text that displays it.
    Number { seconds: Seconds, shown: String },
    /// A date or a time of day, as the seconds that its fraction of a day
    /// lasts.
    DateTime { seconds: Seconds },
    /// A text, and the number of seconds found in it by reading its parts
    /// as `time_text` names them.
    Text { text: String, number: Option<Seconds> },
    /// Anything else: an empty cell, a truth value, an error.
    Other,
}

/// A row of cells.
pub type Row = Vec<Cell>;

/// The time in seconds that a cell holds.
///
/// A number is one; a date or time is one; a text is one where its shape
/// is that of a time and a number was read from it; no other cell is.
pub open spec fn cell_seconds(cell: Cell) -> Option<Seconds> {
    match cell {
        Cell::Number { seconds, .. } => Some(seconds),
        Cell::DateTime { seconds } => Some(seconds),
        Cell::Text { text, number } => if time_shape(text@) is Absent {
            None
        } else {
            number
        },
        Cell::Other => None,
    }
}

/// The text of a cell, trimmed; `None` for a cell that is no text.
pub open spec fn cell_text(cell: Cell) -> Option<Seq<char>> {
    match cell {
        Cell::Text { text, .. } => Some(trimmed(text@)),
        _ => None,
    }
}

/// The label that a cell gives as a column heading: a text trimmed, a
/// number as it is displayed, and nothing for any other cell.
pub open spec fn cell_label(cell: Cell) -> Seq<char> {
    match cell {
        Cell::Number { shown, .. } => shown@,
        Cell::Text { text, .. } => trimmed(text@),
        _ => Seq::empty(),
    }
}

/// The time in seconds that a cell holds, if it holds one.
pub fn time_to_seconds(cell: &Cell) -> (r: Option<Seconds>)
    ensures
        r == cell_seconds(*cell),
{
    match cell {
        Cell::Number { seconds, .. } => Some(*seconds),
        Cell::DateTime { seconds } => Some(*seconds),
        Cell::Text { text, number } => {
            match time_text(text.as_str()) {
                TimeText::Absent => None,
                _ => *number,
            }
        },
        Cell::Other => None,
    }
}

/// The text of a cell, trimmed, if the cell is a text.
pub fn text_of(cell: &Cell) -> (r: Option<&str>)
    ensures
        match r {
            Some(text) => cell_text(*cell) == Some(text@),
            None => cell_text(*cell) is None,
        },
{
    match cell {
        Cell::Text { text, .. } => Some(trim(text.as_str())),
        _ => None,
    }
}

/// The label that a cell gives as a column heading.
pub fn label_of(cell: &Cell) -> (r: String)
    ensures
        r@ == cell_label(*cell),
{
    match cell {
        Cell::Number { shown, .. } => shown.clone(),
        Cell::Text { text, .. } => String::from_str(trim(text.as_str())),
        _ => String::new(),
    }
}

} // verus!
