//! Qualifier counting for swim meets.
//!
//! Meet results and qualifying standards arrive as tables of cells. The
//! library brings event names and age labels to one canonical form, resolves
//! an athlete's age to the nearest age group that has a standard, and counts
//! the results and the athletes that meet their standard.

pub mod ages;
pub mod athletes;
pub mod cells;
pub mod lookup;
pub mod meet;
pub mod names;
pub mod qualifiers;
pub mod report;
pub mod seconds;
pub mod sheet;
pub mod standards;
pub mod text;
