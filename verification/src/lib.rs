//! A spreadsheet engine with verified contracts: formulas over cells, two
//! evaluation engines (the whole sheet in dependency order, or only the
//! cells connected to a change), the commands of a modal editor, and the
//! sheet as text in three file formats.

pub mod assoc;
pub mod text;
pub mod columns;
pub mod formula;
pub mod stats;
pub mod sheet;
pub mod vim;
pub mod incremental;
