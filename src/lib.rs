//! A minimal spreadsheet engine: a sparse grid of cell values and a small
//! formula language of numbers, cell references, `+` and `-`.

pub mod address;
pub mod dtypes;
pub mod formulas;
pub mod parsing;
pub mod sheet;
pub mod text;
