//! Conversions between flat text offsets (byte or character indices) and
//! one-based `(line, column)` positions, plus [`span::Span`], a shared,
//! immutable range view into a source text.
//!
//! Lines are separated by `'\n'` only; a `'\r'` is an ordinary character, so
//! CRLF line endings need no special handling.
use vstd::prelude::*;

pub mod model;
pub mod position;
pub mod span;
pub mod theorems;

pub use position::{
    char_index, char_line_column, char_line_columns, index, line_column, line_columns,
    line_columns_unchecked,
};
