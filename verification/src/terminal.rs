//! The width of the terminal.

use vstd::prelude::*;

verus! {

/// The width that is assumed where the terminal does not tell its own.
pub const DEFAULT_TERMINAL_WIDTH: u16 = 80;

/// Asks `termsize::get` for the size of the terminal behind standard output
/// and hands on its column count, or `None` where `termsize::get` has no
/// answer. The answer depends on the terminal, so nothing is claimed of it.
#[verifier::external_body]
pub(crate) fn terminal_columns() -> (columns: Option<u16>) {
    match termsize::get() {
        Some(size) => Some(size.cols),
        None => None,
    }
}

/// The width to lay out for, given what the terminal reported.
pub open spec fn width_or_default(columns: Option<u16>) -> u16 {
    match columns {
        Some(width) => width,
        None => DEFAULT_TERMINAL_WIDTH,
    }
}

/// The reported width, or 80 columns where none was reported.
pub fn terminal_width(columns: Option<u16>) -> (width: u16)
    ensures
        width == width_or_default(columns),
{
    match columns {
        Some(width) => width,
        None => DEFAULT_TERMINAL_WIDTH,
    }
}

} // verus!
