//! What the library decides of the terminal it draws on, from what the
//! terminal reports.
use vstd::prelude::*;

verus! {

/// Whether to use the fancy progress display: when standard output is a
/// terminal, which `isatty` reports with 1.
pub fn use_fancy(isatty: i32) -> (r: bool)
    ensures
        r == (isatty == 1),
{
    isatty == 1
}

/// The width to draw to, from the width in columns the terminal reports;
/// a width under 10 is too narrow to use and is ignored.
pub fn get_cols(width: u16) -> (r: Option<usize>)
    ensures
        width < 10 ==> r is None,
        width >= 10 ==> r == Some(width as usize),
{
    if width < 10 {
        None
    } else {
        Some(width as usize)
    }
}

} // verus!
