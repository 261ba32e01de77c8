//! The error reported for a line that violates the grammar.

use vstd::prelude::*;

verus! {

/// A grammar violation. `LineParse(text, index)` points at the character
/// `index` of `text` where the parse failed. `text` is always the original
/// line with trailing whitespace removed, and `index` counts characters from
/// its start: a fault inside the value is translated by the value's offset
/// in the line.
#[derive(Debug, PartialEq, Eq)]
pub enum Error {
    LineParse(String, usize),
}

/// Whether `e` is a `LineParse` error carrying exactly the text `text` and
/// the index `idx`.
pub open spec fn is_line_err(e: Error, text: Seq<char>, idx: int) -> bool {
    match e {
        Error::LineParse(t, i) => t@ == text && i as int == idx,
    }
}

} // verus!
