//! Formatting options.

use vstd::prelude::*;

verus! {

/// How keywords are written.
#[derive(PartialEq, Eq, Structural, Clone, Copy, Debug)]
pub enum KeywordCase {
    /// `SELECT`
    Upper,
    /// `select`
    Lower,
    /// As they were read.
    Preserve,
}

/// The line width of the default options.
pub const DEFAULT_LINE_WIDTH: usize = 80;

/// What the formatter may be told.
#[derive(Clone, Copy, Debug)]
pub struct FormatOptions {
    /// How keywords are written.
    pub keyword_case: KeywordCase,
    /// The width lines are kept to: a clause that does not fit is written
    /// one item per line, and a space becomes a line break where the next
    /// token would run past it.
    pub line_width: usize,
}

impl Default for FormatOptions {
    /// Keywords in upper case, lines of 80 characters.
    fn default() -> (o: FormatOptions)
        ensures
            o.keyword_case == KeywordCase::Upper,
            o.line_width == DEFAULT_LINE_WIDTH,
    {
        FormatOptions { keyword_case: KeywordCase::Upper, line_width: DEFAULT_LINE_WIDTH }
    }
}

} // verus!
