//! The seam between the SQL formatter and a formatter for the bodies written
//! in another language inside `$$ ... $$` (a JavaScript UDF, for example).
//!
//! [`crate::format`] uses no such formatter: bodies are written exactly as
//! they were read.

use vstd::prelude::*;

verus! {

/// Formats an embedded-language body. Implementors decide which languages
/// they handle.
pub trait EmbeddedFormatter {
    /// Formats `body` (the text between the `$$` delimiters) written in
    /// `language` (lower-cased, e.g. `"javascript"`). Returns
    /// `Some(formatted)` to replace the body, or `None` to leave it untouched.
    fn format(&self, language: &str, body: &str) -> Option<String>;
}

} // verus!
