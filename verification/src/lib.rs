//! A formatter for Snowflake SQL, with its guarantees proved.
//!
//! The pipeline:
//!
//! ```text
//! source ──lex──▶ tokens ──check──▶ meaningful tokens ──lay out──▶ formatted text
//! ```
//!
//! * [`lexer`] reads the source as a lossless sequence of tokens.
//! * [`grammar`] says which sequences of tokens are statements the formatter
//!   lays out: queries (`SELECT`, `WITH`, `VALUES`, or one in parentheses)
//!   and `CREATE` statements whose tokens follow each other as an expression
//!   or a clause allows.
//! * [`layout`] decides, token by token, what is written between two tokens
//!   (nothing, a space or a line break) and writes keywords in the chosen
//!   case. Short clauses stay on one line; a clause that would run past
//!   [`FormatOptions::line_width`] is exploded, one item per line, and a
//!   space becomes a line break where the next token would run past it.
//! * [`formatter`] puts them together: [`format`] is total and conservative.
//!   It returns the input unchanged when it does not read as tokens, when it
//!   contains a comment, when its parentheses are unbalanced, or when the
//!   grammar does not accept it (a syntax error); otherwise it returns the
//!   laid-out text, which ends in a single line break.
//!
//! [`laws`] states and proves the guarantees: formatting is idempotent, keeps
//! every meaningful token, never drops a comment, returns text with a syntax
//! error unchanged, changes only line breaks when the line width changes,
//! and writes text that the grammar accepts and that is formatted again to
//! itself.

pub mod options;
pub mod text;
pub mod lexer;
pub mod layout;
pub mod grammar;
pub mod relex;
pub mod formatter;
pub mod embedded;
pub mod laws;

pub use text::normalize_trailing_newline;
pub use embedded::EmbeddedFormatter;
pub use options::{FormatOptions, KeywordCase, DEFAULT_LINE_WIDTH};
pub use formatter::is_formattable;

use vstd::prelude::*;
use formatter::{spec_format, format_source};

verus! {

/// Formats Snowflake SQL with the default options.
///
/// Equivalent to [`format_with`] using [`FormatOptions::default`]: keywords in
/// upper case, lines of 80 characters.
pub fn format(source: &str) -> (res: String)
    ensures
        res@ == spec_format(source@, KeywordCase::Upper, DEFAULT_LINE_WIDTH as nat),
{
    format_with(source, &FormatOptions::default())
}

/// Formats Snowflake SQL with explicit [`FormatOptions`].
///
/// Returns `source` unchanged when it cannot be read as tokens (a quoted text
/// or block comment is never closed), when it contains a comment, when its
/// parentheses are not balanced, or when it is not a sequence of statements
/// that [`grammar`] accepts; otherwise returns the reformatted SQL, which
/// ends in a single line break (or is empty when the input has no tokens).
pub fn format_with(source: &str, opts: &FormatOptions) -> (res: String)
    ensures
        res@ == spec_format(source@, opts.keyword_case, opts.line_width as nat),
{
    format_source(source, opts.keyword_case, opts.line_width)
}

} // verus!
