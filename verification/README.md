# snow_formatter

A formatter for Snowflake SQL whose guarantees are proved with Verus.

`format` reads the source as tokens, declines to touch anything it could
damage (text that does not read as tokens, text with comments, unbalanced
parentheses, text with a syntax error its grammar sees: all returned byte for
byte), and lays out everything else:
keywords in a chosen case, one statement per line, each clause of a query on
a line of its own, a clause that does not fit in the line width (80 by
default) written one item per line, a line break in place of a space where
the next token would run past the width, `;` after each statement and
a single final line break.

Layout of `src/`:

- `text.rs`: characters, casing, and the trailing-newline rule.
- `lexer.rs`: the lexical grammar as a spec function, the executable
  tokenizer proved equal to it, and the fact that a token's end depends only
  on its own text and the character after it.
- `grammar.rs`: the statements the formatter lays out, as a predicate on
  the meaningful tokens, and its executable check.
- `layout.rs`: token classes, keyword casing, what is written between two
  tokens, and the executable counterparts.
- `relex.rs`: reading a laid-out text back gives the tokens it was written
  from.
- `formatter.rs`: the formatter as a spec function and its executable form.
- `laws.rs`: idempotency, token preservation, comments never dropped,
  syntax errors returned unchanged, the width changing only line breaks,
  well-formed output, and the laws of the trailing-newline rule.
- `options.rs`, `embedded.rs`: options and the seam for formatters of
  embedded-language bodies.
