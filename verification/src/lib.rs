//! A small markup parser: a lexer turns source text into a stream of
//! tokens, and a recursive-descent parser consumes that stream to build a
//! document tree, validating tag balance along the way. All textual
//! payloads borrow from the source text; the tree's lifetime is bounded
//! by it.
//!
//! - `token`: the lexical symbols.
//! - `chars`: the character classes the lexer goes by.
//! - `lexer`: the cursor over the remaining source, with its scanning
//!   model (`trim_front`, `classify`, ...).
//! - `dom`: the tree — text leaves, elements, attribute maps.
//! - `grammar`: the grammar as spec functions; `parses_to` says what
//!   `parse` returns, and the lemmas here prove it deterministic and
//!   whitespace-insensitive.
//! - `parser`: the recursive descent itself, proved against `grammar`.
pub mod chars;
pub mod token;
pub mod dom;
pub mod lexer;
pub mod grammar;
pub mod parser;
