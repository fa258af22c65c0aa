//! A verified lexical scanner for a minimal arithmetic grammar.
//!
//! The scanner turns a UTF-8 byte stream into a sequence of tokens
//! (`+ - * /` and unsigned integer literals), skipping whitespace and
//! line (`// ...`) and block (`/* ... */`) comments.  Positions and
//! faults are tracked by an error reporter that hands out opaque
//! handles to the recorded errors.

pub mod error;
pub mod source;
pub mod lexer;
