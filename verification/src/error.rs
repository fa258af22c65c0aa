//! Position tracking and positioned error records.
//!
//! The [`ErrorManager`] owns the current source position (1-based line and
//! column) and an append-only table of positioned error records.  Reporting
//! an error hands back a lightweight opaque handle ([`ErrorId`]) instead of
//! the full record; the records themselves can be read out at the end.

use vstd::prelude::*;

verus! {

/// Which table of records a handle points into.  Only lexical errors
/// exist today; the enum leaves room for more categories later.
#[derive(Clone, Copy, Debug, PartialEq, Eq)]
enum ErrorCategory {
    Lexer,
}

/// An opaque handle to one recorded error: a category tag plus the
/// record's insertion index within that category.  It is valid only
/// against the [`ErrorManager`] that produced it.
#[derive(Clone, Copy, Debug, PartialEq, Eq)]
pub struct ErrorId {
    category: ErrorCategory,
    id: usize,
}

impl ErrorId {
    /// The insertion index of the record this handle points to.
    pub closed spec fn index(self) -> int {
        self.id as int
    }
}

/// A lexical fault: the byte stream was not valid UTF-8, or a character
/// that cannot begin any token was met.
#[derive(Clone, Copy, Debug, PartialEq, Eq)]
pub enum LexerError {
    /// The underlying bytes do not form well-formed UTF-8.
    DecodeFault,
    /// The character does not begin any token.
    UnexpectedChar(char),
}

/// `x + 1`, staying put at the largest `u32` instead of overflowing.
pub open spec fn sat_inc(x: u32) -> u32 {
    if x == u32::MAX {
        x
    } else {
        (x + 1) as u32
    }
}

/// Tracks the current (line, column) position and accumulates positioned
/// error records in detection order.
pub struct ErrorManager {
    line: u32,
    column: u32,
    lexer_errors: Vec<(u32, u32, LexerError)>,
}

impl ErrorManager {
    /// The current 1-based line.
    pub closed spec fn line_spec(self) -> u32 {
        self.line
    }

    /// The current 1-based column.
    pub closed spec fn column_spec(self) -> u32 {
        self.column
    }

    /// All records so far, in detection order, each with the position
    /// it was recorded at.
    pub closed spec fn records(self) -> Seq<(u32, u32, LexerError)> {
        self.lexer_errors@
    }

    /// A fresh reporter: position (1, 1), no records.
    pub fn new() -> (r: ErrorManager)
        ensures
            r.line_spec() == 1,
            r.column_spec() == 1,
            r.records() == Seq::<(u32, u32, LexerError)>::empty(),
    {
        ErrorManager { line: 1, column: 1, lexer_errors: Vec::new() }
    }

    /// Appends `(current line, current column, e)` to the record table and
    /// returns a handle that identifies the new record by insertion order.
    pub fn report_lexer_error(&mut self, e: LexerError) -> (id: ErrorId)
        ensures
            final(self).records() == old(self).records().push(
                (old(self).line_spec(), old(self).column_spec(), e),
            ),
            final(self).line_spec() == old(self).line_spec(),
            final(self).column_spec() == old(self).column_spec(),
            id.index() == old(self).records().len(),
    {
        let id = ErrorId { category: ErrorCategory::Lexer, id: self.lexer_errors.len() };
        self.lexer_errors.push((self.line, self.column, e));
        id
    }

    /// A line terminator was consumed: move to the start of the next line.
    /// The line count saturates instead of overflowing.
    pub fn new_line(&mut self)
        ensures
            final(self).line_spec() == sat_inc(old(self).line_spec()),
            final(self).column_spec() == 1,
            final(self).records() == old(self).records(),
    {
        if self.line < u32::MAX {
            self.line = self.line + 1;
        }
        self.column = 1;
    }

    /// A character was consumed: move one column to the right.
    /// The column count saturates instead of overflowing.
    pub fn next_column(&mut self)
        ensures
            final(self).column_spec() == sat_inc(old(self).column_spec()),
            final(self).line_spec() == old(self).line_spec(),
            final(self).records() == old(self).records(),
    {
        if self.column < u32::MAX {
            self.column = self.column + 1;
        }
    }

    /// All records so far, in detection order.
    pub fn errors(&self) -> (r: &Vec<(u32, u32, LexerError)>)
        ensures
            r@ == self.records(),
    {
        &self.lexer_errors
    }
}

} // verus!
