//! Plain values exchanged with an editor: byte spans, and positions and
//! ranges counted in lines and UTF-16 code units.

use vstd::prelude::*;

verus! {

/// A half-open range of UTF-8 byte offsets into a text.
#[derive(Clone, Copy, Debug, PartialEq, Eq, Structural)]
pub struct Span(pub usize, pub usize);

/// A position in a text: a zero-based line and a zero-based column counted
/// in UTF-16 code units from the start of that line.
#[derive(Clone, Copy, Debug, PartialEq, Eq, Structural)]
pub struct Position {
    pub line: u32,
    pub character: u32,
}

impl Position {
    pub fn new(line: u32, character: u32) -> (p: Self)
        ensures
            p.line == line,
            p.character == character,
    {
        Position { line, character }
    }
}

/// A range between two positions.
#[derive(Clone, Copy, Debug, PartialEq, Eq, Structural)]
pub struct Range {
    pub start: Position,
    pub end: Position,
}

impl Range {
    pub fn new(start: Position, end: Position) -> (r: Self)
        ensures
            r.start == start,
            r.end == end,
    {
        Range { start, end }
    }
}

impl Default for Range {
    fn default() -> (r: Self)
        ensures
            r == (Range { start: Position { line: 0, character: 0 }, end: Position { line: 0, character: 0 } }),
    {
        Range { start: Position { line: 0, character: 0 }, end: Position { line: 0, character: 0 } }
    }
}

} // verus!

verus! {

/// How serious a diagnostic is.
#[derive(Clone, Copy, Debug, PartialEq, Eq, Structural)]
pub enum DiagnosticSeverity {
    Error,
    Warning,
    Information,
    Hint,
}

/// A message about a range of a document.
#[derive(Clone, Debug, PartialEq, Eq)]
pub struct Diagnostic {
    pub range: Range,
    pub severity: Option<DiagnosticSeverity>,
    pub source: Option<String>,
    pub message: String,
}

} // verus!
