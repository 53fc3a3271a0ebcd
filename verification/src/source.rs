//! A document's text together with its line index, and the translation of
//! LALRPOP's error locations into editor ranges.

use vstd::prelude::*;
use vstd::string::StringSliceAdditionalSpecFns;
use vstd::utf8::*;

use crate::analysis::{DiagnosticError, ErrorLoc};
use crate::round_trip::{lemma_char_boundary_subrange, lemma_position_exists};
use crate::line_index::{are_line_starts, line_starts, spec_offset, spec_position, LineIndex, LF};
use crate::text::{char_len_utf8, substring};
use crate::types::{Diagnostic, DiagnosticSeverity, Position, Range, Span};

verus! {

/// Number of `\n` bytes in `b`.
pub open spec fn lf_count(b: Seq<u8>) -> nat
    decreases b.len(),
{
    if b.len() == 0 {
        0
    } else {
        lf_count(b.drop_last()) + if b.last() == LF {
            1nat
        } else {
            0nat
        }
    }
}

/// `p` is where line `line` starts when, as LALRPOP counts them, only `\n`
/// separates lines: the start of the text for line 0, otherwise just past
/// the `line`-th `\n`.
pub open spec fn is_lalrpop_line_start(b: Seq<u8>, line: int, p: int) -> bool {
    &&& 0 <= p <= b.len()
    &&& lf_count(b.take(p)) == line
    &&& (p == 0 || b[p - 1] == LF)
}

/// `q` is the first `\n` at or after `from`, or the end of the text.
pub open spec fn is_next_lf(b: Seq<u8>, from: int, q: int) -> bool {
    &&& from <= q <= b.len()
    &&& (q == b.len() || b[q] == LF)
    &&& forall|r: int| from <= r < q ==> b[r] != LF
}

/// The byte offset of LALRPOP's line `line` and byte column `column`: the
/// column is clamped to the end of the line, and an offset that is not a
/// character boundary has no place in the text.
pub open spec fn spec_lalrpop_offset(b: Seq<u8>, line: int, column: int) -> Option<usize> {
    if !exists|p: int| is_lalrpop_line_start(b, line, p) {
        None
    } else {
        let start = choose|p: int| is_lalrpop_line_start(b, line, p);
        let end = choose|q: int| is_next_lf(b, start, q);
        if start + column > usize::MAX {
            None
        } else {
            let offset = if start + column < end {
                start + column
            } else {
                end
            };
            if is_char_boundary(b, offset) {
                Some(offset as usize)
            } else {
                None
            }
        }
    }
}

/// Offset just past the character that starts at `offset` (or `offset`
/// itself at the end of the text).
pub open spec fn char_end(b: Seq<u8>, offset: int) -> int {
    if offset < b.len() {
        offset + encode_scalar(decode_utf8(b.subrange(offset, b.len() as int))[0] as u32).len()
    } else {
        offset
    }
}

/// At a character boundary inside valid UTF-8 text, `char_end` is the next
/// character boundary: it lies past `offset`, within the text, on a boundary,
/// and no boundary lies between the two.
pub proof fn lemma_char_end_is_next_boundary(b: Seq<u8>, offset: int)
    requires
        valid_utf8(b),
        0 <= offset < b.len(),
        is_char_boundary(b, offset),
    ensures
        offset < char_end(b, offset) <= b.len(),
        is_char_boundary(b, char_end(b, offset)),
        forall|i: int| offset < i < char_end(b, offset) ==> !is_char_boundary(b, i),
{
    let d = b.subrange(offset, b.len() as int);
    valid_utf8_split(b, offset);
    assert(valid_utf8(d));
    let n = length_of_first_scalar(d);
    decode_utf8_first_scalar(d);
    assert(decode_utf8(d)[0] == decode_first_scalar(d) as char);
    assert(n <= d.len());
    assert(take_first_scalar(d).len() == n);
    assert(char_end(b, offset) == offset + n);
    is_char_boundary_start_end_of_seq(b);
    assert(is_char_boundary(pop_first_scalar(d), 0));
    assert(is_char_boundary(d, n));
    assert forall|i: int| 0 <= i <= d.len() implies is_char_boundary(d, i) == is_char_boundary(
        b,
        offset + i,
    ) by {
        lemma_char_boundary_subrange(b, offset, b.len() as int, offset + i);
    }
    assert forall|i: int| offset < i < char_end(b, offset) implies !is_char_boundary(b, i) by {
        is_char_boundary_iff_not_is_continuation_byte(d, i - offset);
        assert(is_continuation_byte(d[i - offset]));
    }
}

/// The byte span that an error location covers: a point covers the
/// character that starts there.
pub open spec fn spec_error_span(b: Seq<u8>, loc: ErrorLoc) -> Option<(usize, usize)> {
    match loc {
        ErrorLoc::Point(line, column) => match spec_lalrpop_offset(b, line as int, column as int) {
            Some(start) => Some((start, char_end(b, start as int) as usize)),
            None => None,
        },
        ErrorLoc::Span { lo, hi } => match (
            spec_lalrpop_offset(b, lo.0 as int, lo.1 as int),
            spec_lalrpop_offset(b, hi.0 as int, hi.1 as int),
        ) {
            (Some(start), Some(end)) => Some((start, end)),
            _ => None,
        },
    }
}

/// The position of `offset` in the text whose bytes are `b`.
pub open spec fn text_position(b: Seq<u8>, offset: int) -> Option<Position> {
    spec_position(line_starts(b), b, offset)
}

/// The range between the positions of the ends of `span` in the text whose
/// bytes are `b`.
pub open spec fn text_range(b: Seq<u8>, span: Span) -> Option<Range> {
    match (text_position(b, span.0 as int), text_position(b, span.1 as int)) {
        (Some(start), Some(end)) => Some(Range { start, end }),
        _ => None,
    }
}

/// The range that an error location covers, if it lies in the text.
pub open spec fn spec_error_range(b: Seq<u8>, loc: ErrorLoc) -> Option<Range> {
    match spec_error_span(b, loc) {
        Some((start, end)) => text_range(b, Span(start, end)),
        None => None,
    }
}

/// `d` is the diagnostic for `error` in the text whose bytes are `b`: an
/// error from the `lalrpop` source at the error's range, or at the start of
/// the text where the location lies outside it.
pub open spec fn is_diagnostic_for(b: Seq<u8>, error: DiagnosticError, d: Diagnostic) -> bool {
    &&& d.range == match spec_error_range(b, error.loc) {
        Some(range) => range,
        None => Range {
            start: Position { line: 0, character: 0 },
            end: Position { line: 0, character: 0 },
        },
    }
    &&& d.severity == Some(DiagnosticSeverity::Error)
    &&& d.source matches Some(s) && s@ == "lalrpop"@
    &&& d.message@ == error.message@
}

/// The number of `\n` bytes grows by one at each `\n`.
proof fn lemma_lf_count_take_next(b: Seq<u8>, k: int)
    requires
        0 <= k < b.len(),
    ensures
        lf_count(b.take(k + 1)) == lf_count(b.take(k)) + if b[k] == LF {
            1nat
        } else {
            0nat
        },
{
    assert(b.take(k + 1).drop_last() =~= b.take(k));
}

/// The number of `\n` bytes in a prefix does not shrink as the prefix grows,
/// and grows past a `\n`.
proof fn lemma_lf_count_mono(b: Seq<u8>, j: int, k: int)
    requires
        0 <= j <= k <= b.len(),
    ensures
        lf_count(b.take(j)) <= lf_count(b.take(k)),
        j < k && b[k - 1] == LF ==> lf_count(b.take(j)) < lf_count(b.take(k)),
    decreases k - j,
{
    if j < k {
        lemma_lf_count_take_next(b, k - 1);
        lemma_lf_count_mono(b, j, k - 1);
    }
}

/// A document's text and the index of its lines.
pub struct SourceText {
    text: String,
    line_index: LineIndex,
}

impl View for SourceText {
    type V = Seq<char>;

    /// The characters of the text.
    closed spec fn view(&self) -> Seq<char> {
        self.text@
    }
}

impl SourceText {
    /// The line index belongs to the text.
    pub closed spec fn wf(&self) -> bool {
        &&& self.line_index.wf()
        &&& self.line_index@ == line_starts(encode_utf8(self.text@))
        &&& are_line_starts(self.line_index@, encode_utf8(self.text@))
    }

    /// A point error that LALRPOP locates on a character inside the text
    /// always gets a range, from that character's start to the next
    /// character boundary (see `lemma_char_end_is_next_boundary`), when the
    /// text is short enough for LSP's 32-bit coordinates.
    pub proof fn lemma_point_error_has_range(&self, line: usize, column: usize)
        requires
            self.wf(),
            self.bytes().len() <= u32::MAX,
            spec_lalrpop_offset(self.bytes(), line as int, column as int) matches Some(o) && o
                < self.bytes().len(),
        ensures
            ({
                let b = self.bytes();
                let o = spec_lalrpop_offset(b, line as int, column as int)->0;
                &&& spec_error_span(b, ErrorLoc::Point(line, column)) == Some(
                    (o, char_end(b, o as int) as usize),
                )
                &&& spec_error_range(b, ErrorLoc::Point(line, column)) matches Some(r) && Some(
                    r,
                ) == text_range(b, Span(o, char_end(b, o as int) as usize))
            }),
    {
        let b = self.bytes();
        let o = spec_lalrpop_offset(b, line as int, column as int)->0;
        encode_utf8_valid_utf8(self@);
        let start = choose|p: int| is_lalrpop_line_start(b, line as int, p);
        assert(is_char_boundary(b, o as int));
        lemma_char_end_is_next_boundary(b, o as int);
        let e = char_end(b, o as int);
        lemma_position_exists(line_starts(b), b, o as int);
        lemma_position_exists(line_starts(b), b, e);
    }

    /// The bytes of the text.
    pub open spec fn bytes(&self) -> Seq<u8> {
        encode_utf8(self@)
    }

    pub fn new(text: String) -> (s: Self)
        ensures
            s.wf(),
            s@ == text@,
    {
        let line_index = LineIndex::new(text.as_str());
        SourceText { text, line_index }
    }

    /// A copy of this text.
    pub fn duplicate(&self) -> (s: Self)
        requires
            self.wf(),
        ensures
            s.wf(),
            s@ == self@,
    {
        SourceText::new(self.text.clone())
    }

    pub fn as_str(&self) -> (s: &str)
        ensures
            s@ == self@,
            s.spec_bytes() == self.bytes(),
    {
        self.text.as_str()
    }

    /// The index of the lines of the text.
    pub fn line_index(&self) -> (index: &LineIndex)
        requires
            self.wf(),
        ensures
            index.wf(),
            index@ == line_starts(self.bytes()),
    {
        &self.line_index
    }

    /// The byte offset of `position`.
    pub fn offset(&self, position: Position) -> (r: Option<usize>)
        requires
            self.wf(),
        ensures
            r == spec_offset(line_starts(self.bytes()), self.bytes(), position),
            r matches Some(o) ==> o <= self.bytes().len(),
    {
        self.line_index.offset(self.as_str(), position)
    }

    /// The position of byte offset `offset`.
    pub fn position(&self, offset: usize) -> (r: Option<Position>)
        requires
            self.wf(),
        ensures
            r == text_position(self.bytes(), offset as int),
    {
        self.line_index.position(self.as_str(), offset)
    }

    /// The range between the positions of the ends of `span`.
    pub fn range(&self, span: Span) -> (r: Option<Range>)
        requires
            self.wf(),
        ensures
            r == text_range(self.bytes(), span),
    {
        let start = match self.position(span.0) {
            Some(p) => p,
            None => {
                return None;
            },
        };
        let end = match self.position(span.1) {
            Some(p) => p,
            None => {
                return None;
            },
        };
        Some(Range { start, end })
    }

    /// The byte offset of LALRPOP's line `line` and byte column
    /// `byte_column`. LALRPOP treats only `\n` as a line separator; the
    /// resulting offset is then converted through the LSP line index.
    pub fn lalrpop_offset(&self, line: usize, byte_column: usize) -> (r: Option<usize>)
        ensures
            r == spec_lalrpop_offset(self.bytes(), line as int, byte_column as int),
    {
        let text = self.as_str();
        let bytes = text.as_bytes();
        let ghost b = self.bytes();
        let len = bytes.len();
        let mut line_start: usize = 0;
        if line > 0 {
            let mut count: usize = 0;
            let mut i: usize = 0;
            let mut found = false;
            while i < len && !found
                invariant
                    bytes@ == b,
                    len == b.len(),
                    i <= len,
                    line > 0,
                    count == lf_count(b.take(i as int)),
                    !found ==> count < line,
                    found ==> is_lalrpop_line_start(b, line as int, line_start as int)
                        && line_start == i,
                decreases len - i,
            {
                proof {
                    lemma_lf_count_take_next(b, i as int);
                }
                if bytes[i] == LF {
                    count = count + 1;
                    if count == line {
                        line_start = i + 1;
                        found = true;
                    }
                }
                i = i + 1;
            }
            if !found {
                proof {
                    assert(b.take(len as int) =~= b);
                    assert forall|p: int| !is_lalrpop_line_start(b, line as int, p) by {
                        if 0 <= p <= b.len() {
                            lemma_lf_count_mono(b, p, len as int);
                        }
                    }
                }
                return None;
            }
            proof {
                assert forall|p: int| is_lalrpop_line_start(b, line as int, p) implies p
                    == line_start by {
                    if p < line_start {
                        lemma_lf_count_mono(b, p, line_start - 1);
                        lemma_lf_count_take_next(b, line_start - 1);
                    } else if p > line_start {
                        lemma_lf_count_mono(b, line_start as int, p);
                    }
                }
            }
        } else {
            proof {
                assert(is_lalrpop_line_start(b, 0, 0));
                assert forall|p: int| is_lalrpop_line_start(b, 0, p) implies p == 0 by {
                    if p > 0 {
                        lemma_lf_count_mono(b, 0, p);
                    }
                }
            }
        }
        let mut line_end = line_start;
        while line_end < len && bytes[line_end] != LF
            invariant
                bytes@ == b,
                len == b.len(),
                line_start <= line_end <= len,
                forall|r: int| line_start <= r < line_end ==> b[r] != LF,
            decreases len - line_end,
        {
            line_end = line_end + 1;
        }
        proof {
            assert(is_next_lf(b, line_start as int, line_end as int));
            assert forall|q: int| is_next_lf(b, line_start as int, q) implies q == line_end by {
            }
        }
        let offset = match line_start.checked_add(byte_column) {
            Some(o) => {
                if o < line_end {
                    o
                } else {
                    line_end
                }
            },
            None => {
                return None;
            },
        };
        if text.is_char_boundary(offset) {
            Some(offset)
        } else {
            None
        }
    }

    /// Offset just past the character that starts at the boundary `offset`.
    fn char_end(&self, offset: usize) -> (r: usize)
        requires
            offset <= self.bytes().len(),
            is_char_boundary(self.bytes(), offset as int),
        ensures
            r == char_end(self.bytes(), offset as int),
    {
        let text = self.as_str();
        let ghost b = self.bytes();
        let len = text.as_bytes().len();
        proof {
            broadcast use group_utf8_lib;

            is_char_boundary_start_end_of_seq(b);
        }
        let rest = substring(text, offset, len);
        let mut chars = rest.chars();
        match chars.next() {
            Some(c) => {
                proof {
                    broadcast use group_utf8_lib;

                    assert(rest@.len() > 0);
                    assert(c == rest@[0]);
                    assert(encode_utf8(rest@) == encode_scalar(rest@[0] as u32) + encode_utf8(
                        rest@.drop_first(),
                    ));
                }
                offset + char_len_utf8(c)
            },
            None => {
                proof {
                    broadcast use group_utf8_lib;

                    if offset < len {
                        assert(rest@.len() > 0) by {
                            if rest@.len() == 0 {
                                assert(encode_utf8(rest@).len() == 0);
                            }
                        }
                    }
                }
                offset
            },
        }
    }

    /// The range that LALRPOP's error location covers.
    pub fn error_range(&self, location: &ErrorLoc) -> (r: Option<Range>)
        requires
            self.wf(),
        ensures
            r == spec_error_range(self.bytes(), *location),
    {
        let (start, end) = match *location {
            ErrorLoc::Point(line, byte_column) => {
                let start = match self.lalrpop_offset(line, byte_column) {
                    Some(o) => o,
                    None => {
                        return None;
                    },
                };
                proof {
                    broadcast use group_utf8_lib;

                    assert(start <= self.bytes().len());
                }
                (start, self.char_end(start))
            },
            ErrorLoc::Span { lo, hi } => {
                let start = match self.lalrpop_offset(lo.0, lo.1) {
                    Some(o) => o,
                    None => {
                        return None;
                    },
                };
                let end = match self.lalrpop_offset(hi.0, hi.1) {
                    Some(o) => o,
                    None => {
                        return None;
                    },
                };
                (start, end)
            },
        };
        self.range(Span(start, end))
    }

    /// The diagnostic for LALRPOP's error: an error from the `lalrpop`
    /// source at the error's range, or at the start of the text where the
    /// location lies outside it.
    pub fn diagnostic(&self, error: DiagnosticError) -> (d: Diagnostic)
        requires
            self.wf(),
        ensures
            is_diagnostic_for(self.bytes(), error, d),
    {
        let range = match self.error_range(&error.loc) {
            Some(range) => range,
            None => Range::default(),
        };
        Diagnostic {
            range,
            severity: Some(DiagnosticSeverity::Error),
            source: Some("lalrpop".to_owned()),
            message: error.message,
        }
    }
}

} // verus!
