//! Conversion between the UTF-8 byte offsets that LALRPOP reports and the
//! line/UTF-16 positions of the language server protocol.
//!
//! A line ends at `\n`, at `\r\n` or at a `\r` that no `\n` follows.

use vstd::prelude::*;
use vstd::string::StringSliceAdditionalSpecFns;
use vstd::utf8::*;

use crate::text::{
    char_len_utf16, char_len_utf8, char_utf16_len, lemma_encode_utf8_take,
    lemma_encode_utf8_take_next, lemma_utf16_len_le_utf8_len, lemma_utf16_len_take_mono,
    lemma_utf16_len_take_next, str_utf16_len, substring, utf16_len,
};
use crate::types::Position;

verus! {

/// Byte value of `\n`.
pub const LF: u8 = 10;

/// Byte value of `\r`.
pub const CR: u8 = 13;

/// `p` is the offset at which a line of `b` starts: the start of the text,
/// or just past a line terminator.
pub open spec fn is_line_start(b: Seq<u8>, p: int) -> bool {
    ||| p == 0
    ||| 0 < p <= b.len() && b[p - 1] == LF
    ||| 0 < p <= b.len() && b[p - 1] == CR && (p == b.len() || b[p] != LF)
}

/// `s` starts at 0 and strictly increases.
pub open spec fn starts_ordered(s: Seq<usize>) -> bool {
    &&& s.len() > 0
    &&& s[0] == 0
    &&& forall|i: int, j: int| 0 <= i < j < s.len() ==> s[i] < s[j]
}

/// `s` lists, in order, exactly the offsets at which the lines of `b` start.
#[verifier::opaque]
pub open spec fn are_line_starts(s: Seq<usize>, b: Seq<u8>) -> bool {
    &&& starts_ordered(s)
    &&& forall|i: int| 0 <= i < s.len() ==> s[i] <= b.len() && is_line_start(b, s[i] as int)
    &&& forall|p: int|
        0 <= p <= b.len() && is_line_start(b, p) ==> exists|i: int|
            0 <= i < s.len() && s[i] == p
}

/// The offsets at which the lines of `b` start, in order.
pub open spec fn line_starts(b: Seq<u8>) -> Seq<usize> {
    choose|s: Seq<usize>| are_line_starts(s, b)
}

/// Two lists of the line starts of one text agree up to index `i`.
proof fn lemma_line_starts_agree(s1: Seq<usize>, s2: Seq<usize>, b: Seq<u8>, i: int)
    requires
        are_line_starts(s1, b),
        are_line_starts(s2, b),
        0 <= i < s1.len(),
        i < s2.len(),
    ensures
        forall|j: int| 0 <= j <= i ==> s1[j] == s2[j],
    decreases i,
{
    reveal(are_line_starts);
    if i > 0 {
        lemma_line_starts_agree(s1, s2, b, i - 1);
    }
    if s1[i] < s2[i] {
        let j = choose|j: int| 0 <= j < s2.len() && s2[j] == s1[i];
        if j < i {
            assert(s1[j] < s1[i]);
        } else {
            assert(s2[i] <= s2[j]);
        }
    } else if s2[i] < s1[i] {
        let j = choose|j: int| 0 <= j < s1.len() && s1[j] == s2[i];
        if j < i {
            assert(s2[j] < s2[i]);
        } else {
            assert(s1[i] <= s1[j]);
        }
    }
}

/// A text has one list of line starts.
pub proof fn lemma_line_starts_unique(s1: Seq<usize>, s2: Seq<usize>, b: Seq<u8>)
    requires
        are_line_starts(s1, b),
        are_line_starts(s2, b),
    ensures
        s1 == s2,
{
    reveal(are_line_starts);
    let n = if s1.len() < s2.len() {
        s1.len()
    } else {
        s2.len()
    };
    lemma_line_starts_agree(s1, s2, b, n - 1);
    if s1.len() < s2.len() {
        let p = s2[n as int];
        let j = choose|j: int| 0 <= j < s1.len() && s1[j] == p;
        assert(s2[j] < s2[n as int]);
    } else if s2.len() < s1.len() {
        let p = s1[n as int];
        let j = choose|j: int| 0 <= j < s2.len() && s2[j] == p;
        assert(s1[j] < s1[n as int]);
    }
    assert(s1 =~= s2);
}

/// Offset just past line `line` and its terminator (the text's end for the
/// last line).
pub open spec fn raw_line_end(s: Seq<usize>, b: Seq<u8>, line: int) -> int {
    if line + 1 < s.len() {
        s[line + 1] as int
    } else {
        b.len() as int
    }
}

/// Offset at which the content of line `line` ends: a trailing `\n`, and
/// then a trailing `\r`, are not part of it.
pub open spec fn line_content_end(s: Seq<usize>, b: Seq<u8>, line: int) -> int {
    let start = s[line] as int;
    let e0 = raw_line_end(s, b, line);
    let e1 = if e0 > start && e0 - 1 < b.len() && b[e0 - 1] == LF {
        e0 - 1
    } else {
        e0
    };
    if e1 > start && e1 - 1 < b.len() && b[e1 - 1] == CR {
        e1 - 1
    } else {
        e1
    }
}

/// The line that holds `offset`: the last one that starts at or before it.
pub open spec fn line_containing(s: Seq<usize>, offset: int) -> int {
    choose|l: int| 0 <= l < s.len() && #[trigger] s[l] <= offset && (l + 1 == s.len() || offset < s[l + 1])
}

/// Where an LSP position lands in a line whose characters are `cs`, as a byte
/// offset from the line's start: the character boundary `target` UTF-16 code
/// units in, the end of the line for a `target` past it, and nothing for a
/// `target` inside a surrogate pair.
pub open spec fn units_to_byte(cs: Seq<char>, target: int) -> Option<int> {
    if target >= utf16_len(cs) {
        Some(encode_utf8(cs).len() as int)
    } else if exists|k: int| 0 <= k <= cs.len() && utf16_len(cs.take(k)) == target {
        let k = choose|k: int| 0 <= k <= cs.len() && utf16_len(cs.take(k)) == target;
        Some(encode_utf8(cs.take(k)).len() as int)
    } else {
        None
    }
}

/// The position of byte offset `offset` of the text `b`, given line starts `s`.
#[verifier::opaque]
pub open spec fn spec_position(s: Seq<usize>, b: Seq<u8>, offset: int) -> Option<Position> {
    if offset > b.len() || !is_char_boundary(b, offset) {
        None
    } else {
        let line = line_containing(s, offset);
        let start = s[line] as int;
        let end = if offset < line_content_end(s, b, line) {
            offset
        } else {
            line_content_end(s, b, line)
        };
        if !(start <= end && is_char_boundary(b, start) && is_char_boundary(b, end)) {
            None
        } else {
            let character = utf16_len(decode_utf8(b.subrange(start, end)));
            if line > u32::MAX || character > u32::MAX {
                None
            } else {
                Some(Position { line: line as u32, character: character as u32 })
            }
        }
    }
}

/// The byte offset of `position` in the text `b`, given line starts `s`.
#[verifier::opaque]
pub open spec fn spec_offset(s: Seq<usize>, b: Seq<u8>, position: Position) -> Option<usize> {
    let line = position.line as int;
    if line >= s.len() {
        None
    } else {
        let start = s[line] as int;
        let end = line_content_end(s, b, line);
        if !(start <= end <= b.len() && is_char_boundary(b, start) && is_char_boundary(b, end)) {
            None
        } else {
            match units_to_byte(decode_utf8(b.subrange(start, end)), position.character as int) {
                Some(k) => Some((start + k) as usize),
                None => None,
            }
        }
    }
}

/// Converts between UTF-8 byte offsets used by LALRPOP and UTF-16 positions
/// used by the language server protocol.
#[derive(Debug)]
pub struct LineIndex {
    line_starts: Vec<usize>,
}

impl View for LineIndex {
    type V = Seq<usize>;

    /// The offsets at which lines start.
    closed spec fn view(&self) -> Seq<usize> {
        self.line_starts@
    }
}

/// Index of the first element of the sorted `s` that is greater than `x`.
fn partition_point_le(s: &Vec<usize>, x: usize) -> (r: usize)
    requires
        forall|i: int, j: int| 0 <= i < j < s@.len() ==> s@[i] < s@[j],
    ensures
        r <= s@.len(),
        forall|i: int| 0 <= i < r ==> s@[i] <= x,
        forall|i: int| r <= i < s@.len() ==> s@[i] > x,
{
    let mut lo: usize = 0;
    let mut hi: usize = s.len();
    while lo < hi
        invariant
            lo <= hi <= s@.len(),
            forall|i: int, j: int| 0 <= i < j < s@.len() ==> s@[i] < s@[j],
            forall|i: int| 0 <= i < lo ==> s@[i] <= x,
            forall|i: int| hi <= i < s@.len() ==> s@[i] > x,
        decreases hi - lo,
    {
        let mid = lo + (hi - lo) / 2;
        if s[mid] <= x {
            lo = mid + 1;
        } else {
            hi = mid;
        }
    }
    lo
}

impl LineIndex {
    /// The line starts are ordered.
    pub open spec fn wf(&self) -> bool {
        starts_ordered(self@)
    }

    pub fn new(text: &str) -> (index: Self)
        ensures
            index.wf(),
            are_line_starts(index@, text.spec_bytes()),
            index@ == line_starts(text.spec_bytes()),
    {
        let bytes = text.as_bytes();
        let ghost b = text.spec_bytes();
        let mut line_starts: Vec<usize> = Vec::new();
        line_starts.push(0);
        let mut offset: usize = 0;
        assert(line_starts@[0] == 0);
        while offset < bytes.len()
            invariant
                bytes@ == b,
                offset <= b.len(),
                starts_ordered(line_starts@),
                line_starts@[line_starts@.len() - 1] <= offset,
                forall|i: int|
                    0 <= i < line_starts@.len() ==> line_starts@[i] <= b.len() && is_line_start(
                        b,
                        line_starts@[i] as int,
                    ),
                forall|p: int|
                    0 <= p <= offset && is_line_start(b, p) ==> exists|i: int|
                        0 <= i < line_starts@.len() && line_starts@[i] == p,
            decreases b.len() - offset,
        {
            let ghost prev = line_starts@;
            let ghost prev_offset = offset;
            let byte = bytes[offset];
            if byte == CR && offset + 1 < bytes.len() && bytes[offset + 1] == LF {
                offset = offset + 2;
                line_starts.push(offset);
                assert(!is_line_start(b, prev_offset + 1));
            } else if byte == CR || byte == LF {
                offset = offset + 1;
                line_starts.push(offset);
            } else {
                offset = offset + 1;
                assert(!is_line_start(b, offset as int));
            }
            assert forall|p: int| 0 <= p <= offset && is_line_start(b, p) implies exists|i: int|
                0 <= i < line_starts@.len() && line_starts@[i] == p by {
                if p <= prev_offset {
                    let i = choose|i: int| 0 <= i < prev.len() && prev[i] == p;
                    assert(line_starts@[i] == p);
                } else {
                    assert(line_starts@[line_starts@.len() - 1] == p);
                }
            }
        }
        proof {
            reveal(are_line_starts);
            assert(are_line_starts(line_starts@, b));
            lemma_line_starts_unique(line_starts@, self::line_starts(b), b);
        }
        LineIndex { line_starts }
    }

    /// The byte range of the content of line `line` (without its terminator).
    pub fn line_bounds(&self, text: &str, line: usize) -> (r: Option<(usize, usize)>)
        requires
            self.wf(),
        ensures
            r == (if line < self@.len() {
                Some((self@[line as int], line_content_end(self@, text.spec_bytes(), line as int) as usize))
            } else {
                None
            }),
    {
        if line >= self.line_starts.len() {
            return None;
        }
        let bytes = text.as_bytes();
        let line_start = self.line_starts[line];
        let mut line_end = if line + 1 < self.line_starts.len() {
            self.line_starts[line + 1]
        } else {
            bytes.len()
        };
        if line_end > line_start && line_end - 1 < bytes.len() && bytes[line_end - 1] == LF {
            line_end = line_end - 1;
        }
        if line_end > line_start && line_end - 1 < bytes.len() && bytes[line_end - 1] == CR {
            line_end = line_end - 1;
        }
        Some((line_start, line_end))
    }

    /// The LSP position of byte offset `offset`, if it is a character
    /// boundary of `text`.
    pub fn position(&self, text: &str, offset: usize) -> (r: Option<Position>)
        requires
            self.wf(),
        ensures
            r == spec_position(self@, text.spec_bytes(), offset as int),
    {
        let ghost b = text.spec_bytes();
        let ghost s = self@;
        proof {
            broadcast use group_utf8_lib;

            reveal(spec_position);
            is_char_boundary_start_end_of_seq(b);
        }
        let len = text.as_bytes().len();
        if offset > len || !text.is_char_boundary(offset) {
            return None;
        }
        let count = partition_point_le(&self.line_starts, offset);
        assert(s[0] <= offset);
        let line = count - 1;
        proof {
            let l = line_containing(s, offset as int);
            assert(0 <= line < s.len() && s[line as int] <= offset && (line + 1 == s.len()
                || offset < s[line + 1]));
            assert(0 <= l < s.len() && s[l] <= offset && (l + 1 == s.len() || offset < s[l + 1]));
            if l < line {
                assert(s[l + 1] <= s[line as int]);
            }
            if l > line {
                assert(s[line + 1] <= s[l]);
            }
            assert(l == line);
        }
        let (line_start, line_end) = match self.line_bounds(text, line) {
            Some(bounds) => bounds,
            None => {
                return None;
            },
        };
        let end = if offset < line_end {
            offset
        } else {
            line_end
        };
        if !(line_start <= end && text.is_char_boundary(line_start) && text.is_char_boundary(end)) {
            return None;
        }
        let sub = substring(text, line_start, end);
        proof {
            broadcast use group_utf8_lib;

            lemma_utf16_len_le_utf8_len(sub@);
        }
        let character = str_utf16_len(sub);
        if line > 0xffff_ffffusize || character > 0xffff_ffffusize {
            return None;
        }
        Some(Position { line: line as u32, character: character as u32 })
    }

    /// The byte offset of `position`. A position past the end of its line is
    /// clamped to the line's end; one inside a UTF-16 surrogate pair has no
    /// offset.
    pub fn offset(&self, text: &str, position: Position) -> (r: Option<usize>)
        requires
            self.wf(),
        ensures
            r == spec_offset(self@, text.spec_bytes(), position),
            r matches Some(o) ==> o <= text.spec_bytes().len(),
    {
        let ghost b = text.spec_bytes();
        proof {
            reveal(spec_offset);
        }
        let line = position.line as usize;
        let target = position.character as u64;
        let (line_start, line_end) = match self.line_bounds(text, line) {
            Some(bounds) => bounds,
            None => {
                return None;
            },
        };
        let len = text.as_bytes().len();
        if !(line_start <= line_end && line_end <= len && text.is_char_boundary(line_start)
            && text.is_char_boundary(line_end)) {
            return None;
        }
        let line_text = substring(text, line_start, line_end);
        let ghost cs = line_text@;
        proof {
            broadcast use group_utf8_lib;

            assert(encode_utf8(cs) == b.subrange(line_start as int, line_end as int));
            assert(spec_offset(self@, b, position) == match units_to_byte(cs, target as int) {
                Some(k) => Some((line_start + k) as usize),
                None => None,
            });
        }
        let mut utf16_offset: u64 = 0;
        let mut byte_offset: usize = 0;
        for character in it: line_text.chars()
            invariant
                it.seq() == cs,
                cs == line_text@,
                b == text.spec_bytes(),
                spec_offset(self@, b, position) == match units_to_byte(cs, target as int) {
                    Some(k) => Some((line_start + k) as usize),
                    None => None,
                },
                encode_utf8(cs).len() == line_end - line_start,
                line_start <= line_end,
                line_end <= b.len(),
                target == position.character,
                utf16_offset == utf16_len(cs.take(it.index() as int)),
                utf16_offset <= target,
                byte_offset == encode_utf8(cs.take(it.index() as int)).len(),
        {
            let ghost k = it.index() as int;
            assert(character == cs[k]);
            proof {
                lemma_utf16_len_take_next(cs, k);
                lemma_encode_utf8_take_next(cs, k);
                lemma_encode_utf8_take(cs, k + 1);
            }
            if utf16_offset == target {
                proof {
                    assert(cs.take(cs.len() as int) =~= cs);
                    lemma_utf16_len_take_mono(cs, k, cs.len() as int);
                    assert forall|j: int|
                        0 <= j <= cs.len() && utf16_len(cs.take(j)) == target implies j == k by {
                        if j < k {
                            lemma_utf16_len_take_mono(cs, j, k);
                        } else if j > k {
                            lemma_utf16_len_take_mono(cs, k, j);
                        }
                    }
                    assert(target < utf16_len(cs));
                    assert(0 <= k <= cs.len() && utf16_len(cs.take(k)) == target);
                    let kk = choose|kk: int| 0 <= kk <= cs.len() && utf16_len(cs.take(kk)) == target;
                    assert(kk == k);
                    assert(units_to_byte(cs, target as int) == Some(encode_utf8(cs.take(k)).len() as int));
                }
                return Some(line_start + byte_offset);
            }
            let next_offset = utf16_offset + char_len_utf16(character) as u64;
            if target < next_offset {
                proof {
                    assert(cs.take(cs.len() as int) =~= cs);
                    lemma_utf16_len_take_mono(cs, k + 1, cs.len() as int);
                    assert forall|j: int|
                        0 <= j <= cs.len() implies utf16_len(cs.take(j)) != target by {
                        if j <= k {
                            lemma_utf16_len_take_mono(cs, j, k);
                        } else {
                            lemma_utf16_len_take_mono(cs, k + 1, j);
                        }
                    }
                    assert(target < utf16_len(cs));
                    assert(units_to_byte(cs, target as int) == None::<int>);
                }
                return None;
            }
            utf16_offset = next_offset;
            byte_offset = byte_offset + char_len_utf8(character);
        }
        proof {
            assert(cs.take(cs.len() as int) =~= cs);
        }
        Some(line_end)
    }
}

} // verus!
