//! Byte offsets and LSP positions convert into each other without loss:
//! an offset converts to a position and back to itself, and a position on a
//! line converts to an offset and back to itself.

use vstd::prelude::*;
use vstd::utf8::*;

use crate::line_index::{
    starts_ordered, are_line_starts, is_line_start, line_containing, line_content_end, raw_line_end,
    spec_offset, spec_position, units_to_byte, CR, LF,
};
use crate::text::{
    lemma_encode_utf8_concat, lemma_encode_utf8_take, lemma_utf16_len_le_utf8_len,
    lemma_utf16_len_take_mono, utf16_len,
};
use crate::types::Position;

verus! {

/// The offset just after an ASCII byte is a character boundary.
proof fn lemma_boundary_after_ascii(b: Seq<u8>, i: int)
    requires
        valid_utf8(b),
        0 <= i < b.len(),
        b[i] < 0x80,
    ensures
        is_char_boundary(b, i + 1),
    decreases b.len(),
{
    let n = length_of_first_scalar(b);
    let rest = pop_first_scalar(b);
    if i == 0 {
        assert(n == 1);
        assert(is_char_boundary(rest, 0));
    } else if i < n {
        assert(is_continuation_byte(b[i]));
    } else {
        assert(rest[i - n] == b[i]);
        lemma_boundary_after_ascii(rest, i - n);
    }
}

/// Within the text between two character boundaries, the character
/// boundaries are those of the whole text.
pub proof fn lemma_char_boundary_subrange(b: Seq<u8>, x: int, z: int, i: int)
    requires
        valid_utf8(b),
        0 <= x <= i <= z <= b.len(),
        is_char_boundary(b, x),
        is_char_boundary(b, z),
    ensures
        valid_utf8(b.subrange(x, z)),
        is_char_boundary(b.subrange(x, z), i - x) == is_char_boundary(b, i),
{
    let d = b.subrange(x, b.len() as int);
    let c = b.subrange(x, z);
    valid_utf8_split(b, x);
    assert(valid_utf8(d));
    is_char_boundary_start_end_of_seq(d);
    if x < z && z < b.len() {
        is_char_boundary_iff_not_is_continuation_byte(d, z - x);
        is_char_boundary_iff_not_is_continuation_byte(b, z);
    }
    assert(is_char_boundary(d, z - x));
    assert(c =~= d.subrange(0, z - x));
    valid_utf8_split(d, z - x);
    assert(valid_utf8(c));
    is_char_boundary_start_end_of_seq(c);
    if x < i < z {
        is_char_boundary_iff_not_is_continuation_byte(c, i - x);
        is_char_boundary_iff_not_is_continuation_byte(b, i);
    }
}

/// A valid encoding followed by another has a character boundary between
/// them.
proof fn lemma_boundary_between(e1: Seq<u8>, e2: Seq<u8>)
    requires
        valid_utf8(e1),
        valid_utf8(e2),
    ensures
        valid_utf8(e1 + e2),
        is_char_boundary(e1 + e2, e1.len() as int),
    decreases e1.len(),
{
    let e = e1 + e2;
    valid_utf8_concat(e1, e2);
    assert(valid_utf8(e));
    if e1.len() > 0 {
        let n = length_of_first_scalar(e1);
        assert(e[0] == e1[0]);
        assert(n <= e1.len());
        assert(e[1] == e1[1] || n < 2);
        assert(e[2] == e1[2] || n < 3);
        assert(e[3] == e1[3] || n < 4);
        assert(length_of_first_scalar(e) == n);
        assert(pop_first_scalar(e) =~= pop_first_scalar(e1) + e2);
        lemma_boundary_between(pop_first_scalar(e1), e2);
    }
}

/// The bytes between two character boundaries decode to the characters of
/// the two parts split at a boundary between them.
proof fn lemma_decode_split(b: Seq<u8>, x: int, y: int, z: int)
    requires
        valid_utf8(b),
        0 <= x <= y <= z <= b.len(),
        is_char_boundary(b, x),
        is_char_boundary(b, y),
        is_char_boundary(b, z),
    ensures
        decode_utf8(b.subrange(x, z)) == decode_utf8(b.subrange(x, y)) + decode_utf8(
            b.subrange(y, z),
        ),
        encode_utf8(decode_utf8(b.subrange(x, y))) == b.subrange(x, y),
{
    lemma_char_boundary_subrange(b, x, z, y);
    lemma_char_boundary_subrange(b, x, y, y);
    let c = b.subrange(x, z);
    assert(c.subrange(0, y - x) =~= b.subrange(x, y));
    assert(c.subrange(y - x, c.len() as int) =~= b.subrange(y, z));
    decode_utf8_split(c, y - x);
    decode_utf8_encode_utf8(b.subrange(x, y));
}

/// Facts about line `l` of a text whose line starts are `s`: its start and
/// its content end are character boundaries in order, and the content ends
/// before the next line starts.
proof fn lemma_line_facts(s: Seq<usize>, b: Seq<u8>, l: int)
    requires
        valid_utf8(b),
        are_line_starts(s, b),
        0 <= l < s.len(),
    ensures
        s[l] <= line_content_end(s, b, l) <= raw_line_end(s, b, l) <= b.len(),
        is_char_boundary(b, s[l] as int),
        is_char_boundary(b, line_content_end(s, b, l)),
        l + 1 < s.len() ==> line_content_end(s, b, l) < s[l + 1],
        l + 1 < s.len() ==> is_char_boundary(b, s[l + 1] as int),
{
    reveal(are_line_starts);
    is_char_boundary_start_end_of_seq(b);
    let start = s[l] as int;
    if start > 0 {
        lemma_boundary_after_ascii(b, start - 1);
    }
    if l + 1 < s.len() {
        let next = s[l + 1] as int;
        assert(next > start);
        lemma_boundary_after_ascii(b, next - 1);
    }
    let e0 = raw_line_end(s, b, l);
    let e1 = if e0 > start && e0 - 1 < b.len() && b[e0 - 1] == LF {
        e0 - 1
    } else {
        e0
    };
    let e = line_content_end(s, b, l);
    if e1 < e0 && e1 < b.len() {
        is_char_boundary_iff_not_is_continuation_byte(b, e1);
    }
    if e < e1 && e < b.len() {
        is_char_boundary_iff_not_is_continuation_byte(b, e);
    }
}

/// The line that holds an offset between a line's start and its content end.
proof fn lemma_line_containing(s: Seq<usize>, b: Seq<u8>, l: int, offset: int)
    requires
        valid_utf8(b),
        are_line_starts(s, b),
        0 <= l < s.len(),
        s[l] <= offset,
        l + 1 < s.len() ==> offset < s[l + 1],
    ensures
        line_containing(s, offset) == l,
{
    reveal(are_line_starts);
    let m = line_containing(s, offset);
    assert(0 <= l < s.len() && s[l] <= offset && (l + 1 == s.len() || offset < s[l + 1]));
    if m < l {
        assert(s[m + 1] <= s[l]);
    }
    if m > l {
        assert(s[l + 1] <= s[m]);
    }
}

/// Where the position of the `k`-th character boundary of a line with
/// characters `cs` lands again.
proof fn lemma_units_to_byte_of_prefix(cs: Seq<char>, k: int)
    requires
        0 <= k <= cs.len(),
    ensures
        units_to_byte(cs, utf16_len(cs.take(k)) as int) == Some(
            encode_utf8(cs.take(k)).len() as int,
        ),
{
    let target = utf16_len(cs.take(k)) as int;
    assert(cs.take(cs.len() as int) =~= cs);
    lemma_utf16_len_take_mono(cs, k, cs.len() as int);
    if k == cs.len() {
        assert(cs.take(k) =~= cs);
    } else {
        assert forall|j: int| 0 <= j <= cs.len() && utf16_len(cs.take(j)) == target implies j
            == k by {
            if j < k {
                lemma_utf16_len_take_mono(cs, j, k);
            } else if j > k {
                lemma_utf16_len_take_mono(cs, k, j);
            }
        }
        let kk = choose|kk: int| 0 <= kk <= cs.len() && utf16_len(cs.take(kk)) == target;
        assert(kk == k);
    }
}

/// The position of a character boundary in the content of line `l`
/// converts back to that boundary.
proof fn lemma_offset_of_line_prefix(s: Seq<usize>, b: Seq<u8>, l: int, end: int)
    requires
        valid_utf8(b),
        b.len() <= usize::MAX,
        0 <= l < s.len(),
        l <= u32::MAX,
        s[l] <= end <= line_content_end(s, b, l) <= b.len(),
        is_char_boundary(b, s[l] as int),
        is_char_boundary(b, end),
        is_char_boundary(b, line_content_end(s, b, l)),
        utf16_len(decode_utf8(b.subrange(s[l] as int, end))) <= u32::MAX,
    ensures
        spec_offset(
            s,
            b,
            Position {
                line: l as u32,
                character: utf16_len(decode_utf8(b.subrange(s[l] as int, end))) as u32,
            },
        ) == Some(end as usize),
{
    reveal(spec_offset);
    let start = s[l] as int;
    let e = line_content_end(s, b, l);
    lemma_decode_split(b, start, end, e);
    let cs = decode_utf8(b.subrange(start, e));
    let front = decode_utf8(b.subrange(start, end));
    let k = front.len() as int;
    assert(cs.take(k) =~= front);
    assert(encode_utf8(front) == b.subrange(start, end));
    lemma_units_to_byte_of_prefix(cs, k);
}

/// Some line holds each offset past the start of the text.
proof fn lemma_line_containing_exists(s: Seq<usize>, offset: int, i: int)
    requires
        starts_ordered(s),
        0 <= i < s.len(),
        s[i] <= offset,
    ensures
        ({
            let l = line_containing(s, offset);
            &&& 0 <= l < s.len()
            &&& s[l] <= offset
            &&& (l + 1 == s.len() || offset < s[l + 1])
        }),
    decreases s.len() - i,
{
    if i + 1 < s.len() && s[i + 1] <= offset {
        lemma_line_containing_exists(s, offset, i + 1);
    } else {
        assert(0 <= i < s.len() && s[i] <= offset && (i + 1 == s.len() || offset < s[i + 1]));
    }
}

/// The position of an offset that has one: its line is the one that holds
/// the offset, its column the UTF-16 length of the line's content before it.
proof fn lemma_position_value(s: Seq<usize>, b: Seq<u8>, offset: int)
    requires
        spec_position(s, b, offset) is Some,
        starts_ordered(s),
    ensures
        ({
            let l = line_containing(s, offset);
            let e = line_content_end(s, b, l);
            let end = if offset < e {
                offset
            } else {
                e
            };
            let character = utf16_len(decode_utf8(b.subrange(s[l] as int, end)));
            &&& 0 <= l < s.len()
            &&& s[l] <= offset
            &&& (l + 1 == s.len() || offset < s[l + 1])
            &&& l <= u32::MAX
            &&& 0 <= offset <= b.len()
            &&& is_char_boundary(b, offset)
            &&& character <= u32::MAX
            &&& spec_position(s, b, offset) == Some(
                Position { line: l as u32, character: character as u32 },
            )
        }),
{
    reveal(spec_position);
    if offset < 0 {
        assert(!is_char_boundary(b, offset));
    }
    lemma_line_containing_exists(s, offset, 0);
}

/// The position of a character boundary in the content of line `l`.
proof fn lemma_position_at(s: Seq<usize>, b: Seq<u8>, offset: int, l: int)
    requires
        0 <= offset <= b.len(),
        is_char_boundary(b, offset),
        0 <= l < s.len(),
        line_containing(s, offset) == l,
        s[l] <= offset <= line_content_end(s, b, l),
        is_char_boundary(b, s[l] as int),
        l <= u32::MAX,
        utf16_len(decode_utf8(b.subrange(s[l] as int, offset))) <= u32::MAX,
    ensures
        spec_position(s, b, offset) == Some(
            Position {
                line: l as u32,
                character: utf16_len(decode_utf8(b.subrange(s[l] as int, offset))) as u32,
            },
        ),
{
    reveal(spec_position);
}

/// What the offset of a position that has one is made of.
proof fn lemma_offset_value(s: Seq<usize>, b: Seq<u8>, p: Position)
    requires
        spec_offset(s, b, p) is Some,
    ensures
        ({
            let l = p.line as int;
            let start = s[l] as int;
            let e = line_content_end(s, b, l);
            let cs = decode_utf8(b.subrange(start, e));
            &&& 0 <= l < s.len()
            &&& start <= e <= b.len()
            &&& is_char_boundary(b, start)
            &&& is_char_boundary(b, e)
            &&& units_to_byte(cs, p.character as int) is Some
            &&& spec_offset(s, b, p) == Some(
                (start + units_to_byte(cs, p.character as int)->0) as usize,
            )
        }),
{
    reveal(spec_offset);
}

/// Converting a character boundary of the text to a position and back gives
/// the boundary again; an offset inside a line terminator comes back as the
/// end of that line's content.
pub proof fn lemma_offset_position_round_trip(s: Seq<usize>, b: Seq<u8>, offset: int)
    requires
        valid_utf8(b),
        b.len() <= usize::MAX,
        are_line_starts(s, b),
        spec_position(s, b, offset) is Some,
    ensures
        ({
            let p = spec_position(s, b, offset)->0;
            let end = line_content_end(s, b, p.line as int);
            spec_offset(s, b, p) == Some(
                (if offset <= end {
                    offset
                } else {
                    end
                }) as usize,
            )
        }),
{
    assert(starts_ordered(s)) by {
        reveal(are_line_starts);
    }
    lemma_position_value(s, b, offset);
    let l = line_containing(s, offset);
    lemma_line_facts(s, b, l);
    let e = line_content_end(s, b, l);
    let end = if offset < e {
        offset
    } else {
        e
    };
    let p = spec_position(s, b, offset)->0;
    assert(p == Position {
        line: l as u32,
        character: utf16_len(decode_utf8(b.subrange(s[l] as int, end))) as u32,
    });
    lemma_offset_of_line_prefix(s, b, l, end);
}

/// A position on a line of the text converts to an offset and back to the
/// same position, where it is not inside a UTF-16 surrogate pair (which has
/// no offset); a column past the end of the line comes back as the line's
/// UTF-16 length.
pub proof fn lemma_position_offset_round_trip(s: Seq<usize>, b: Seq<u8>, p: Position)
    requires
        valid_utf8(b),
        b.len() <= usize::MAX,
        are_line_starts(s, b),
        spec_offset(s, b, p) is Some,
    ensures
        ({
            let l = p.line as int;
            let line_units = utf16_len(decode_utf8(b.subrange(s[l] as int, line_content_end(s, b, l))));
            spec_position(s, b, spec_offset(s, b, p)->0 as int) == Some(
                Position {
                    line: p.line,
                    character: (if p.character <= line_units {
                        p.character as int
                    } else {
                        line_units as int
                    }) as u32,
                },
            )
        }),
{
    let l = p.line as int;
    lemma_offset_value(s, b, p);
    lemma_line_facts(s, b, l);
    let start = s[l] as int;
    let e = line_content_end(s, b, l);
    let c = b.subrange(start, e);
    let cs = decode_utf8(c);
    lemma_decode_split(b, start, e, e);
    assert(encode_utf8(cs) == c);
    let target = p.character as int;
    let o = spec_offset(s, b, p)->0 as int;
    let line_units = utf16_len(cs);
    lemma_char_boundary_subrange(b, start, e, e);
    if target >= line_units {
        assert(o == e);
        lemma_line_containing(s, b, l, o);
        assert(c.subrange(0, c.len() as int) =~= c);
        lemma_position_at(s, b, o, l);
    } else {
        let k = choose|k: int| 0 <= k <= cs.len() && utf16_len(cs.take(k)) == target;
        let front = cs.take(k);
        let n = encode_utf8(front).len() as int;
        lemma_encode_utf8_take(cs, k);
        assert(o == start + n);
        assert(encode_utf8(front) == c.take(n));
        assert(cs =~= front + cs.skip(k));
        lemma_encode_utf8_concat(front, cs.skip(k));
        encode_utf8_valid_utf8(front);
        encode_utf8_valid_utf8(cs.skip(k));
        lemma_boundary_between(encode_utf8(front), encode_utf8(cs.skip(k)));
        lemma_char_boundary_subrange(b, start, e, o);
        assert(is_char_boundary(b, o));
        lemma_line_containing(s, b, l, o);
        assert(b.subrange(start, o) =~= c.take(n));
        encode_utf8_decode_utf8(front);
        assert(decode_utf8(b.subrange(start, o)) == front);
        lemma_position_at(s, b, o, l);
    }
}

/// Line starts grow at least one byte per line.
proof fn lemma_line_start_at_least_index(s: Seq<usize>, l: int)
    requires
        starts_ordered(s),
        0 <= l < s.len(),
    ensures
        l <= s[l],
    decreases l,
{
    if l > 0 {
        lemma_line_start_at_least_index(s, l - 1);
        assert(s[l - 1] < s[l]);
    }
}

/// Every character boundary of a text short enough for LSP's 32-bit
/// coordinates has a position.
pub proof fn lemma_position_exists(s: Seq<usize>, b: Seq<u8>, offset: int)
    requires
        valid_utf8(b),
        are_line_starts(s, b),
        b.len() <= u32::MAX,
        0 <= offset <= b.len(),
        is_char_boundary(b, offset),
    ensures
        spec_position(s, b, offset) is Some,
{
    reveal(spec_position);
    reveal(are_line_starts);
    lemma_line_containing_exists(s, offset, 0);
    let l = line_containing(s, offset);
    lemma_line_facts(s, b, l);
    lemma_line_start_at_least_index(s, l);
    let start = s[l] as int;
    let e = line_content_end(s, b, l);
    let end = if offset < e {
        offset
    } else {
        e
    };
    lemma_char_boundary_subrange(b, start, end, end);
    let sub = b.subrange(start, end);
    decode_utf8_encode_utf8(sub);
    lemma_utf16_len_le_utf8_len(decode_utf8(sub));
}

} // verus!
