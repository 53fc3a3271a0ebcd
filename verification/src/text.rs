//! Facts about UTF-8 encoded text that the rest of the library builds on:
//! the UTF-16 length of characters and the byte length of their encodings.

use vstd::prelude::*;
use vstd::string::StringSliceAdditionalSpecFns;
use vstd::utf8::*;

verus! {

/// Number of UTF-16 code units that encode `c`.
pub open spec fn char_utf16_len(c: char) -> nat {
    if (c as u32) < 0x10000 {
        1
    } else {
        2
    }
}

/// Number of UTF-16 code units that encode the characters `cs`.
pub open spec fn utf16_len(cs: Seq<char>) -> nat
    decreases cs.len(),
{
    if cs.len() == 0 {
        0
    } else {
        utf16_len(cs.drop_last()) + char_utf16_len(cs.last())
    }
}

/// The UTF-16 length of a prefix grows by the length of the next character.
pub proof fn lemma_utf16_len_take_next(cs: Seq<char>, k: int)
    requires
        0 <= k < cs.len(),
    ensures
        utf16_len(cs.take(k + 1)) == utf16_len(cs.take(k)) + char_utf16_len(cs[k]),
{
    assert(cs.take(k + 1).drop_last() =~= cs.take(k));
}

/// The UTF-16 length of a prefix never exceeds that of a longer prefix.
pub proof fn lemma_utf16_len_take_mono(cs: Seq<char>, j: int, k: int)
    requires
        0 <= j <= k <= cs.len(),
    ensures
        utf16_len(cs.take(j)) <= utf16_len(cs.take(k)),
        j < k ==> utf16_len(cs.take(j)) < utf16_len(cs.take(k)),
    decreases k - j,
{
    if j < k {
        lemma_utf16_len_take_next(cs, k - 1);
        lemma_utf16_len_take_mono(cs, j, k - 1);
    }
}

/// Encoding a concatenation yields the concatenated encodings.
pub proof fn lemma_encode_utf8_concat(a: Seq<char>, b: Seq<char>)
    ensures
        encode_utf8(a + b) == encode_utf8(a) + encode_utf8(b),
    decreases a.len(),
{
    if a.len() == 0 {
        assert(a + b =~= b);
        assert(encode_utf8(a) + encode_utf8(b) =~= encode_utf8(b));
    } else {
        assert((a + b).drop_first() =~= a.drop_first() + b);
        lemma_encode_utf8_concat(a.drop_first(), b);
        assert((a + b)[0] == a[0]);
        assert(encode_utf8(a + b) =~= encode_utf8(a) + encode_utf8(b));
    }
}

/// The encoding of a one-character sequence is the encoding of that character.
pub proof fn lemma_encode_utf8_single(c: char)
    ensures
        encode_utf8(seq![c]) == encode_scalar(c as u32),
{
    assert(seq![c].drop_first() =~= Seq::<char>::empty());
    assert(encode_scalar(c as u32) + encode_utf8(Seq::<char>::empty()) =~= encode_scalar(
        c as u32,
    ));
}

/// The encoding of a prefix grows by the encoding of the next character.
pub proof fn lemma_encode_utf8_take_next(cs: Seq<char>, k: int)
    requires
        0 <= k < cs.len(),
    ensures
        encode_utf8(cs.take(k + 1)) == encode_utf8(cs.take(k)) + encode_scalar(cs[k] as u32),
{
    assert(cs.take(k + 1) =~= cs.take(k) + seq![cs[k]]);
    lemma_encode_utf8_concat(cs.take(k), seq![cs[k]]);
    lemma_encode_utf8_single(cs[k]);
}

/// The encoding of a prefix of `cs` is a prefix of the encoding of `cs`.
pub proof fn lemma_encode_utf8_take(cs: Seq<char>, k: int)
    requires
        0 <= k <= cs.len(),
    ensures
        encode_utf8(cs) == encode_utf8(cs.take(k)) + encode_utf8(cs.skip(k)),
        encode_utf8(cs.take(k)).len() <= encode_utf8(cs).len(),
        encode_utf8(cs.take(k)) == encode_utf8(cs).take(encode_utf8(cs.take(k)).len() as int),
{
    assert(cs =~= cs.take(k) + cs.skip(k));
    lemma_encode_utf8_concat(cs.take(k), cs.skip(k));
    assert(encode_utf8(cs.take(k)) =~= encode_utf8(cs).take(encode_utf8(cs.take(k)).len() as int));
}

/// Each character takes no more UTF-16 code units than UTF-8 bytes.
pub proof fn lemma_utf16_len_le_utf8_len(cs: Seq<char>)
    ensures
        utf16_len(cs) <= encode_utf8(cs).len(),
    decreases cs.len(),
{
    if cs.len() > 0 {
        lemma_utf16_len_le_utf8_len(cs.drop_last());
        assert(cs =~= cs.drop_last() + seq![cs.last()]);
        lemma_encode_utf8_concat(cs.drop_last(), seq![cs.last()]);
        lemma_encode_utf8_single(cs.last());
    }
}

/// Within a prefix ending at a character boundary, the character boundaries
/// are those of the whole text.
pub proof fn lemma_char_boundary_prefix(b: Seq<u8>, end: int, i: int)
    requires
        valid_utf8(b),
        is_char_boundary(b, end),
        0 <= i <= end,
    ensures
        valid_utf8(b.subrange(0, end)),
        is_char_boundary(b.subrange(0, end), i) == is_char_boundary(b, i),
{
    broadcast use group_utf8_lib;

    let p = b.subrange(0, end);
    assert(valid_utf8(p));
    is_char_boundary_start_end_of_seq(p);
    is_char_boundary_start_end_of_seq(b);
    if 0 < i < end {
        is_char_boundary_iff_not_is_continuation_byte(p, i);
        is_char_boundary_iff_not_is_continuation_byte(b, i);
    } else if i == end {
        assert(p.len() == end);
    }
}

/// The text between two character boundaries of `s`.
pub fn substring(s: &str, start: usize, end: usize) -> (r: &str)
    requires
        start <= end <= s.spec_bytes().len(),
        is_char_boundary(s.spec_bytes(), start as int),
        is_char_boundary(s.spec_bytes(), end as int),
    ensures
        r.spec_bytes() == s.spec_bytes().subrange(start as int, end as int),
        r@ == decode_utf8(s.spec_bytes().subrange(start as int, end as int)),
{
    proof {
        broadcast use group_utf8_lib;

        lemma_char_boundary_prefix(s.spec_bytes(), end as int, start as int);
    }
    let (left, _) = s.split_at(end);
    let (_, mid) = left.split_at(start);
    proof {
        broadcast use group_utf8_lib;

        assert(mid.spec_bytes() =~= s.spec_bytes().subrange(start as int, end as int));
        assert(decode_utf8(encode_utf8(mid@)) == mid@);
    }
    mid
}

/// Whether the bytes of `s` start with those of `prefix`.
pub fn bytes_start_with(s: &[u8], prefix: &[u8]) -> (r: bool)
    ensures
        r == (prefix@.len() <= s@.len() && s@.take(prefix@.len() as int) == prefix@),
{
    if prefix.len() > s.len() {
        return false;
    }
    let mut i: usize = 0;
    while i < prefix.len()
        invariant
            prefix@.len() <= s@.len(),
            i <= prefix@.len(),
            s@.take(i as int) == prefix@.take(i as int),
        decreases prefix@.len() - i,
    {
        if s[i] != prefix[i] {
            assert(s@.take(prefix@.len() as int)[i as int] != prefix@[i as int]);
            return false;
        }
        assert(s@.take(i + 1) =~= s@.take(i as int).push(s@[i as int]));
        assert(prefix@.take(i + 1) =~= prefix@.take(i as int).push(prefix@[i as int]));
        i = i + 1;
    }
    assert(prefix@.take(prefix@.len() as int) =~= prefix@);
    true
}

/// Whether `s` starts with `prefix`.
pub fn str_starts_with(s: &str, prefix: &str) -> (r: bool)
    ensures
        r == (prefix.spec_bytes().len() <= s.spec_bytes().len() && s.spec_bytes().take(
            prefix.spec_bytes().len() as int,
        ) == prefix.spec_bytes()),
{
    bytes_start_with(s.as_bytes(), prefix.as_bytes())
}

/// Whether `a` and `b` hold the same characters.
pub fn str_eq(a: &str, b: &str) -> (r: bool)
    ensures
        r == (a@ == b@),
{
    let ab = a.as_bytes();
    let bb = b.as_bytes();
    let r = ab.len() == bb.len() && bytes_start_with(ab, bb);
    proof {
        broadcast use group_utf8_lib;

        assert(ab@.take(ab@.len() as int) =~= ab@);
        if r {
            assert(ab@.take(bb@.len() as int) =~= ab@);
            assert(decode_utf8(encode_utf8(a@)) == a@);
            assert(decode_utf8(encode_utf8(b@)) == b@);
        }
    }
    r
}

/// Number of UTF-16 code units of `c`.
pub fn char_len_utf16(c: char) -> (n: usize)
    ensures
        n == char_utf16_len(c),
{
    if (c as u32) < 0x10000 {
        1
    } else {
        2
    }
}

/// Number of bytes in the UTF-8 encoding of `c`.
pub fn char_len_utf8(c: char) -> (n: usize)
    ensures
        n == encode_scalar(c as u32).len(),
{
    let u = c as u32;
    if u < 0x80 {
        1
    } else if u < 0x800 {
        2
    } else if u < 0x10000 {
        3
    } else {
        4
    }
}

/// Number of UTF-16 code units that encode `s`.
pub fn str_utf16_len(s: &str) -> (n: usize)
    requires
        utf16_len(s@) <= usize::MAX,
    ensures
        n == utf16_len(s@),
{
    let mut n: usize = 0;
    for c in it: s.chars()
        invariant
            it.seq() == s@,
            n == utf16_len(s@.take(it.index() as int)),
            utf16_len(s@) <= usize::MAX,
    {
        assert(c == s@[it.index() as int]);
        proof {
            lemma_utf16_len_take_next(s@, it.index() as int);
            lemma_utf16_len_take_mono(s@, it.index() + 1, s@.len() as int);
            assert(s@.take(s@.len() as int) =~= s@);
        }
        n = n + char_len_utf16(c);
    }
    proof {
        assert(s@.take(s@.len() as int) =~= s@);
    }
    n
}

} // verus!
