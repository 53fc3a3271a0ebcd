//! Mapping of offsets between the text that was last analysed and the
//! current text of a document, through the prefix and the suffix that the two
//! texts share.

use vstd::prelude::*;
use vstd::string::StringSliceAdditionalSpecFns;
use vstd::utf8::*;

use crate::types::Span;

verus! {

/// `k` bytes start both `a` and `b`, and end on a character boundary of each.
pub open spec fn is_common_prefix(a: Seq<u8>, b: Seq<u8>, k: int) -> bool {
    &&& 0 <= k <= a.len()
    &&& k <= b.len()
    &&& a.take(k) == b.take(k)
    &&& is_char_boundary(a, k)
    &&& is_char_boundary(b, k)
}

/// The last `k` bytes of `a` and of `b` are the same.
pub open spec fn same_suffix(a: Seq<u8>, b: Seq<u8>, k: int) -> bool {
    a.skip(a.len() - k) == b.skip(b.len() - k)
}

/// The offset `k` bytes before the end of `a` is a character boundary.
pub open spec fn boundary_from_end(a: Seq<u8>, k: int) -> bool {
    is_char_boundary(a, a.len() - k)
}

/// `k` bytes, no more than `limit`, end both `a` and `b`, and start on a
/// character boundary of each.
pub open spec fn is_common_suffix(a: Seq<u8>, b: Seq<u8>, k: int, limit: int) -> bool {
    &&& 0 <= k <= limit
    &&& k <= a.len()
    &&& k <= b.len()
    &&& same_suffix(a, b, k)
    &&& boundary_from_end(a, k)
    &&& boundary_from_end(b, k)
}

/// The offsets that split an analysed text and a current text into an
/// unchanged prefix, a changed middle and an unchanged suffix.
#[derive(Clone, Copy, Debug, PartialEq, Eq, Structural)]
pub struct OffsetMap {
    /// Length of the unchanged prefix.
    pub common_prefix: usize,
    /// Offset in the analysed text where the unchanged suffix starts.
    pub analysis_suffix_start: usize,
    /// Offset in the current text where the unchanged suffix starts.
    pub current_suffix_start: usize,
}

/// Where `analysis_span_to_current` places `span`.
pub open spec fn mapped_span(m: OffsetMap, span: Span) -> Option<Span> {
    if span.1 <= m.common_prefix {
        Some(span)
    } else if span.0 >= m.analysis_suffix_start {
        Some(
            Span(
                (m.current_suffix_start + span.0 - m.analysis_suffix_start) as usize,
                (m.current_suffix_start + span.1 - m.analysis_suffix_start) as usize,
            ),
        )
    } else {
        None
    }
}

/// Where `current_to_analysis` places `offset`.
pub open spec fn mapped_offset(m: OffsetMap, offset: int) -> Option<usize> {
    if offset >= m.current_suffix_start {
        Some((m.analysis_suffix_start + (offset - m.current_suffix_start)) as usize)
    } else if offset <= m.common_prefix {
        Some(offset as usize)
    } else {
        None
    }
}

/// A span of the analysed text that the map carries over to the current text
/// covers the same bytes there: the map only ever points into text that the
/// edit left unchanged.
pub proof fn lemma_mapped_span_is_unchanged(m: OffsetMap, a: Seq<u8>, c: Seq<u8>, span: Span)
    requires
        m.splits(a, c),
        c.len() <= usize::MAX,
        span.0 <= span.1 <= a.len(),
        mapped_span(m, span) is Some,
    ensures
        ({
            let s = mapped_span(m, span)->0;
            &&& s.0 <= s.1 <= c.len()
            &&& a.subrange(span.0 as int, span.1 as int) == c.subrange(s.0 as int, s.1 as int)
        }),
{
    let s = mapped_span(m, span)->0;
    if span.1 <= m.common_prefix {
        assert(a.take(m.common_prefix as int) == c.take(m.common_prefix as int));
        assert forall|i: int| span.0 <= i < span.1 implies a[i] == c[i] by {
            assert(a.take(m.common_prefix as int)[i] == c.take(m.common_prefix as int)[i]);
        }
        assert(a.subrange(span.0 as int, span.1 as int) =~= c.subrange(s.0 as int, s.1 as int));
    } else {
        let k = a.len() - m.analysis_suffix_start;
        assert(same_suffix(a, c, k));
        assert(s.0 == m.current_suffix_start + span.0 - m.analysis_suffix_start);
        assert(s.1 == m.current_suffix_start + span.1 - m.analysis_suffix_start);
        let sa = a.subrange(span.0 as int, span.1 as int);
        let sc = c.subrange(s.0 as int, s.1 as int);
        assert forall|i: int| 0 <= i < sa.len() implies sa[i] == sc[i] by {
            let j = span.0 + i - m.analysis_suffix_start;
            assert(sa[i] == a[span.0 + i]);
            assert(sc[i] == c[s.0 + i]);
            assert(a.skip(a.len() - k)[j] == a[span.0 + i]);
            assert(c.skip(c.len() - k)[j] == c[s.0 + i]);
            assert(a.skip(a.len() - k)[j] == c.skip(c.len() - k)[j]);
        }
        assert(sa =~= sc);
    }
}

/// Between a text and itself the map is the identity: every span and every
/// offset within the text stays where it is.
pub proof fn lemma_identity_map(m: OffsetMap, t: Seq<u8>)
    requires
        valid_utf8(t),
        m.splits(t, t),
    ensures
        m.common_prefix == t.len(),
        m.analysis_suffix_start == t.len(),
        m.current_suffix_start == t.len(),
        forall|span: Span| span.1 <= t.len() ==> mapped_span(m, span) == Some(span),
        forall|offset: int| 0 <= offset <= t.len() ==> mapped_offset(m, offset) == Some(
            offset as usize,
        ),
{
    broadcast use group_utf8_lib;

    is_char_boundary_start_end_of_seq(t);
    assert(is_common_prefix(t, t, t.len() as int));
    assert(m.common_prefix == t.len());
}

/// Two texts are split by one map only: a map that splits them is the one
/// that `between` builds.
pub proof fn lemma_splits_unique(m1: OffsetMap, m2: OffsetMap, a: Seq<u8>, b: Seq<u8>)
    requires
        m1.splits(a, b),
    ensures
        m2.splits(a, b) ==> m1 == m2,
        OffsetMap::split_of(a, b).splits(a, b),
{
    if m2.splits(a, b) {
        assert(m1.common_prefix == m2.common_prefix) by {
            if m1.common_prefix < m2.common_prefix {
                assert(!is_common_prefix(a, b, m2.common_prefix as int));
            } else if m2.common_prefix < m1.common_prefix {
                assert(!is_common_prefix(a, b, m1.common_prefix as int));
            }
        }
        assert(m1.suffix_limit(a, b) == m2.suffix_limit(a, b));
        assert(m1.suffix_len(a) == m2.suffix_len(a)) by {
            if m1.suffix_len(a) < m2.suffix_len(a) {
                assert(!is_common_suffix(a, b, m2.suffix_len(a), m1.suffix_limit(a, b)));
            } else if m2.suffix_len(a) < m1.suffix_len(a) {
                assert(!is_common_suffix(a, b, m1.suffix_len(a), m2.suffix_limit(a, b)));
            }
        }
    }
}

impl OffsetMap {
    /// The longest that the shared suffix of `a` and `b` may be: what the
    /// shared prefix leaves of the shorter text.
    pub open spec fn suffix_limit(self, a: Seq<u8>, b: Seq<u8>) -> int {
        if a.len() < b.len() {
            a.len() - self.common_prefix
        } else {
            b.len() - self.common_prefix
        }
    }

    /// The length of the shared suffix that the map marks in `a`.
    pub open spec fn suffix_len(self, a: Seq<u8>) -> int {
        a.len() - self.analysis_suffix_start
    }

    /// The map that `between` builds for the texts `a` and `b`: the longest
    /// common prefix that ends on a character boundary of both, then the
    /// longest common suffix, no longer than what the prefix leaves of the
    /// shorter text, that starts on a character boundary of both.
    pub open spec fn splits(self, a: Seq<u8>, b: Seq<u8>) -> bool {
        &&& is_common_prefix(a, b, self.common_prefix as int)
        &&& forall|j: int| self.common_prefix < j ==> !is_common_prefix(a, b, j)
        &&& self.analysis_suffix_start <= a.len()
        &&& b.len() - self.current_suffix_start == self.suffix_len(a)
        &&& is_common_suffix(a, b, self.suffix_len(a), self.suffix_limit(a, b))
        &&& forall|j: int|
            self.suffix_len(a) < j ==> !is_common_suffix(a, b, j, self.suffix_limit(a, b))
    }

    /// The one map that splits `a` and `b`.
    pub open spec fn split_of(a: Seq<u8>, b: Seq<u8>) -> OffsetMap {
        choose|m: OffsetMap| m.splits(a, b)
    }

    /// Splits `analysis` and `current` into a shared prefix, a changed middle
    /// and a shared suffix.
    pub fn between(analysis: &str, current: &str) -> (m: Self)
        ensures
            m.splits(analysis.spec_bytes(), current.spec_bytes()),
            m == OffsetMap::split_of(analysis.spec_bytes(), current.spec_bytes()),
            m.common_prefix <= m.analysis_suffix_start,
            m.common_prefix <= m.current_suffix_start,
    {
        let a = analysis.as_bytes();
        let c = current.as_bytes();
        let ghost ab = analysis.spec_bytes();
        let ghost cb = current.spec_bytes();
        proof {
            broadcast use group_utf8_lib;

            is_char_boundary_start_end_of_seq(ab);
            is_char_boundary_start_end_of_seq(cb);
        }
        let mut common_prefix: usize = 0;
        while common_prefix < a.len() && common_prefix < c.len() && a[common_prefix]
            == c[common_prefix]
            invariant
                a@ == ab,
                c@ == cb,
                common_prefix <= a@.len(),
                common_prefix <= c@.len(),
                ab.take(common_prefix as int) == cb.take(common_prefix as int),
            decreases a@.len() - common_prefix,
        {
            assert(ab.take(common_prefix + 1) =~= ab.take(common_prefix as int).push(
                ab[common_prefix as int],
            ));
            assert(cb.take(common_prefix + 1) =~= cb.take(common_prefix as int).push(
                cb[common_prefix as int],
            ));
            common_prefix = common_prefix + 1;
        }
        let ghost full_prefix = common_prefix;
        assert forall|j: int| full_prefix < j implies !(j <= ab.len() && j <= cb.len() && ab.take(j) == cb.take(j)) by {
            if j <= ab.len() && j <= cb.len() && ab.take(j) == cb.take(j) {
                assert(ab.take(j)[full_prefix as int] == cb.take(j)[full_prefix as int]);
            }
        }
        while !(analysis.is_char_boundary(common_prefix) && current.is_char_boundary(common_prefix))
            invariant
                ab == analysis.spec_bytes(),
                cb == current.spec_bytes(),
                common_prefix <= full_prefix,
                full_prefix <= ab.len(),
                full_prefix <= cb.len(),
                ab.take(full_prefix as int) == cb.take(full_prefix as int),
                is_char_boundary(ab, 0),
                is_char_boundary(cb, 0),
                forall|j: int|
                    common_prefix < j <= full_prefix ==> !(is_char_boundary(ab, j) && is_char_boundary(cb, j)),
            decreases common_prefix,
        {
            common_prefix = common_prefix - 1;
        }
        assert(ab.take(common_prefix as int) =~= ab.take(full_prefix as int).take(common_prefix as int));
        assert(cb.take(common_prefix as int) =~= cb.take(full_prefix as int).take(common_prefix as int));
        assert forall|j: int| common_prefix < j implies !is_common_prefix(ab, cb, j) by {
            if j > full_prefix {
            }
        }
        let a_len = a.len();
        let c_len = c.len();
        let max_suffix = if a_len - common_prefix < c_len - common_prefix {
            a_len - common_prefix
        } else {
            c_len - common_prefix
        };
        let mut common_suffix: usize = 0;
        while common_suffix < max_suffix && a[a_len - 1 - common_suffix] == c[c_len - 1
            - common_suffix]
            invariant
                a@ == ab,
                c@ == cb,
                a_len == ab.len(),
                c_len == cb.len(),
                max_suffix <= a_len,
                max_suffix <= c_len,
                common_suffix <= max_suffix,
                ab.skip(a_len - common_suffix) == cb.skip(c_len - common_suffix),
            decreases max_suffix - common_suffix,
        {
            assert(ab.skip(a_len - (common_suffix + 1)) =~= seq![ab[a_len - 1 - common_suffix]]
                + ab.skip(a_len - common_suffix));
            assert(cb.skip(c_len - (common_suffix + 1)) =~= seq![cb[c_len - 1 - common_suffix]]
                + cb.skip(c_len - common_suffix));
            common_suffix = common_suffix + 1;
        }
        let ghost full_suffix = common_suffix;
        assert forall|j: int| full_suffix < j <= max_suffix implies !same_suffix(ab, cb, j) by {
            if same_suffix(ab, cb, j) {
                assert(ab.skip(a_len - j)[j - 1 - full_suffix] == cb.skip(c_len - j)[j - 1
                    - full_suffix]);
            }
        }
        while !(analysis.is_char_boundary(a_len - common_suffix) && current.is_char_boundary(
            c_len - common_suffix,
        ))
            invariant
                ab == analysis.spec_bytes(),
                cb == current.spec_bytes(),
                a_len == ab.len(),
                c_len == cb.len(),
                common_suffix <= full_suffix,
                full_suffix <= max_suffix,
                max_suffix <= a_len,
                max_suffix <= c_len,
                ab.skip(a_len - full_suffix) == cb.skip(c_len - full_suffix),
                is_char_boundary(ab, ab.len() as int),
                is_char_boundary(cb, cb.len() as int),
                forall|j: int|
                    common_suffix < j <= full_suffix ==> !(boundary_from_end(ab, j)
                        && boundary_from_end(cb, j)),
            decreases common_suffix,
        {
            common_suffix = common_suffix - 1;
        }
        assert(ab.skip(a_len - common_suffix) =~= ab.skip(a_len - full_suffix).skip(
            full_suffix - common_suffix,
        ));
        assert(cb.skip(c_len - common_suffix) =~= cb.skip(c_len - full_suffix).skip(
            full_suffix - common_suffix,
        ));
        assert forall|j: int| common_suffix < j implies !is_common_suffix(
            ab,
            cb,
            j,
            max_suffix as int,
        ) by {
            if j > full_suffix && j <= max_suffix {
            }
        }
        let m = OffsetMap {
            common_prefix,
            analysis_suffix_start: a_len - common_suffix,
            current_suffix_start: c_len - common_suffix,
        };
        proof {
            lemma_splits_unique(m, OffsetMap::split_of(ab, cb), ab, cb);
        }
        m
    }

    /// The offset in the analysed text of `offset` in the current text, if it
    /// lies in the unchanged prefix or suffix.
    pub fn current_to_analysis(self, offset: usize) -> (r: Option<usize>)
        requires
            self.common_prefix <= self.current_suffix_start,
            offset >= self.current_suffix_start ==> self.analysis_suffix_start + (offset
                - self.current_suffix_start) <= usize::MAX,
        ensures
            r == mapped_offset(self, offset as int),
    {
        if offset >= self.current_suffix_start {
            return Some(self.analysis_suffix_start + (offset - self.current_suffix_start));
        }
        if offset <= self.common_prefix {
            Some(offset)
        } else {
            None
        }
    }

    /// The span in the current text that holds the analysed `span`, if that
    /// span lies wholly in the unchanged prefix or wholly in the suffix.
    pub fn analysis_span_to_current(self, span: Span) -> (r: Option<Span>)
        requires
            span.1 > self.common_prefix && span.0 >= self.analysis_suffix_start ==> {
                &&& self.current_suffix_start + span.1 - self.analysis_suffix_start >= 0
                &&& self.current_suffix_start + span.0 - self.analysis_suffix_start <= usize::MAX
                &&& self.current_suffix_start + span.1 - self.analysis_suffix_start <= usize::MAX
            },
        ensures
            r == mapped_span(self, span),
    {
        let Span(start, end) = span;
        if end <= self.common_prefix {
            return Some(Span(start, end));
        }
        if start >= self.analysis_suffix_start {
            let new_end = if end >= self.analysis_suffix_start {
                self.current_suffix_start + (end - self.analysis_suffix_start)
            } else {
                self.current_suffix_start - (self.analysis_suffix_start - end)
            };
            return Some(
                Span(self.current_suffix_start + (start - self.analysis_suffix_start), new_end),
            );
        }
        None
    }
}

} // verus!
