//! Semantic highlighting: every resolved nonterminal name becomes a token,
//! a function for a plain rule and a macro for a rule with parameters, and
//! the tokens are sent in the relative encoding of the language server
//! protocol.

use vstd::prelude::*;
use vstd::string::StringSliceAdditionalSpecFns;
use vstd::utf8::*;

use crate::analysis::{find_named, lookup, GrammarAnalysis, SpanItem};
use crate::line_index::{line_starts, spec_position, LineIndex};
use crate::sort::{sort_by_key, sorted_by_key, KeyOrder};
use crate::text::{lemma_utf16_len_le_utf8_len, str_starts_with, str_utf16_len, substring, utf16_len};
use crate::types::Span;

verus! {

/// Index of the `function` token type in the legend.
pub const FUNCTION_TOKEN: u32 = 0;

/// Index of the `macro` token type in the legend.
pub const MACRO_TOKEN: u32 = 1;

/// Bit of the `declaration` modifier in the legend.
pub const DECLARATION_MODIFIER: u32 = 1;

/// Byte value of a backtick.
pub const BACKTICK: u8 = 96;

/// A token at an absolute position.
#[derive(Clone, Copy, Debug, PartialEq, Eq, Structural)]
pub struct AbsoluteToken {
    pub line: u32,
    pub start: u32,
    pub length: u32,
    pub token_type: u32,
    pub token_modifiers_bitset: u32,
}

/// A token positioned relative to the previous one, as the language server
/// protocol sends it.
#[derive(Clone, Copy, Debug, PartialEq, Eq, Structural)]
pub struct SemanticToken {
    pub delta_line: u32,
    pub delta_start: u32,
    pub length: u32,
    pub token_type: u32,
    pub token_modifiers_bitset: u32,
}

/// The token types and modifiers that the server uses.
pub struct SemanticTokensLegend {
    pub token_types: Vec<String>,
    pub token_modifiers: Vec<String>,
}

/// `a` comes before `b` or equals it, comparing line, start, length, type and
/// modifiers in turn.
pub open spec fn token_le(a: AbsoluteToken, b: AbsoluteToken) -> bool {
    if a.line != b.line {
        a.line < b.line
    } else if a.start != b.start {
        a.start < b.start
    } else if a.length != b.length {
        a.length < b.length
    } else if a.token_type != b.token_type {
        a.token_type < b.token_type
    } else {
        a.token_modifiers_bitset <= b.token_modifiers_bitset
    }
}

/// `a` lies at or before `b`: on an earlier line, or on the same line at a
/// start no later.
pub open spec fn position_le(a: AbsoluteToken, b: AbsoluteToken) -> bool {
    a.line < b.line || (a.line == b.line && a.start <= b.start)
}

/// The tokens of `s` come in order of line and start.
pub open spec fn sorted_by_position(s: Seq<AbsoluteToken>) -> bool {
    forall|i: int, j: int| 0 <= i < j < s.len() ==> position_le(s[i], s[j])
}

/// `s` is strictly increasing.
pub open spec fn strictly_sorted(s: Seq<AbsoluteToken>) -> bool {
    forall|i: int, j: int| 0 <= i < j < s.len() ==> token_le(s[i], s[j]) && s[i] != s[j]
}

impl KeyOrder for AbsoluteToken {
    open spec fn key_le(self, other: Self) -> bool {
        token_le(self, other)
    }

    proof fn lemma_key_le_total(a: Self, b: Self) {
    }

    proof fn lemma_key_le_transitive(a: Self, b: Self, c: Self) {
    }

    fn le(&self, other: &Self) -> (r: bool) {
        if self.line != other.line {
            self.line < other.line
        } else if self.start != other.start {
            self.start < other.start
        } else if self.length != other.length {
            self.length < other.length
        } else if self.token_type != other.token_type {
            self.token_type < other.token_type
        } else {
            self.token_modifiers_bitset <= other.token_modifiers_bitset
        }
    }
}

/// Where the name `n` starts in the span `span` of the text `b`: at the
/// span's start, or just after a backtick that opens the span (escaped
/// nonterminal definitions include the backticks in their span).
pub open spec fn spec_name_offset(b: Seq<u8>, span: Span, n: Seq<u8>) -> Option<usize> {
    if !(span.0 <= span.1 <= b.len() && is_char_boundary(b, span.0 as int) && is_char_boundary(
        b,
        span.1 as int,
    )) {
        None
    } else {
        let t = b.subrange(span.0 as int, span.1 as int);
        if n.len() <= t.len() && t.take(n.len() as int) == n {
            Some(span.0)
        } else if t.len() > 0 && t[0] == BACKTICK && n.len() <= t.len() - 1 && t.skip(1).take(
            n.len() as int,
        ) == n {
            Some((span.0 + 1) as usize)
        } else {
            None
        }
    }
}

/// The token for the span item `item` at `span` of the text `b` with line
/// starts `s`: only names that the analysis defines are tokens.
pub open spec fn spec_absolute_token(
    s: Seq<usize>,
    b: Seq<u8>,
    file: GrammarAnalysis,
    span: Span,
    item: SpanItem,
) -> Option<AbsoluteToken> {
    let named = match item {
        SpanItem::Grammar => None,
        SpanItem::Definition(name) => Some((name@, DECLARATION_MODIFIER)),
        SpanItem::Reference(name) => Some((name@, 0u32)),
    };
    match named {
        None => None,
        Some((name, modifiers)) => match lookup(file.definition_type_decls@, name) {
            None => None,
            Some(decl) => {
                let token_type = if decl.args@.len() == 0 {
                    FUNCTION_TOKEN
                } else {
                    MACRO_TOKEN
                };
                let n = encode_utf8(name);
                match spec_name_offset(b, span, n) {
                    None => None,
                    Some(start) => {
                        let end = start + n.len();
                        if end > usize::MAX || !(end <= b.len() && is_char_boundary(b, start as int)
                            && is_char_boundary(b, end)) {
                            None
                        } else {
                            match spec_position(s, b, start as int) {
                                None => None,
                                Some(position) => {
                                    let length = utf16_len(decode_utf8(b.subrange(start as int, end)));
                                    if length > u32::MAX {
                                        None
                                    } else {
                                        Some(
                                            AbsoluteToken {
                                                line: position.line,
                                                start: position.character,
                                                length: length as u32,
                                                token_type,
                                                token_modifiers_bitset: modifiers,
                                            },
                                        )
                                    }
                                }
                            }
                        }
                    },
                }
            },
        },
    }
}

/// The tokens of the span items `items`, each at the span `mapped` gives it
/// (an item without one has no token).
pub open spec fn spec_tokens(
    s: Seq<usize>,
    b: Seq<u8>,
    file: GrammarAnalysis,
    items: Seq<(Span, SpanItem)>,
    mapped: Seq<Option<Span>>,
) -> Seq<AbsoluteToken>
    decreases items.len(),
{
    if items.len() == 0 || mapped.len() != items.len() {
        Seq::empty()
    } else {
        let rest = spec_tokens(s, b, file, items.drop_last(), mapped.drop_last());
        match mapped.last() {
            None => rest,
            Some(span) => match spec_absolute_token(s, b, file, span, items.last().1) {
                Some(token) => rest.push(token),
                None => rest,
            },
        }
    }
}

/// The relative encoding of the token at index `i` of `tokens`.
pub open spec fn relative_token(tokens: Seq<AbsoluteToken>, i: int) -> SemanticToken {
    let previous_line = if i == 0 {
        0
    } else {
        tokens[i - 1].line
    };
    let previous_start = if i == 0 {
        0
    } else {
        tokens[i - 1].start
    };
    let t = tokens[i];
    let delta_line = (t.line - previous_line) as u32;
    SemanticToken {
        delta_line,
        delta_start: if delta_line == 0 {
            (t.start - previous_start) as u32
        } else {
            t.start
        },
        length: t.length,
        token_type: t.token_type,
        token_modifiers_bitset: t.token_modifiers_bitset,
    }
}

/// The relative encoding of `tokens`.
pub open spec fn encode_relative_spec(tokens: Seq<AbsoluteToken>) -> Seq<SemanticToken> {
    Seq::new(tokens.len(), |i: int| relative_token(tokens, i))
}

/// The absolute tokens that a relative encoding stands for, read as a client
/// does: lines accumulate, and starts accumulate within a line.
pub open spec fn decode_relative(tokens: Seq<SemanticToken>) -> Seq<AbsoluteToken>
    decreases tokens.len(),
{
    if tokens.len() == 0 {
        Seq::empty()
    } else {
        let previous = decode_relative(tokens.drop_last());
        let previous_line = if previous.len() == 0 {
            0
        } else {
            previous.last().line
        };
        let previous_start = if previous.len() == 0 {
            0
        } else {
            previous.last().start
        };
        let t = tokens.last();
        previous.push(
            AbsoluteToken {
                line: (previous_line + t.delta_line) as u32,
                start: if t.delta_line == 0 {
                    (previous_start + t.delta_start) as u32
                } else {
                    t.delta_start
                },
                length: t.length,
                token_type: t.token_type,
                token_modifiers_bitset: t.token_modifiers_bitset,
            },
        )
    }
}

/// The tokens that `full_mapped` sends for `tokens`: each distinct token
/// once, in order, relatively encoded.
pub open spec fn is_encoding_of(r: Seq<SemanticToken>, tokens: Seq<AbsoluteToken>) -> bool {
    exists|ordered: Seq<AbsoluteToken>|
        #![trigger encode_relative_spec(ordered)]
        {
            &&& strictly_sorted(ordered)
            &&& ordered.to_set() == tokens.to_set()
            &&& r == encode_relative_spec(ordered)
        }
}

/// Decoding the relative encoding of ordered tokens gives them back: the
/// encoding loses nothing a client needs.
pub proof fn lemma_decode_encode_relative(tokens: Seq<AbsoluteToken>)
    requires
        sorted_by_position(tokens),
    ensures
        decode_relative(encode_relative_spec(tokens)) == tokens,
    decreases tokens.len(),
{
    if tokens.len() > 0 {
        let front = tokens.drop_last();
        lemma_decode_encode_relative(front);
        assert(encode_relative_spec(tokens).drop_last() =~= encode_relative_spec(front));
        let n = tokens.len() - 1;
        if n > 0 {
            assert(position_le(tokens[n - 1], tokens[n]));
        }
        assert(decode_relative(encode_relative_spec(tokens)) =~= tokens);
    }
}

/// The legend: the token types `function` and `macro` (indices
/// `FUNCTION_TOKEN` and `MACRO_TOKEN`) and the modifier `declaration` (bit
/// `DECLARATION_MODIFIER`).
pub fn legend() -> (l: SemanticTokensLegend)
    ensures
        l.token_types@.len() == 2,
        l.token_types@[FUNCTION_TOKEN as int]@ == "function"@,
        l.token_types@[MACRO_TOKEN as int]@ == "macro"@,
        l.token_modifiers@.len() == 1,
        l.token_modifiers@[0]@ == "declaration"@,
{
    let mut token_types: Vec<String> = Vec::new();
    token_types.push("function".to_owned());
    token_types.push("macro".to_owned());
    let mut token_modifiers: Vec<String> = Vec::new();
    token_modifiers.push("declaration".to_owned());
    SemanticTokensLegend { token_types, token_modifiers }
}

/// Where `name` starts in `span` of `text`.
fn name_offset(text: &str, span: Span, name: &str) -> (r: Option<usize>)
    ensures
        r == spec_name_offset(text.spec_bytes(), span, name.spec_bytes()),
{
    let ghost b = text.spec_bytes();
    let ghost n = name.spec_bytes();
    let len = text.as_bytes().len();
    if !(span.0 <= span.1 && span.1 <= len && text.is_char_boundary(span.0)
        && text.is_char_boundary(span.1)) {
        return None;
    }
    let span_text = substring(text, span.0, span.1);
    if str_starts_with(span_text, name) {
        return Some(span.0);
    }
    let bytes = span_text.as_bytes();
    if bytes.len() == 0 || bytes[0] != BACKTICK {
        return None;
    }
    let name_bytes = name.as_bytes();
    if name_bytes.len() > bytes.len() - 1 {
        return None;
    }
    assert(spec_name_offset(b, span, n) == if bytes@.skip(1).take(n.len() as int) == n {
        Some((span.0 + 1) as usize)
    } else {
        None
    });
    let mut i: usize = 0;
    while i < name_bytes.len()
        invariant
            b == text.spec_bytes(),
            n == name.spec_bytes(),
            span.0 < span.1,
            spec_name_offset(b, span, n) == if bytes@.skip(1).take(n.len() as int) == n {
                Some((span.0 + 1) as usize)
            } else {
                None
            },
            bytes@ == b.subrange(span.0 as int, span.1 as int),
            name_bytes@ == n,
            n.len() <= bytes@.len() - 1,
            i <= n.len(),
            bytes@.skip(1).take(i as int) == n.take(i as int),
        decreases n.len() - i,
    {
        if bytes[i + 1] != name_bytes[i] {
            assert(bytes@.skip(1).take(n.len() as int)[i as int] != n[i as int]);
            return None;
        }
        assert(bytes@.skip(1).take(i + 1) =~= bytes@.skip(1).take(i as int).push(bytes@[i + 1]));
        assert(n.take(i + 1) =~= n.take(i as int).push(n[i as int]));
        i = i + 1;
    }
    assert(n.take(n.len() as int) =~= n);
    Some(span.0 + 1)
}

/// The token for the span item `item` at `span` of `text`.
fn absolute_token(
    text: &str,
    line_index: &LineIndex,
    file: &GrammarAnalysis,
    span: Span,
    item: &SpanItem,
) -> (r: Option<AbsoluteToken>)
    requires
        line_index.wf(),
    ensures
        r == spec_absolute_token(line_index@, text.spec_bytes(), *file, span, *item),
{
    let (name, token_modifiers_bitset) = match item {
        SpanItem::Grammar => {
            return None;
        },
        SpanItem::Definition(name) => (name, DECLARATION_MODIFIER),
        SpanItem::Reference(name) => (name, 0u32),
    };
    let declaration = match find_named(&file.definition_type_decls, name.as_str()) {
        Some(i) => &file.definition_type_decls[i].1,
        None => {
            return None;
        },
    };
    let token_type = if declaration.args.len() == 0 {
        FUNCTION_TOKEN
    } else {
        MACRO_TOKEN
    };
    let start_offset = match name_offset(text, span, name.as_str()) {
        Some(o) => o,
        None => {
            return None;
        },
    };
    let end_offset = match start_offset.checked_add(name.as_str().as_bytes().len()) {
        Some(o) => o,
        None => {
            return None;
        },
    };
    let len = text.as_bytes().len();
    if !(end_offset <= len && text.is_char_boundary(start_offset) && text.is_char_boundary(
        end_offset,
    )) {
        return None;
    }
    let token_text = substring(text, start_offset, end_offset);
    let position = match line_index.position(text, start_offset) {
        Some(p) => p,
        None => {
            return None;
        },
    };
    proof {
        broadcast use group_utf8_lib;

        lemma_utf16_len_le_utf8_len(token_text@);
    }
    let length = str_utf16_len(token_text);
    if length > 0xffff_ffffusize {
        return None;
    }
    Some(
        AbsoluteToken {
            line: position.line,
            start: position.character,
            length: length as u32,
            token_type,
            token_modifiers_bitset,
        },
    )
}

/// The sorted tokens without repetitions.
fn dedup(tokens: Vec<AbsoluteToken>) -> (r: Vec<AbsoluteToken>)
    requires
        sorted_by_key(tokens@),
    ensures
        strictly_sorted(r@),
        r@.to_set() == tokens@.to_set(),
{
    let mut r: Vec<AbsoluteToken> = Vec::new();
    let mut i: usize = 0;
    while i < tokens.len()
        invariant
            i <= tokens@.len(),
            sorted_by_key(tokens@),
            strictly_sorted(r@),
            r@.to_set() == tokens@.take(i as int).to_set(),
            i > 0 ==> r@.len() > 0 && r@.last() == tokens@[i - 1],
            i == 0 ==> r@.len() == 0,
        decreases tokens@.len() - i,
    {
        let t = tokens[i];
        let ghost before = r@;
        proof {
            if i > 0 {
                assert(tokens@[i - 1].key_le(tokens@[i as int]));
            }
            tokens@.take(i as int).lemma_push_to_set_commute(t);
            before.lemma_push_to_set_commute(t);
        }
        assert(tokens@.take(i + 1) =~= tokens@.take(i as int).push(t));
        if r.len() == 0 || r[r.len() - 1] != t {
            r.push(t);
            proof {
                if i > 0 {
                    assert(token_le(tokens@[i - 1], t));
                    assert forall|a: int, b: int| 0 <= a < b < r@.len() implies token_le(
                        r@[a],
                        r@[b],
                    ) && r@[a] != r@[b] by {
                        if b == r@.len() - 1 && a < b - 1 {
                            assert(token_le(r@[a], before.last()));
                        }
                    }
                }
                assert(r@.to_set() =~= before.to_set().insert(t));
                assert(tokens@.take(i + 1).to_set() =~= tokens@.take(i as int).to_set().insert(t));
            }
        } else {
            proof {
                assert(before.contains(t));
                assert(tokens@.take(i + 1).to_set() =~= tokens@.take(i as int).to_set().insert(t));
                assert(r@.to_set() =~= r@.to_set().insert(t));
            }
        }
        i = i + 1;
    }
    assert(tokens@.take(tokens@.len() as int) =~= tokens@);
    r
}

/// The relative encoding of `tokens`, given in order of line and start.
fn encode_relative(tokens: Vec<AbsoluteToken>) -> (r: Vec<SemanticToken>)
    requires
        sorted_by_position(tokens@),
    ensures
        r@ == encode_relative_spec(tokens@),
        decode_relative(r@) == tokens@,
{
    let mut r: Vec<SemanticToken> = Vec::new();
    let mut previous_line: u32 = 0;
    let mut previous_start: u32 = 0;
    let mut i: usize = 0;
    while i < tokens.len()
        invariant
            i <= tokens@.len(),
            sorted_by_position(tokens@),
            r@ == encode_relative_spec(tokens@).take(i as int),
            i == 0 ==> previous_line == 0 && previous_start == 0,
            i > 0 ==> previous_line == tokens@[i - 1].line && previous_start == tokens@[i
                - 1].start,
        decreases tokens@.len() - i,
    {
        let token = tokens[i];
        proof {
            if i > 0 {
                assert(position_le(tokens@[i - 1], token));
            }
        }
        let delta_line = token.line - previous_line;
        let delta_start = if delta_line == 0 {
            token.start - previous_start
        } else {
            token.start
        };
        previous_line = token.line;
        previous_start = token.start;
        r.push(
            SemanticToken {
                delta_line,
                delta_start,
                length: token.length,
                token_type: token.token_type,
                token_modifiers_bitset: token.token_modifiers_bitset,
            },
        );
        assert(r@ =~= encode_relative_spec(tokens@).take(i + 1));
        i = i + 1;
    }
    assert(encode_relative_spec(tokens@).take(tokens@.len() as int) =~= encode_relative_spec(
        tokens@,
    ));
    proof {
        lemma_decode_encode_relative(tokens@);
    }
    r
}

/// The semantic tokens of the names in `file`'s span items, each item's span
/// first carried into `text` by `map_span`: each distinct token once, in
/// order, relatively encoded.
#[verifier::spinoff_prover]
#[verifier::rlimit(30)]
pub fn full_mapped<F: Fn(Span) -> Option<Span>>(
    text: &str,
    line_index: &LineIndex,
    file: &GrammarAnalysis,
    map_span: F,
) -> (r: Vec<SemanticToken>)
    requires
        line_index.wf(),
        forall|span: Span| call_requires(map_span, (span,)),
    ensures
        exists|mapped: Seq<Option<Span>>|
            {
                &&& mapped.len() == file.span_items@.len()
                &&& forall|i: int|
                    0 <= i < mapped.len() ==> call_ensures(
                        map_span,
                        (file.span_items@[i].0,),
                        #[trigger] mapped[i],
                    )
                &&& is_encoding_of(
                    r@,
                    spec_tokens(line_index@, text.spec_bytes(), *file, file.span_items@, mapped),
                )
            },
{
    let items = &file.span_items;
    let mut tokens: Vec<AbsoluteToken> = Vec::new();
    let ghost mut mapped: Seq<Option<Span>> = Seq::empty();
    let mut i: usize = 0;
    while i < items.len()
        invariant
            i <= items@.len(),
            line_index.wf(),
            forall|span: Span| call_requires(map_span, (span,)),
            mapped.len() == i,
            forall|k: int|
                0 <= k < i ==> call_ensures(map_span, (items@[k].0,), #[trigger] mapped[k]),
            tokens@ == spec_tokens(
                line_index@,
                text.spec_bytes(),
                *file,
                items@.take(i as int),
                mapped,
            ),
        decreases items@.len() - i,
    {
        let ghost before = mapped;
        let m = map_span(items[i].0);
        proof {
            mapped = mapped.push(m);
            assert(items@.take(i + 1).drop_last() =~= items@.take(i as int));
            assert(mapped.drop_last() =~= before);
        }
        if let Some(span) = m {
            if let Some(token) = absolute_token(text, line_index, file, span, &items[i].1) {
                tokens.push(token);
            }
        }
        i = i + 1;
    }
    assert(items@.take(items@.len() as int) =~= items@);
    let sorted = sort_by_key(tokens);
    proof {
        broadcast use vstd::seq_lib::group_to_multiset_ensures;

        assert forall|t: AbsoluteToken| sorted@.contains(t) <==> tokens@.contains(t) by {
            assert(sorted@.to_multiset().count(t) == tokens@.to_multiset().count(t));
        }
        assert(sorted@.to_set() =~= tokens@.to_set());
    }
    let unique = dedup(sorted);
    assert forall|a: int, b: int| 0 <= a < b < unique@.len() implies position_le(
        unique@[a],
        unique@[b],
    ) by {
        assert(token_le(unique@[a], unique@[b]));
    }
    let r = encode_relative(unique);
    assert(is_encoding_of(r@, tokens@));
    r
}

/// The semantic tokens of the names in `file`'s span items, at their own
/// spans of `text`.
pub fn full(text: &str, file: &GrammarAnalysis) -> (r: Vec<SemanticToken>)
    ensures
        is_encoding_of(
            r@,
            spec_tokens(
                line_starts(text.spec_bytes()),
                text.spec_bytes(),
                *file,
                file.span_items@,
                file.span_items@.map_values(|item: (Span, SpanItem)| Some(item.0)),
            ),
        ),
{
    let line_index = LineIndex::new(text);
    let own_span = |span: Span| -> (m: Option<Span>)
        ensures
            m == Some(span),
        { Some(span) };
    let r = full_mapped(text, &line_index, file, own_span);
    proof {
        let mapped = choose|mapped: Seq<Option<Span>>|
            {
                &&& mapped.len() == file.span_items@.len()
                &&& forall|i: int|
                    0 <= i < mapped.len() ==> call_ensures(
                        own_span,
                        (file.span_items@[i].0,),
                        #[trigger] mapped[i],
                    )
                &&& is_encoding_of(
                    r@,
                    spec_tokens(line_index@, text.spec_bytes(), *file, file.span_items@, mapped),
                )
            };
        assert(mapped =~= file.span_items@.map_values(|item: (Span, SpanItem)| Some(item.0)));
    }
    r
}

} // verus!
