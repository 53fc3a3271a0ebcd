//! The state of an open document: its current text plus the latest valid
//! analysis of it.
//!
//! When an edit is temporarily invalid, the previous analysis is retained and
//! mapped onto the unchanged prefix and suffix regions of the current text.

use vstd::prelude::*;
use vstd::string::StringSliceAdditionalSpecFns;
use vstd::utf8::*;

use crate::analysis::{distinct_names, find_named, lookup, DiagnosticError, GrammarAnalysis, SpanItem, TypeDecl};
use crate::line_index::{line_starts, spec_offset, LineIndex};
use crate::offset_map::{
    lemma_identity_map, lemma_mapped_span_is_unchanged, mapped_offset, mapped_span, OffsetMap,
};
use crate::sort::{lemma_to_multiset_map_values, sort_by_key, sorted_by_key, KeyOrder};
use crate::source::{is_diagnostic_for, text_range, SourceText};
use crate::text::substring;
use crate::types::{Diagnostic, Position, Range, Span};

verus! {

/// The span `a` starts before `b`, or at the same offset and ends no later.
pub open spec fn span_le(a: Span, b: Span) -> bool {
    a.0 < b.0 || (a.0 == b.0 && a.1 <= b.1)
}

/// What an update to a document brings: an analysis, or the diagnostic of
/// why the text could not be analysed.
pub enum AnalysisUpdate {
    Valid(Box<GrammarAnalysis>),
    Invalid(Box<Diagnostic>),
}

/// A new version of a document's text, analysed.
pub struct DocumentUpdate {
    version: i32,
    source: SourceText,
    analysis: AnalysisUpdate,
}

impl DocumentUpdate {
    pub closed spec fn spec_version(&self) -> i32 {
        self.version
    }

    /// The text of the update.
    pub closed spec fn spec_text(&self) -> Seq<char> {
        self.source@
    }

    /// The analysis of the text, or the diagnostic that replaces it.
    pub closed spec fn outcome(&self) -> Result<GrammarAnalysis, Diagnostic> {
        match self.analysis {
            AnalysisUpdate::Valid(file) => Ok(*file),
            AnalysisUpdate::Invalid(diagnostic) => Err(*diagnostic),
        }
    }

    /// The text's line index belongs to it, and an analysis names each
    /// nonterminal at most once per table.
    pub closed spec fn wf(&self) -> bool {
        &&& self.source.wf()
        &&& self.analysis matches AnalysisUpdate::Valid(file) ==> file.wf()
    }

    /// An update to `text` at `version`, with LALRPOP's verdict on the text:
    /// its analysis, or the error that stopped it (turned into a diagnostic
    /// located in the text).
    pub fn new(version: i32, text: String, parsed: Result<GrammarAnalysis, DiagnosticError>) -> (u:
        Self)
        requires
            parsed matches Ok(file) ==> file.wf(),
        ensures
            u.wf(),
            u.spec_version() == version,
            u.spec_text() == text@,
            match parsed {
                Ok(file) => u.outcome() == Ok::<GrammarAnalysis, Diagnostic>(file),
                Err(error) => u.outcome() matches Err(d) && is_diagnostic_for(
                    encode_utf8(text@),
                    error,
                    d,
                ),
            },
    {
        let source = SourceText::new(text);
        let analysis = match parsed {
            Ok(file) => AnalysisUpdate::Valid(Box::new(file)),
            Err(error) => AnalysisUpdate::Invalid(Box::new(source.diagnostic(error))),
        };
        DocumentUpdate { version, source, analysis }
    }

    pub fn version(&self) -> (v: i32)
        ensures
            v == self.spec_version(),
    {
        self.version
    }
}

/// A valid analysis together with the text it was made of.
struct AnalysisSnapshot {
    source: SourceText,
    file: GrammarAnalysis,
}

/// A span of the analysed text where `m` carries it in the current text; a
/// span whose image would not fit in a `usize` has none.
pub open spec fn map_span(m: Option<OffsetMap>, span: Span) -> Option<Span> {
    match m {
        None => None,
        Some(m) => {
            if span.1 > m.common_prefix && span.0 >= m.analysis_suffix_start && !(
            m.current_suffix_start + span.1 - m.analysis_suffix_start >= 0
                && m.current_suffix_start + span.0 - m.analysis_suffix_start <= usize::MAX
                && m.current_suffix_start + span.1 - m.analysis_suffix_start <= usize::MAX) {
                None
            } else {
                mapped_span(m, span)
            }
        },
    }
}

/// The images, in order, of the spans that `m` carries into the current text.
pub open spec fn map_spans(m: Option<OffsetMap>, spans: Seq<Span>) -> Seq<Span>
    decreases spans.len(),
{
    if spans.len() == 0 {
        Seq::empty()
    } else {
        let rest = map_spans(m, spans.drop_last());
        match map_span(m, spans.last()) {
            Some(s) => rest.push(s),
            None => rest,
        }
    }
}

/// The names of the definitions whose spans `m` carries into the current
/// text, with their images.
pub open spec fn map_definitions(m: Option<OffsetMap>, defs: Seq<(String, Span)>) -> Seq<
    (Seq<char>, Span),
>
    decreases defs.len(),
{
    if defs.len() == 0 {
        Seq::empty()
    } else {
        let rest = map_definitions(m, defs.drop_last());
        match map_span(m, defs.last().1) {
            Some(s) => rest.push((defs.last().0@, s)),
            None => rest,
        }
    }
}

/// How a span of the analysed text is carried into the current text: one
/// that ends within the unchanged prefix stays where it is; one that starts
/// within the unchanged suffix moves by the difference between where the
/// suffix starts in the two texts, towards the start as well as the end;
/// one that reaches into the changed middle has no place.
pub proof fn lemma_map_span_carries(m: OffsetMap, span: Span)
    ensures
        map_span(None, span) is None,
        span.1 <= m.common_prefix ==> map_span(Some(m), span) == Some(span),
        ({
            let start = m.current_suffix_start + span.0 - m.analysis_suffix_start;
            let end = m.current_suffix_start + span.1 - m.analysis_suffix_start;
            span.1 > m.common_prefix && span.0 >= m.analysis_suffix_start && end >= 0 && start
                <= usize::MAX && end <= usize::MAX ==> map_span(Some(m), span) == Some(
                Span(start as usize, end as usize),
            )
        }),
        span.1 > m.common_prefix && span.0 < m.analysis_suffix_start ==> map_span(Some(m), span) is None,
{
}

/// The spans that `m` carries are kept, once each and in order, at their
/// places in the current text; the others are dropped.
pub proof fn lemma_map_spans_keeps_every_carried_span(m: Option<OffsetMap>, spans: Seq<Span>)
    ensures
        map_spans(m, spans) == spans.filter(|span: Span| map_span(m, span) is Some).map_values(
            |span: Span| map_span(m, span)->0,
        ),
    decreases spans.len(),
{
    reveal(Seq::filter);
    if spans.len() > 0 {
        lemma_map_spans_keeps_every_carried_span(m, spans.drop_last());
    }
    assert(map_spans(m, spans) =~= spans.filter(|span: Span| map_span(m, span) is Some).map_values(
        |span: Span| map_span(m, span)->0,
    ));
}

/// The definitions whose spans `m` carries are kept, once each and in
/// order, with their names and their places in the current text; the others
/// are dropped.
pub proof fn lemma_map_definitions_keeps_every_carried_definition(
    m: Option<OffsetMap>,
    defs: Seq<(String, Span)>,
)
    ensures
        map_definitions(m, defs) == defs.filter(
            |d: (String, Span)| map_span(m, d.1) is Some,
        ).map_values(|d: (String, Span)| (d.0@, map_span(m, d.1)->0)),
    decreases defs.len(),
{
    reveal(Seq::filter);
    if defs.len() > 0 {
        lemma_map_definitions_keeps_every_carried_definition(m, defs.drop_last());
    }
    assert(map_definitions(m, defs) =~= defs.filter(
        |d: (String, Span)| map_span(m, d.1) is Some,
    ).map_values(|d: (String, Span)| (d.0@, map_span(m, d.1)->0)));
}

/// The names that `m` carries into the current text come, without repeats,
/// from those of `defs` where `defs` names each definition once.
proof fn lemma_map_definitions_names(m: Option<OffsetMap>, defs: Seq<(String, Span)>)
    requires
        distinct_names(defs),
    ensures
        map_definitions(m, defs).map_values(|e: (Seq<char>, Span)| e.0).no_duplicates(),
        forall|k: int|
            0 <= k < map_definitions(m, defs).len() ==> exists|i: int|
                0 <= i < defs.len() && defs[i].0@ == #[trigger] map_definitions(m, defs)[k].0,
    decreases defs.len(),
{
    if defs.len() > 0 {
        let front = defs.drop_last();
        lemma_map_definitions_names(m, front);
        let rest = map_definitions(m, front);
        let names = map_definitions(m, defs).map_values(|e: (Seq<char>, Span)| e.0);
        if map_span(m, defs.last().1) is Some {
            assert forall|k: int| 0 <= k < rest.len() implies rest[k].0 != defs.last().0@ by {
                let i = choose|i: int| 0 <= i < front.len() && front[i].0@ == rest[k].0;
                assert(defs[i].0@ != defs[defs.len() - 1].0@);
            }
            assert forall|k: int|
                0 <= k < map_definitions(m, defs).len() implies exists|i: int|
                    0 <= i < defs.len() && defs[i].0@ == #[trigger] map_definitions(m, defs)[k].0 by {
                if k < rest.len() {
                    let i = choose|i: int| 0 <= i < front.len() && front[i].0@ == rest[k].0;
                    assert(defs[i].0@ == map_definitions(m, defs)[k].0);
                } else {
                    assert(defs[defs.len() - 1].0@ == map_definitions(m, defs)[k].0);
                }
            }
            assert forall|a: int, b: int|
                0 <= a < names.len() && 0 <= b < names.len() && a != b implies names[a]
                != names[b] by {
                let rn = rest.map_values(|e: (Seq<char>, Span)| e.0);
                if a < rest.len() && b < rest.len() {
                    assert(rn[a] != rn[b]);
                }
            }
        } else {
            assert forall|k: int|
                0 <= k < map_definitions(m, defs).len() implies exists|i: int|
                    0 <= i < defs.len() && defs[i].0@ == #[trigger] map_definitions(m, defs)[k].0 by {
                let i = choose|i: int| 0 <= i < front.len() && front[i].0@ == rest[k].0;
                assert(defs[i].0@ == map_definitions(m, defs)[k].0);
            }
            assert(names =~= rest.map_values(|e: (Seq<char>, Span)| e.0));
        }
    }
}

/// The characters and the span of a named definition.
pub open spec fn definition_view(entry: (String, Span)) -> (Seq<char>, Span) {
    (entry.0@, entry.1)
}

/// A symbol found at a position of the current text.
pub struct SymbolHit {
    pub span: Span,
    pub item: SpanItem,
}

#[derive(Clone, Copy, Debug, PartialEq, Eq, Structural)]
pub enum OccurrenceKind {
    Definition,
    Reference,
}

/// A place where a nonterminal is defined or referenced.
#[derive(Clone, Copy, Debug, PartialEq, Eq, Structural)]
pub struct Occurrence {
    pub span: Span,
    pub kind: OccurrenceKind,
}

impl KeyOrder for Occurrence {
    open spec fn key_le(self, other: Self) -> bool {
        span_le(self.span, other.span)
    }

    proof fn lemma_key_le_total(a: Self, b: Self) {
    }

    proof fn lemma_key_le_transitive(a: Self, b: Self, c: Self) {
    }

    fn le(&self, other: &Self) -> (r: bool) {
        self.span.0 < other.span.0 || (self.span.0 == other.span.0 && self.span.1
            <= other.span.1)
    }
}

impl KeyOrder for (String, Span) {
    open spec fn key_le(self, other: Self) -> bool {
        span_le(self.1, other.1)
    }

    proof fn lemma_key_le_total(a: Self, b: Self) {
    }

    proof fn lemma_key_le_transitive(a: Self, b: Self, c: Self) {
    }

    fn le(&self, other: &Self) -> (r: bool) {
        self.1.0 < other.1.0 || (self.1.0 == other.1.0 && self.1.1 <= other.1.1)
    }
}

/// Current document text plus the latest valid semantic analysis.
///
/// When an edit is temporarily invalid, the previous analysis is retained and
/// safely mapped onto unchanged prefix and suffix regions of the current text.
pub struct ParsedDocument {
    version: i32,
    source: SourceText,
    analysis: Option<AnalysisSnapshot>,
    offset_map: Option<OffsetMap>,
}

impl ParsedDocument {
    pub closed spec fn spec_version(&self) -> i32 {
        self.version
    }

    /// The current text.
    pub closed spec fn spec_text(&self) -> Seq<char> {
        self.source@
    }

    /// The text of the latest valid analysis.
    pub closed spec fn analysis_text(&self) -> Option<Seq<char>> {
        match self.analysis {
            Some(a) => Some(a.source@),
            None => None,
        }
    }

    /// The latest valid analysis.
    pub closed spec fn spec_analysis(&self) -> Option<GrammarAnalysis> {
        match self.analysis {
            Some(a) => Some(a.file),
            None => None,
        }
    }

    /// How offsets of the analysed text carry over to the current text.
    pub closed spec fn spec_map(&self) -> Option<OffsetMap> {
        self.offset_map
    }

    pub closed spec fn texts_wf(&self) -> bool {
        &&& self.source.wf()
        &&& self.analysis matches Some(a) ==> a.source.wf()
    }

    /// The map splits the analysed text and the current text into their
    /// shared prefix and suffix.
    pub open spec fn wf(&self) -> bool {
        &&& self.texts_wf()
        &&& self.analysis_text() is Some == self.spec_analysis() is Some
        &&& self.analysis_text() is Some == self.spec_map() is Some
        &&& self.spec_analysis() matches Some(file) ==> file.wf()
        &&& self.spec_map() matches Some(m) ==> {
            &&& m.splits(encode_utf8(self.analysis_text()->0), encode_utf8(self.spec_text()))
            &&& m == OffsetMap::split_of(
                encode_utf8(self.analysis_text()->0),
                encode_utf8(self.spec_text()),
            )
            &&& m.common_prefix <= m.analysis_suffix_start
            &&& m.common_prefix <= m.current_suffix_start
        }
    }

    /// The offset in the analysed text of `position` in the current text.
    pub open spec fn analysis_offset(&self, position: Position) -> Option<usize> {
        if self.spec_analysis() is None {
            None
        } else {
            let b = encode_utf8(self.spec_text());
            match spec_offset(line_starts(b), b, position) {
                Some(offset) => mapped_offset(self.spec_map()->0, offset as int),
                None => None,
            }
        }
    }

    /// The span in the current text of the definition of `name`.
    pub open spec fn spec_definition_span(&self, name: Seq<char>) -> Option<Span> {
        match self.spec_analysis() {
            Some(file) => match lookup(file.definitions@, name) {
                Some(span) => map_span(self.spec_map(), span),
                None => None,
            },
            None => None,
        }
    }

    /// The spans in the current text of the references to `name`.
    pub open spec fn spec_reference_spans(&self, name: Seq<char>) -> Seq<Span> {
        match self.spec_analysis() {
            Some(file) => match lookup(file.references@, name) {
                Some(spans) => map_spans(self.spec_map(), spans@),
                None => Seq::empty(),
            },
            None => Seq::empty(),
        }
    }

    /// The definition of `name`, if it has one in the current text, followed
    /// by the references to it.
    pub open spec fn spec_occurrences(&self, name: Seq<char>) -> Seq<Occurrence> {
        let refs = self.spec_reference_spans(name).map_values(
            |span: Span| Occurrence { span, kind: OccurrenceKind::Reference },
        );
        match self.spec_definition_span(name) {
            Some(span) => seq![Occurrence { span, kind: OccurrenceKind::Definition }] + refs,
            None => refs,
        }
    }

    /// Installs an analysis update: a valid analysis replaces the retained
    /// one; an invalid one keeps it and maps it onto the current text.
    fn install_analysis(&mut self, update: AnalysisUpdate) -> (diagnostics: Vec<Diagnostic>)
        requires
            old(self).texts_wf(),
            old(self).analysis_text() is Some == old(self).spec_analysis() is Some,
            old(self).spec_analysis() matches Some(file) ==> file.wf(),
            update matches AnalysisUpdate::Valid(file) ==> file.wf(),
        ensures
            final(self).wf(),
            final(self).spec_version() == old(self).spec_version(),
            final(self).spec_text() == old(self).spec_text(),
            match update {
                AnalysisUpdate::Valid(file) => {
                    &&& final(self).spec_analysis() == Some(*file)
                    &&& final(self).analysis_text() == Some(old(self).spec_text())
                    &&& diagnostics@.len() == 0
                },
                AnalysisUpdate::Invalid(diagnostic) => {
                    &&& final(self).spec_analysis() == old(self).spec_analysis()
                    &&& final(self).analysis_text() == old(self).analysis_text()
                    &&& diagnostics@ == seq![*diagnostic]
                },
            },
    {
        match update {
            AnalysisUpdate::Valid(file) => {
                let source = self.source.duplicate();
                self.analysis = Some(AnalysisSnapshot { source, file: *file });
                self.offset_map = Some(OffsetMap::between(self.source.as_str(), self.source.as_str()));
                Vec::new()
            },
            AnalysisUpdate::Invalid(diagnostic) => {
                self.offset_map = match &self.analysis {
                    Some(analysis) => Some(
                        OffsetMap::between(analysis.source.as_str(), self.source.as_str()),
                    ),
                    None => None,
                };
                let mut diagnostics = Vec::new();
                diagnostics.push(*diagnostic);
                diagnostics
            },
        }
    }

    /// A document holding `update`, and the update's diagnostics.
    pub fn new(update: DocumentUpdate) -> (r: (Self, Vec<Diagnostic>))
        requires
            update.wf(),
        ensures
            r.0.wf(),
            r.0.spec_version() == update.spec_version(),
            r.0.spec_text() == update.spec_text(),
            match update.outcome() {
                Ok(file) => {
                    &&& r.0.spec_analysis() == Some(file)
                    &&& r.0.analysis_text() == Some(update.spec_text())
                    &&& r.1@.len() == 0
                },
                Err(diagnostic) => {
                    &&& r.0.spec_analysis() is None
                    &&& r.1@ == seq![diagnostic]
                },
            },
    {
        let DocumentUpdate { version, source, analysis } = update;
        let mut document = ParsedDocument { version, source, analysis: None, offset_map: None };
        let diagnostics = document.install_analysis(analysis);
        (document, diagnostics)
    }

    /// Applies a newer update and returns its diagnostics. Stale updates are
    /// ignored and return `None`.
    pub fn apply(&mut self, update: DocumentUpdate) -> (r: Option<Vec<Diagnostic>>)
        requires
            old(self).wf(),
            update.wf(),
        ensures
            final(self).wf(),
            update.spec_version() <= old(self).spec_version() ==> r is None && *final(self)
                == *old(self),
            update.spec_version() > old(self).spec_version() ==> {
                &&& r is Some
                &&& final(self).spec_version() == update.spec_version()
                &&& final(self).spec_text() == update.spec_text()
                &&& match update.outcome() {
                    Ok(file) => {
                        &&& final(self).spec_analysis() == Some(file)
                        &&& final(self).analysis_text() == Some(update.spec_text())
                        &&& r->0@.len() == 0
                    },
                    Err(diagnostic) => {
                        &&& final(self).spec_analysis() == old(self).spec_analysis()
                        &&& final(self).analysis_text() == old(self).analysis_text()
                        &&& final(self).spec_map() == match old(self).analysis_text() {
                            Some(a) => Some(
                                OffsetMap::split_of(encode_utf8(a), encode_utf8(update.spec_text())),
                            ),
                            None => None,
                        }
                        &&& r->0@ == seq![diagnostic]
                    },
                }
            },
    {
        if update.version <= self.version {
            return None;
        }
        let DocumentUpdate { version, source, analysis } = update;
        self.version = version;
        self.source = source;
        Some(self.install_analysis(analysis))
    }

    pub fn version(&self) -> (v: i32)
        ensures
            v == self.spec_version(),
    {
        self.version
    }

    /// The current text.
    pub fn text(&self) -> (t: &str)
        ensures
            t@ == self.spec_text(),
    {
        self.source.as_str()
    }

    /// The range of `span` of the current text.
    pub fn range(&self, span: Span) -> (r: Option<Range>)
        requires
            self.wf(),
        ensures
            r == text_range(encode_utf8(self.spec_text()), span),
    {
        self.source.range(span)
    }

    /// The line index of the current text.
    pub fn line_index(&self) -> (index: &LineIndex)
        requires
            self.wf(),
        ensures
            index.wf(),
            index@ == line_starts(encode_utf8(self.spec_text())),
    {
        self.source.line_index()
    }

    /// The span in the current text that holds the analysed `span`.
    pub fn map_analysis_span(&self, span: Span) -> (r: Option<Span>)
        ensures
            r == map_span(self.spec_map(), span),
    {
        let m = match self.offset_map {
            Some(m) => m,
            None => {
                return None;
            },
        };
        if span.1 > m.common_prefix && span.0 >= m.analysis_suffix_start {
            let fits = if span.1 >= m.analysis_suffix_start {
                m.current_suffix_start <= usize::MAX - (span.1 - m.analysis_suffix_start)
            } else {
                m.current_suffix_start >= m.analysis_suffix_start - span.1
            };
            let start_fits = m.current_suffix_start <= usize::MAX - (span.0
                - m.analysis_suffix_start);
            if !(fits && start_fits) {
                return None;
            }
        }
        m.analysis_span_to_current(span)
    }

    /// The symbol at `position`: the offset is carried into the analysed
    /// text, where `closest_hit` finds the span item closest to it, and that
    /// item's span is carried back to the current text.
    pub fn symbol_at<F: Fn(usize) -> Option<(Span, SpanItem)>>(
        &self,
        position: Position,
        closest_hit: F,
    ) -> (r: Option<SymbolHit>)
        requires
            self.wf(),
            forall|offset: usize| call_requires(closest_hit, (offset,)),
        ensures
            match self.analysis_offset(position) {
                None => r is None,
                Some(offset) => exists|hit: Option<(Span, SpanItem)>|
                    #![trigger call_ensures(closest_hit, (offset,), hit)]
                    {
                        &&& call_ensures(closest_hit, (offset,), hit)
                        &&& match hit {
                            None => r is None,
                            Some((span, item)) => match map_span(self.spec_map(), span) {
                                None => r is None,
                                Some(s) => r matches Some(h) && h.span == s && h.item == item,
                            },
                        }
                    },
            },
    {
        if self.analysis.is_none() {
            return None;
        }
        let current_offset = match self.source.offset(position) {
            Some(o) => o,
            None => {
                return None;
            },
        };
        let m = match self.offset_map {
            Some(m) => m,
            None => {
                return None;
            },
        };
        // The analysed text is held in memory, so its length, which bounds
        // the offsets that the map hands back, fits in a `usize`.
        let analysed_len = match &self.analysis {
            Some(a) => a.source.as_str().as_bytes().len(),
            None => 0,
        };
        assert(analysed_len == encode_utf8(self.analysis_text()->0).len());
        let analysis_offset = match m.current_to_analysis(current_offset) {
            Some(o) => o,
            None => {
                return None;
            },
        };
        let hit = closest_hit(analysis_offset);
        match hit {
            Some((analysis_span, item)) => match self.map_analysis_span(analysis_span) {
                Some(span) => Some(SymbolHit { span, item }),
                None => None,
            },
            None => None,
        }
    }

    /// The span in the current text of the definition of `name`.
    pub fn definition_span(&self, name: &str) -> (r: Option<Span>)
        requires
            self.wf(),
        ensures
            r == self.spec_definition_span(name@),
    {
        let analysis = match &self.analysis {
            Some(a) => a,
            None => {
                return None;
            },
        };
        match find_named(&analysis.file.definitions, name) {
            Some(i) => self.map_analysis_span(analysis.file.definitions[i].1),
            None => None,
        }
    }

    /// The spans in the current text of the references to `name`; references
    /// in the edited region are left out.
    pub fn reference_spans(&self, name: &str) -> (r: Vec<Span>)
        requires
            self.wf(),
        ensures
            r@ == self.spec_reference_spans(name@),
    {
        let mut result: Vec<Span> = Vec::new();
        let analysis = match &self.analysis {
            Some(a) => a,
            None => {
                return result;
            },
        };
        let i = match find_named(&analysis.file.references, name) {
            Some(i) => i,
            None => {
                return result;
            },
        };
        let spans = &analysis.file.references[i].1;
        let mut j: usize = 0;
        while j < spans.len()
            invariant
                j <= spans@.len(),
                result@ == map_spans(self.spec_map(), spans@.take(j as int)),
            decreases spans@.len() - j,
        {
            assert(spans@.take(j + 1).drop_last() =~= spans@.take(j as int));
            if let Some(span) = self.map_analysis_span(spans[j]) {
                result.push(span);
            }
            j = j + 1;
        }
        assert(spans@.take(spans@.len() as int) =~= spans@);
        result
    }

    /// The definition of and the references to `name` in the current text,
    /// ordered by span.
    pub fn occurrences(&self, name: &str) -> (r: Vec<Occurrence>)
        requires
            self.wf(),
        ensures
            r@.to_multiset() == self.spec_occurrences(name@).to_multiset(),
            sorted_by_key(r@),
    {
        let mut occurrences: Vec<Occurrence> = Vec::new();
        let definition = self.definition_span(name);
        if let Some(span) = definition {
            occurrences.push(Occurrence { span, kind: OccurrenceKind::Definition });
        }
        let ghost first = occurrences@;
        let references = self.reference_spans(name);
        let mut j: usize = 0;
        while j < references.len()
            invariant
                j <= references@.len(),
                occurrences@ == first + references@.take(j as int).map_values(
                    |span: Span| Occurrence { span, kind: OccurrenceKind::Reference },
                ),
            decreases references@.len() - j,
        {
            occurrences.push(Occurrence { span: references[j], kind: OccurrenceKind::Reference });
            assert(references@.take(j + 1).map_values(
                |span: Span| Occurrence { span, kind: OccurrenceKind::Reference },
            ) =~= references@.take(j as int).map_values(
                |span: Span| Occurrence { span, kind: OccurrenceKind::Reference },
            ).push(Occurrence { span: references@[j as int], kind: OccurrenceKind::Reference }));
            j = j + 1;
        }
        assert(references@.take(references@.len() as int) =~= references@);
        assert(occurrences@ =~= self.spec_occurrences(name@));
        sort_by_key(occurrences)
    }

    /// The names of the analysed definitions whose spans lie in the unchanged
    /// regions of the current text, with their spans there, ordered by span.
    pub fn definitions(&self) -> (r: Vec<(String, Span)>)
        requires
            self.wf(),
        ensures
            r@.map_values(|e: (String, Span)| definition_view(e)).to_multiset() == match self.spec_analysis() {
                Some(file) => map_definitions(self.spec_map(), file.definitions@),
                None => Seq::empty(),
            }.to_multiset(),
            sorted_by_key(r@),
            forall|i: int, j: int| 0 <= i < j < r@.len() ==> r@[i].0@ != r@[j].0@,
    {
        let mut definitions: Vec<(String, Span)> = Vec::new();
        match &self.analysis {
            Some(analysis) => {
                let defs = &analysis.file.definitions;
                let mut j: usize = 0;
                while j < defs.len()
                    invariant
                        j <= defs@.len(),
                        definitions@.map_values(|e: (String, Span)| definition_view(e))
                            == map_definitions(self.spec_map(), defs@.take(j as int)),
                    decreases defs@.len() - j,
                {
                    assert(defs@.take(j + 1).drop_last() =~= defs@.take(j as int));
                    let ghost before = definitions@;
                    if let Some(span) = self.map_analysis_span(defs[j].1) {
                        definitions.push((defs[j].0.clone(), span));
                        assert(definitions@.map_values(|e: (String, Span)| definition_view(e))
                            =~= before.map_values(|e: (String, Span)| definition_view(e)).push(
                            (defs@[j as int].0@, span),
                        ));
                    }
                    j = j + 1;
                }
                assert(defs@.take(defs@.len() as int) =~= defs@);
            },
            None => {
                assert(definitions@.map_values(|e: (String, Span)| definition_view(e))
                    =~= Seq::<(Seq<char>, Span)>::empty());
            },
        }
        let ghost unsorted = definitions@;
        let sorted = sort_by_key(definitions);
        proof {
            let view = |e: (String, Span)| definition_view(e);
            let name = |e: (Seq<char>, Span)| e.0;
            lemma_to_multiset_map_values(sorted@, unsorted, view);
            let expected = unsorted.map_values(view);
            let got = sorted@.map_values(view);
            if let Some(file) = self.spec_analysis() {
                lemma_map_definitions_names(self.spec_map(), file.definitions@);
            } else {
                assert(expected.map_values(name) =~= Seq::<Seq<char>>::empty());
            }
            lemma_to_multiset_map_values(got, expected, name);
            expected.map_values(name).lemma_multiset_has_no_duplicates();
            got.map_values(name).lemma_multiset_has_no_duplicates_conv();
            assert forall|i: int, j: int| 0 <= i < j < sorted@.len() implies sorted@[i].0@
                != sorted@[j].0@ by {
                assert(got.map_values(name)[i] != got.map_values(name)[j]);
            }
        }
        sorted
    }

    /// The bytes of the definition of `name` in the analysed text, if its
    /// span holds whole characters of that text.
    pub open spec fn spec_definition_source(&self, name: Seq<char>) -> Option<Seq<u8>> {
        match self.spec_analysis() {
            None => None,
            Some(file) => match lookup(file.definitions@, name) {
                None => None,
                Some(span) => {
                    let b = encode_utf8(self.analysis_text()->0);
                    if span.0 <= span.1 <= b.len() && is_char_boundary(b, span.0 as int)
                        && is_char_boundary(b, span.1 as int) {
                        Some(b.subrange(span.0 as int, span.1 as int))
                    } else {
                        None
                    }
                },
            },
        }
    }

    /// The text of the definition of `name` in the analysed text.
    pub fn definition_source(&self, name: &str) -> (r: Option<&str>)
        requires
            self.wf(),
        ensures
            match self.spec_definition_source(name@) {
                None => r is None,
                Some(bytes) => r matches Some(s) && s.spec_bytes() == bytes && s@ == decode_utf8(
                    bytes,
                ),
            },
    {
        let analysis = match &self.analysis {
            Some(a) => a,
            None => {
                return None;
            },
        };
        let i = match find_named(&analysis.file.definitions, name) {
            Some(i) => i,
            None => {
                return None;
            },
        };
        let span = analysis.file.definitions[i].1;
        let text = analysis.source.as_str();
        if span.0 <= span.1 && span.1 <= text.as_bytes().len() && text.is_char_boundary(span.0)
            && text.is_char_boundary(span.1) {
            Some(substring(text, span.0, span.1))
        } else {
            None
        }
    }

    /// The declared signature of `name` in the analysis.
    pub fn type_decl(&self, name: &str) -> (r: Option<&TypeDecl>)
        requires
            self.wf(),
        ensures
            r == match self.spec_analysis() {
                Some(file) => match lookup(file.definition_type_decls@, name@) {
                    Some(decl) => Some(&decl),
                    None => None,
                },
                None => None,
            },
    {
        let analysis = match &self.analysis {
            Some(a) => a,
            None => {
                return None;
            },
        };
        match find_named(&analysis.file.definition_type_decls, name) {
            Some(i) => Some(&analysis.file.definition_type_decls[i].1),
            None => None,
        }
    }

    /// The latest valid analysis.
    pub fn analysis_file(&self) -> (r: Option<&GrammarAnalysis>)
        ensures
            r == match self.spec_analysis() {
                Some(file) => Some(&file),
                None => None,
            },
    {
        match &self.analysis {
            Some(a) => Some(&a.file),
            None => None,
        }
    }
}

/// A span of the retained analysis that the document carries into its current
/// text covers there the same bytes as in the analysed text: what the
/// document reports from an older analysis lies in text that the edits since
/// left unchanged.
pub proof fn lemma_mapped_span_shows_analysed_text(doc: ParsedDocument, span: Span)
    requires
        doc.wf(),
        doc.analysis_text() is Some,
        encode_utf8(doc.spec_text()).len() <= usize::MAX,
        span.0 <= span.1 <= encode_utf8(doc.analysis_text()->0).len(),
        map_span(doc.spec_map(), span) is Some,
    ensures
        ({
            let a = encode_utf8(doc.analysis_text()->0);
            let c = encode_utf8(doc.spec_text());
            let s = map_span(doc.spec_map(), span)->0;
            &&& s.0 <= s.1 <= c.len()
            &&& a.subrange(span.0 as int, span.1 as int) == c.subrange(s.0 as int, s.1 as int)
        }),
{
    let m = doc.spec_map()->0;
    lemma_mapped_span_is_unchanged(
        m,
        encode_utf8(doc.analysis_text()->0),
        encode_utf8(doc.spec_text()),
        span,
    );
}

/// While the analysed text is the current text, as after a valid update,
/// every span and every offset of the text stays where it is.
pub proof fn lemma_current_analysis_maps_identically(doc: ParsedDocument)
    requires
        doc.wf(),
        doc.analysis_text() == Some(doc.spec_text()),
    ensures
        forall|span: Span|
            span.1 <= encode_utf8(doc.spec_text()).len() ==> map_span(doc.spec_map(), span)
                == Some(span),
        forall|offset: int|
            0 <= offset <= encode_utf8(doc.spec_text()).len() ==> mapped_offset(
                doc.spec_map()->0,
                offset,
            ) == Some(offset as usize),
{
    let t = encode_utf8(doc.spec_text());
    encode_utf8_valid_utf8(doc.spec_text());
    lemma_identity_map(doc.spec_map()->0, t);
}

} // verus!
