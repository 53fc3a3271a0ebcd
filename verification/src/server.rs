//! What the language server answers to each request about an open document.

use vstd::prelude::*;
use vstd::string::{StringExecFns, StringSliceAdditionalSpecFns};
use vstd::utf8::*;

use crate::analysis::{find_named, lookup, SpanItem, TypeDecl};
use crate::document::{map_span, ParsedDocument, SymbolHit};
use crate::line_index::line_starts;
use crate::semantic_tokens::{full_mapped, is_encoding_of, spec_tokens, SemanticToken};
use crate::source::text_range;
use crate::sort::sorted_by_key;
use crate::types::{Range, Span};

verus! {

/// How the text of markup is to be read.
#[derive(Clone, Copy, Debug, PartialEq, Eq, Structural)]
pub enum MarkupKind {
    PlainText,
    Markdown,
}

/// Text shown to the user.
#[derive(Debug)]
pub struct MarkupContent {
    pub kind: MarkupKind,
    pub value: String,
}

/// The answer to a hover request.
#[derive(Debug)]
pub struct Hover {
    pub contents: MarkupContent,
    pub range: Option<Range>,
}

/// The answer to a go-to-definition request.
#[derive(Debug)]
pub enum GotoDefinitionResponse {
    Scalar(Range),
    Array(Vec<Range>),
}

/// `parts` joined by `sep`.
pub open spec fn seq_join(parts: Seq<Seq<char>>, sep: Seq<char>) -> Seq<char>
    decreases parts.len(),
{
    if parts.len() == 0 {
        Seq::empty()
    } else if parts.len() == 1 {
        parts[0]
    } else {
        seq_join(parts.drop_last(), sep) + sep + parts.last()
    }
}

/// The markdown that shows a signature: a LALRPOP code block holding `name`
/// followed by `type_decl`.
pub open spec fn hover_text(name: Seq<char>, type_decl: Seq<char>) -> Seq<char> {
    "```LALRPOP\n"@ + name + type_decl + "\n```"@
}

/// The name part of the signature of `def`: its definition's text where that
/// is known, else the name with its macro parameters.
pub open spec fn signature_name(def: Seq<char>, decl: TypeDecl, definition_text: Option<Seq<char>>) -> Seq<
    char,
> {
    match definition_text {
        Some(text) => text,
        None => if decl.args@.len() == 0 {
            def
        } else {
            def + "<"@ + seq_join(decl.args@.map_values(|a: String| a@), ", "@) + ">"@
        },
    }
}

/// The type part of a signature: `: ` and the declared type, if there is one.
pub open spec fn signature_type(decl: TypeDecl) -> Seq<char> {
    match decl.ret {
        Some(ty) => ": "@ + ty@,
        None => Seq::empty(),
    }
}

/// The ranges of `spans` in the text `b`, without the spans that have none.
pub open spec fn ranges_of(b: Seq<u8>, spans: Seq<Span>) -> Seq<Range>
    decreases spans.len(),
{
    if spans.len() == 0 {
        Seq::empty()
    } else {
        let rest = ranges_of(b, spans.drop_last());
        match text_range(b, spans.last()) {
            Some(r) => rest.push(r),
            None => rest,
        }
    }
}

/// The name that a span item refers to, if it names a nonterminal.
pub open spec fn item_name(item: SpanItem) -> Option<Seq<char>> {
    match item {
        SpanItem::Grammar => None,
        SpanItem::Definition(name) => Some(name@),
        SpanItem::Reference(name) => Some(name@),
    }
}

/// Each span that has a range in the text gives its range, once and in
/// order, and the spans without one give nothing.
pub proof fn lemma_ranges_of_keeps_every_range(b: Seq<u8>, spans: Seq<Span>)
    ensures
        ranges_of(b, spans) == spans.filter(|span: Span| text_range(b, span) is Some).map_values(
            |span: Span| text_range(b, span)->0,
        ),
    decreases spans.len(),
{
    reveal(Seq::filter);
    if spans.len() > 0 {
        lemma_ranges_of_keeps_every_range(b, spans.drop_last());
    }
    assert(ranges_of(b, spans) =~= spans.filter(|span: Span| text_range(b, span) is Some).map_values(
        |span: Span| text_range(b, span)->0,
    ));
}

/// A definition and a reference name the same nonterminal: hovering,
/// go-to-definition and find-references treat both as naming it, and only
/// the `grammar` item names none.
pub proof fn lemma_item_name(name: String)
    ensures
        item_name(SpanItem::Definition(name)) == Some(name@),
        item_name(SpanItem::Reference(name)) == Some(name@),
        item_name(SpanItem::Grammar) is None,
{
}

/// The markdown signature `name` followed by `type_decl`.
pub fn hover_signature(name: &str, type_decl: &str) -> (m: MarkupContent)
    ensures
        m.kind == MarkupKind::Markdown,
        m.value@ == hover_text(name@, type_decl@),
{
    let mut value = String::from_str("```LALRPOP\n");
    value.append(name);
    value.append(type_decl);
    value.append("\n```");
    MarkupContent { kind: MarkupKind::Markdown, value }
}

/// `parts` joined by `sep`.
fn join(parts: &Vec<String>, sep: &str) -> (r: String)
    ensures
        r@ == seq_join(parts@.map_values(|a: String| a@), sep@),
{
    let ghost views = parts@.map_values(|a: String| a@);
    let mut r = String::new();
    let mut i: usize = 0;
    while i < parts.len()
        invariant
            i <= parts@.len(),
            views == parts@.map_values(|a: String| a@),
            r@ == seq_join(views.take(i as int), sep@),
        decreases parts@.len() - i,
    {
        assert(views.take(i + 1).drop_last() =~= views.take(i as int));
        if i > 0 {
            r.append(sep);
        } else {
            assert(views.take(0) =~= Seq::<Seq<char>>::empty());
        }
        r.append(parts[i].as_str());
        i = i + 1;
    }
    assert(views.take(parts@.len() as int) =~= views);
    r
}

/// The hover contents for the nonterminal `def` with the signature `decl`,
/// whose definition reads `definition_text` where that is known.
pub fn hover_markup(def: &str, decl: &TypeDecl, definition_text: Option<&str>) -> (m:
    MarkupContent)
    ensures
        m.kind == MarkupKind::Markdown,
        m.value@ == hover_text(
            signature_name(
                def@,
                *decl,
                match definition_text {
                    Some(t) => Some(t@),
                    None => None,
                },
            ),
            signature_type(*decl),
        ),
{
    let name = match definition_text {
        Some(text) => String::from_str(text),
        None => {
            let mut name = String::from_str(def);
            if decl.args.len() > 0 {
                name.append("<");
                let joined = join(&decl.args, ", ");
                name.append(joined.as_str());
                name.append(">");
            }
            name
        },
    };
    let type_decl = match &decl.ret {
        Some(ty) => {
            let mut t = String::from_str(": ");
            t.append(ty.as_str());
            t
        },
        None => String::new(),
    };
    hover_signature(name.as_str(), type_decl.as_str())
}

/// The hover for the symbol `hit` of `document`: the signature of the
/// nonterminal it names, over the symbol's range.
pub fn hover(document: &ParsedDocument, hit: &SymbolHit) -> (r: Option<Hover>)
    requires
        document.wf(),
    ensures
        match item_name(hit.item) {
            None => r is None,
            Some(def) => match document.spec_analysis() {
                None => r is None,
                Some(file) => match lookup(file.definition_type_decls@, def) {
                    None => r is None,
                    Some(decl) => r matches Some(h) && h.contents.kind == MarkupKind::Markdown
                        && h.contents.value@ == hover_text(
                        signature_name(
                            def,
                            decl,
                            match document.spec_definition_source(def) {
                                Some(bytes) => Some(decode_utf8(bytes)),
                                None => None,
                            },
                        ),
                        signature_type(decl),
                    ) && h.range == text_range(encode_utf8(document.spec_text()), hit.span),
                },
            },
        },
{
    let def = match &hit.item {
        SpanItem::Grammar => {
            return None;
        },
        SpanItem::Definition(def) => def,
        SpanItem::Reference(def) => def,
    };
    let decl = match document.type_decl(def.as_str()) {
        Some(decl) => decl,
        None => {
            return None;
        },
    };
    let definition_text = document.definition_source(def.as_str());
    let contents = hover_markup(def.as_str(), decl, definition_text);
    Some(Hover { contents, range: document.range(hit.span) })
}

/// The ranges of `spans` of the current text of `document`.
fn ranges(document: &ParsedDocument, spans: &Vec<Span>) -> (r: Vec<Range>)
    requires
        document.wf(),
    ensures
        r@ == ranges_of(encode_utf8(document.spec_text()), spans@),
{
    let ghost b = encode_utf8(document.spec_text());
    let mut r: Vec<Range> = Vec::new();
    let mut i: usize = 0;
    while i < spans.len()
        invariant
            i <= spans@.len(),
            document.wf(),
            b == encode_utf8(document.spec_text()),
            r@ == ranges_of(b, spans@.take(i as int)),
        decreases spans@.len() - i,
    {
        assert(spans@.take(i + 1).drop_last() =~= spans@.take(i as int));
        if let Some(range) = document.range(spans[i]) {
            r.push(range);
        }
        i = i + 1;
    }
    assert(spans@.take(spans@.len() as int) =~= spans@);
    r
}

/// Whether the analysis of `document` lists references to `name`.
fn has_reference_entry(document: &ParsedDocument, name: &str) -> (r: bool)
    ensures
        r == match document.spec_analysis() {
            Some(file) => lookup(file.references@, name@) is Some,
            None => false,
        },
{
    match document.analysis_file() {
        Some(file) => find_named(&file.references, name).is_some(),
        None => false,
    }
}

/// Where go-to-definition leads from the symbol `hit`: from a reference, to
/// the definition; from a definition, to its references.
pub fn goto_definition(document: &ParsedDocument, hit: &SymbolHit) -> (r: Option<
    GotoDefinitionResponse,
>)
    requires
        document.wf(),
    ensures
        match hit.item {
            SpanItem::Grammar => r is None,
            SpanItem::Definition(def) => if match document.spec_analysis() {
                Some(file) => lookup(file.references@, def@) is Some,
                None => false,
            } {
                r matches Some(GotoDefinitionResponse::Array(ranges)) && ranges@ == ranges_of(
                    encode_utf8(document.spec_text()),
                    document.spec_reference_spans(def@),
                )
            } else {
                r is None
            },
            SpanItem::Reference(def) => match document.spec_definition_span(def@) {
                None => r is None,
                Some(span) => match text_range(encode_utf8(document.spec_text()), span) {
                    None => r is None,
                    Some(range) => r matches Some(GotoDefinitionResponse::Scalar(s)) && s
                        == range,
                },
            },
        },
{
    match &hit.item {
        SpanItem::Grammar => None,
        SpanItem::Definition(def) => {
            if !has_reference_entry(document, def.as_str()) {
                return None;
            }
            let spans = document.reference_spans(def.as_str());
            Some(GotoDefinitionResponse::Array(ranges(document, &spans)))
        },
        SpanItem::Reference(def) => {
            let span = match document.definition_span(def.as_str()) {
                Some(span) => span,
                None => {
                    return None;
                },
            };
            match document.range(span) {
                Some(range) => Some(GotoDefinitionResponse::Scalar(range)),
                None => None,
            }
        },
    }
}

/// The references that a find-references request on the symbol `hit`
/// lists: only a definition has them.
pub fn references(document: &ParsedDocument, hit: &SymbolHit) -> (r: Option<Vec<Range>>)
    requires
        document.wf(),
    ensures
        match hit.item {
            SpanItem::Definition(def) => if match document.spec_analysis() {
                Some(file) => lookup(file.references@, def@) is Some,
                None => false,
            } {
                r matches Some(ranges) && ranges@ == ranges_of(
                    encode_utf8(document.spec_text()),
                    document.spec_reference_spans(def@),
                )
            } else {
                r is None
            },
            _ => r is None,
        },
{
    match &hit.item {
        SpanItem::Definition(def) => {
            if !has_reference_entry(document, def.as_str()) {
                return None;
            }
            let spans = document.reference_spans(def.as_str());
            Some(ranges(document, &spans))
        },
        _ => None,
    }
}

/// The symbols of `document`: each definition that lies in the unchanged
/// text, with its range, ordered by span.
pub fn document_symbols(document: &ParsedDocument) -> (r: Vec<(String, Range)>)
    requires
        document.wf(),
    ensures
        exists|definitions: Seq<(String, Span)>|
            {
                &&& definitions.map_values(|e: (String, Span)| (e.0@, e.1)).to_multiset()
                    == match document.spec_analysis() {
                    Some(file) => crate::document::map_definitions(
                        document.spec_map(),
                        file.definitions@,
                    ),
                    None => Seq::empty(),
                }.to_multiset()
                &&& sorted_by_key(definitions)
                &&& forall|i: int, j: int|
                    0 <= i < j < definitions.len() ==> definitions[i].0@ != definitions[j].0@
                &&& r@.map_values(|e: (String, Range)| (e.0@, e.1)) == symbols_of(
                    encode_utf8(document.spec_text()),
                    definitions,
                )
            },
{
    let definitions = document.definitions();
    let ghost b = encode_utf8(document.spec_text());
    let mut symbols: Vec<(String, Range)> = Vec::new();
    let mut i: usize = 0;
    while i < definitions.len()
        invariant
            i <= definitions@.len(),
            document.wf(),
            b == encode_utf8(document.spec_text()),
            symbols@.map_values(|e: (String, Range)| (e.0@, e.1)) == symbols_of(
                b,
                definitions@.take(i as int),
            ),
        decreases definitions@.len() - i,
    {
        assert(definitions@.take(i + 1).drop_last() =~= definitions@.take(i as int));
        let ghost before = symbols@;
        if let Some(range) = document.range(definitions[i].1) {
            symbols.push((definitions[i].0.clone(), range));
            assert(symbols@.map_values(|e: (String, Range)| (e.0@, e.1)) =~= before.map_values(
                |e: (String, Range)| (e.0@, e.1),
            ).push((definitions@[i as int].0@, range)));
        }
        i = i + 1;
    }
    assert(definitions@.take(definitions@.len() as int) =~= definitions@);
    proof {
        let d = definitions@;
        assert(d.map_values(|e: (String, Span)| (e.0@, e.1)) =~= d.map_values(
            |e: (String, Span)| crate::document::definition_view(e),
        ));
        assert(symbols@.map_values(|e: (String, Range)| (e.0@, e.1)) == symbols_of(b, d));
    }
    symbols
}

/// The names and ranges of `definitions` in the text `b`, without the
/// definitions that have no range.
pub open spec fn symbols_of(b: Seq<u8>, definitions: Seq<(String, Span)>) -> Seq<(Seq<char>, Range)>
    decreases definitions.len(),
{
    if definitions.len() == 0 {
        Seq::empty()
    } else {
        let rest = symbols_of(b, definitions.drop_last());
        match text_range(b, definitions.last().1) {
            Some(r) => rest.push((definitions.last().0@, r)),
            None => rest,
        }
    }
}

/// The semantic tokens of `document`: those of its latest valid analysis,
/// at the places that the unchanged text gives them now.
pub fn semantic_tokens(document: &ParsedDocument) -> (r: Vec<SemanticToken>)
    requires
        document.wf(),
    ensures
        match document.spec_analysis() {
            None => r@.len() == 0,
            Some(file) => {
                let b = encode_utf8(document.spec_text());
                is_encoding_of(
                    r@,
                    spec_tokens(
                        line_starts(b),
                        b,
                        file,
                        file.span_items@,
                        file.span_items@.map_values(
                            |item: (Span, SpanItem)| map_span(document.spec_map(), item.0),
                        ),
                    ),
                )
            },
        },
{
    let file = match document.analysis_file() {
        Some(file) => file,
        None => {
            return Vec::new();
        },
    };
    let map = |span: Span| -> (m: Option<Span>)
        ensures
            m == map_span(document.spec_map(), span),
        { document.map_analysis_span(span) };
    let text = document.text();
    let line_index = document.line_index();
    let r = full_mapped(text, line_index, file, map);
    proof {
        let mapped = choose|mapped: Seq<Option<Span>>|
            {
                &&& mapped.len() == file.span_items@.len()
                &&& forall|i: int|
                    0 <= i < mapped.len() ==> call_ensures(
                        map,
                        (file.span_items@[i].0,),
                        #[trigger] mapped[i],
                    )
                &&& is_encoding_of(
                    r@,
                    spec_tokens(
                        line_index@,
                        text.spec_bytes(),
                        *file,
                        file.span_items@,
                        mapped,
                    ),
                )
            };
        assert(mapped =~= file.span_items@.map_values(
            |item: (Span, SpanItem)| map_span(document.spec_map(), item.0),
        ));
    }
    r
}

} // verus!
