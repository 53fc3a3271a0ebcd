use lalrpop_lsp::analysis::{DiagnosticError, ErrorLoc, GrammarAnalysis, SpanItem, TypeDecl};
use lalrpop_lsp::document::{DocumentUpdate, ParsedDocument, SymbolHit};
use lalrpop_lsp::semantic_tokens::{DECLARATION_MODIFIER, FUNCTION_TOKEN, MACRO_TOKEN};
use lalrpop_lsp::server::{
    document_symbols, goto_definition, hover, hover_markup, hover_signature, references,
    semantic_tokens, GotoDefinitionResponse, MarkupKind,
};
use lalrpop_lsp::types::{Position, Range, Span};

const TEXT: &str = "grammar;\nStart: () = { Wrap<Atom> };\nWrap<T>: T = { T };\nAtom: () = { => () };\n";

fn rule(args: &[&str], ret: Option<&str>) -> TypeDecl {
    TypeDecl { args: args.iter().map(|a| a.to_string()).collect(), ret: ret.map(str::to_owned) }
}

/// What LALRPOP reports for `TEXT`.
fn text_analysis() -> GrammarAnalysis {
    GrammarAnalysis {
        definitions: vec![
            ("Start".to_owned(), Span(9, 14)),
            ("Wrap".to_owned(), Span(37, 44)),
            ("Atom".to_owned(), Span(57, 61)),
        ],
        references: vec![
            ("Wrap".to_owned(), vec![Span(23, 27)]),
            ("Atom".to_owned(), vec![Span(28, 32)]),
            ("Start".to_owned(), Vec::new()),
        ],
        definition_type_decls: vec![
            ("Start".to_owned(), rule(&[], Some("()"))),
            ("Wrap".to_owned(), rule(&["T"], Some("T"))),
            ("Atom".to_owned(), rule(&[], None)),
        ],
        span_items: vec![
            (Span(0, 8), SpanItem::Grammar),
            (Span(9, 14), SpanItem::Definition("Start".to_owned())),
            (Span(23, 27), SpanItem::Reference("Wrap".to_owned())),
            (Span(28, 32), SpanItem::Reference("Atom".to_owned())),
            (Span(37, 44), SpanItem::Definition("Wrap".to_owned())),
            (Span(57, 61), SpanItem::Definition("Atom".to_owned())),
        ],
    }
}

fn document() -> ParsedDocument {
    ParsedDocument::new(DocumentUpdate::new(1, TEXT.to_owned(), Ok(text_analysis()))).0
}

fn hit(span: Span, item: SpanItem) -> SymbolHit {
    SymbolHit { span, item }
}

#[test]
fn hover_signatures_are_lalrpop_fragments() {
    let markup = hover_signature("String", ": String");

    assert_eq!(markup.kind, MarkupKind::Markdown);
    assert_eq!(markup.value, "```LALRPOP\nString: String\n```");
}

#[test]
fn hover_markup_falls_back_to_the_name_and_parameters() {
    let markup = hover_markup("Pair", &rule(&["A", "B"], Some("(A, B)")), None);
    assert_eq!(markup.value, "```LALRPOP\nPair<A, B>: (A, B)\n```");

    let markup = hover_markup("Atom", &rule(&[], None), None);
    assert_eq!(markup.value, "```LALRPOP\nAtom\n```");

    let markup = hover_markup("Wrap", &rule(&["T"], Some("T")), Some("Wrap<T>"));
    assert_eq!(markup.value, "```LALRPOP\nWrap<T>: T\n```");
}

#[test]
fn hover_shows_the_definition_text_and_type() {
    let document = document();
    let answer = hover(&document, &hit(Span(23, 27), SpanItem::Reference("Wrap".to_owned())))
        .expect("a hover for a rule");

    assert_eq!(answer.contents.kind, MarkupKind::Markdown);
    assert_eq!(answer.contents.value, "```LALRPOP\nWrap<T>: T\n```");
    assert_eq!(answer.range, Some(Range::new(Position::new(1, 14), Position::new(1, 18))));
    assert!(hover(&document, &hit(Span(0, 8), SpanItem::Grammar)).is_none());
    assert!(hover(&document, &hit(Span(46, 47), SpanItem::Reference("T".to_owned()))).is_none());
}

#[test]
fn goto_definition_leads_from_references_to_definitions_and_back() {
    let document = document();

    match goto_definition(&document, &hit(Span(28, 32), SpanItem::Reference("Atom".to_owned()))) {
        Some(GotoDefinitionResponse::Scalar(range)) => {
            assert_eq!(range, Range::new(Position::new(3, 0), Position::new(3, 4)))
        }
        other => panic!("unexpected answer {:?}", other),
    }
    match goto_definition(&document, &hit(Span(57, 61), SpanItem::Definition("Atom".to_owned()))) {
        Some(GotoDefinitionResponse::Array(ranges)) => {
            assert_eq!(ranges, vec![Range::new(Position::new(1, 19), Position::new(1, 23))])
        }
        other => panic!("unexpected answer {:?}", other),
    }
    assert!(goto_definition(&document, &hit(Span(0, 8), SpanItem::Grammar)).is_none());
    assert!(goto_definition(&document, &hit(Span(0, 1), SpanItem::Definition("Nope".to_owned())))
        .is_none());
}

#[test]
fn references_are_listed_only_for_definitions() {
    let document = document();

    assert_eq!(
        references(&document, &hit(Span(37, 44), SpanItem::Definition("Wrap".to_owned()))),
        Some(vec![Range::new(Position::new(1, 14), Position::new(1, 18))])
    );
    assert_eq!(
        references(&document, &hit(Span(9, 14), SpanItem::Definition("Start".to_owned()))),
        Some(Vec::new())
    );
    assert_eq!(references(&document, &hit(Span(23, 27), SpanItem::Reference("Wrap".to_owned()))), None);
}

#[test]
fn document_symbols_list_definitions_in_order() {
    let document = document();
    let symbols: Vec<(String, Range)> = document_symbols(&document);

    assert_eq!(
        symbols,
        vec![
            ("Start".to_owned(), Range::new(Position::new(1, 0), Position::new(1, 5))),
            ("Wrap".to_owned(), Range::new(Position::new(2, 0), Position::new(2, 7))),
            ("Atom".to_owned(), Range::new(Position::new(3, 0), Position::new(3, 4))),
        ]
    );
}

#[test]
fn semantic_tokens_follow_the_current_text() {
    let mut document = document();
    let edited = format!("?\n{}", TEXT);
    document.apply(DocumentUpdate::new(
        2,
        edited,
        Err(DiagnosticError { loc: ErrorLoc::Point(0, 0), message: "unexpected token".to_owned() }),
    ));

    let tokens = semantic_tokens(&document);
    let first = tokens[0];
    assert_eq!(first.delta_line, 2);
    assert_eq!(first.token_type, FUNCTION_TOKEN);
    assert_eq!(first.token_modifiers_bitset, DECLARATION_MODIFIER);
    assert_eq!(tokens.len(), 5);
    assert_eq!(tokens[1].token_type, MACRO_TOKEN);

    let empty = ParsedDocument::new(DocumentUpdate::new(
        1,
        "?".to_owned(),
        Err(DiagnosticError { loc: ErrorLoc::Point(0, 0), message: "unexpected token".to_owned() }),
    ))
    .0;
    assert!(semantic_tokens(&empty).is_empty());
}
