use lalrpop_lsp::analysis::{DiagnosticError, ErrorLoc, GrammarAnalysis, SpanItem, TypeDecl};
use lalrpop_lsp::document::{DocumentUpdate, OccurrenceKind, ParsedDocument};
use lalrpop_lsp::source::SourceText;
use lalrpop_lsp::types::{DiagnosticSeverity, Position, Range, Span};

const VALID_TEXT: &str = "grammar;\nStart: () = { Atom };\nAtom: () = { => () };\n";

fn unit_rule() -> TypeDecl {
    TypeDecl { args: Vec::new(), ret: Some("()".to_owned()) }
}

/// What LALRPOP reports for `VALID_TEXT`.
fn valid_analysis() -> GrammarAnalysis {
    GrammarAnalysis {
        definitions: vec![("Start".to_owned(), Span(9, 14)), ("Atom".to_owned(), Span(31, 35))],
        references: vec![("Atom".to_owned(), vec![Span(23, 27)])],
        definition_type_decls: vec![("Start".to_owned(), unit_rule()), ("Atom".to_owned(), unit_rule())],
        span_items: vec![
            (Span(0, 8), SpanItem::Grammar),
            (Span(9, 14), SpanItem::Definition("Start".to_owned())),
            (Span(23, 27), SpanItem::Reference("Atom".to_owned())),
            (Span(31, 35), SpanItem::Definition("Atom".to_owned())),
        ],
    }
}

fn grammar_only_analysis() -> GrammarAnalysis {
    GrammarAnalysis {
        definitions: Vec::new(),
        references: Vec::new(),
        definition_type_decls: Vec::new(),
        span_items: vec![(Span(0, 8), SpanItem::Grammar)],
    }
}

fn parse_error(line: usize, column: usize) -> DiagnosticError {
    DiagnosticError { loc: ErrorLoc::Point(line, column), message: "unexpected token".to_owned() }
}

/// The innermost span item of `file` that holds `offset`.
fn closest_hit(file: &GrammarAnalysis, offset: usize) -> Option<(Span, SpanItem)> {
    file.span_items
        .iter()
        .filter(|(span, _)| span.0 <= offset && offset <= span.1)
        .min_by_key(|(span, _)| span.1 - span.0)
        .cloned()
}

fn valid_document() -> ParsedDocument {
    ParsedDocument::new(DocumentUpdate::new(1, VALID_TEXT.to_owned(), Ok(valid_analysis()))).0
}

#[test]
fn rejects_stale_document_versions() {
    let mut document = valid_document();
    let stale = DocumentUpdate::new(1, "grammar;".to_owned(), Ok(grammar_only_analysis()));

    assert_eq!(document.apply(stale), None);
    assert_eq!(document.version(), 1);
    assert!(document.definition_span("Atom").is_some());
}

#[test]
fn retains_analysis_for_unchanged_regions_after_parse_errors() {
    let mut document = valid_document();
    let invalid = "grammar;\n?\nStart: () = { Atom };\nAtom: () = { => () };\n";
    let diagnostics = document
        .apply(DocumentUpdate::new(2, invalid.to_owned(), Err(parse_error(1, 0))))
        .expect("new update");

    assert_eq!(diagnostics.len(), 1);
    assert_eq!(document.version(), 2);
    assert_eq!(document.definition_span("Atom"), Some(Span(33, 37)));
    let analysis = valid_analysis();
    let hit = document
        .symbol_at(Position::new(2, 16), |offset| closest_hit(&analysis, offset))
        .expect("unchanged reference should remain available");
    assert!(matches!(hit.item, SpanItem::Reference(ref name) if name == "Atom"));
}

#[test]
fn hides_analysis_spans_overlapping_an_invalid_edit() {
    let mut document = valid_document();
    let invalid = "grammar;\nSta?rt: () = { Atom };\nAtom: () = { => () };\n";
    document
        .apply(DocumentUpdate::new(2, invalid.to_owned(), Err(parse_error(1, 3))))
        .expect("new update");

    assert_eq!(document.definition_span("Start"), None);
    assert!(document.definition_span("Atom").is_some());
}

#[test]
fn diagnostics_use_utf16_positions() {
    let source = SourceText::new("😀?".to_owned());
    let range = source
        .error_range(&ErrorLoc::Point(0, 4))
        .expect("valid diagnostic range");

    assert_eq!(range, Range::new(Position::new(0, 2), Position::new(0, 3)));
}

#[test]
fn diagnostics_translate_lalrpop_coordinates_before_lsp_line_endings() {
    let source = SourceText::new("a\rb?".to_owned());
    let range = source
        .error_range(&ErrorLoc::Point(0, 3))
        .expect("valid diagnostic range");

    assert_eq!(range, Range::new(Position::new(1, 1), Position::new(1, 2)));
}

#[test]
fn lalrpop_offsets_count_lines_by_newline_and_clamp_columns() {
    let source = SourceText::new("ab\ncd\r\nef".to_owned());

    assert_eq!(source.lalrpop_offset(0, 1), Some(1));
    assert_eq!(source.lalrpop_offset(0, 9), Some(2));
    assert_eq!(source.lalrpop_offset(1, 0), Some(3));
    assert_eq!(source.lalrpop_offset(1, 9), Some(6));
    assert_eq!(source.lalrpop_offset(2, 1), Some(8));
    assert_eq!(source.lalrpop_offset(3, 0), None);
    assert_eq!(source.lalrpop_offset(1, usize::MAX), None);
}

#[test]
fn lalrpop_offsets_inside_characters_are_rejected() {
    let source = SourceText::new("é".to_owned());

    assert_eq!(source.lalrpop_offset(0, 1), None);
    assert_eq!(source.lalrpop_offset(0, 2), Some(2));
}

#[test]
fn span_error_locations_cover_their_span() {
    let source = SourceText::new("ab\ncdé".to_owned());
    let range = source
        .error_range(&ErrorLoc::Span { lo: (0, 1), hi: (1, 4) })
        .expect("valid diagnostic range");

    assert_eq!(range, Range::new(Position::new(0, 1), Position::new(1, 3)));
    assert_eq!(source.error_range(&ErrorLoc::Span { lo: (0, 1), hi: (5, 0) }), None);
}

#[test]
fn point_errors_at_the_end_cover_nothing() {
    let source = SourceText::new("ab".to_owned());
    let range = source.error_range(&ErrorLoc::Point(0, 2)).expect("valid diagnostic range");

    assert_eq!(range, Range::new(Position::new(0, 2), Position::new(0, 2)));
}

#[test]
fn diagnostics_outside_the_text_start_at_the_origin() {
    let source = SourceText::new("ab".to_owned());
    let diagnostic = source.diagnostic(parse_error(4, 0));

    assert_eq!(diagnostic.range, Range::new(Position::new(0, 0), Position::new(0, 0)));
    assert_eq!(diagnostic.severity, Some(DiagnosticSeverity::Error));
    assert_eq!(diagnostic.source.as_deref(), Some("lalrpop"));
    assert_eq!(diagnostic.message, "unexpected token");
}

#[test]
fn a_valid_update_replaces_the_analysis() {
    let mut document = ParsedDocument::new(DocumentUpdate::new(
        1,
        "grammar;".to_owned(),
        Ok(grammar_only_analysis()),
    ))
    .0;
    assert_eq!(document.definition_span("Atom"), None);

    let diagnostics = document
        .apply(DocumentUpdate::new(3, VALID_TEXT.to_owned(), Ok(valid_analysis())))
        .expect("new update");

    assert!(diagnostics.is_empty());
    assert_eq!(document.version(), 3);
    assert_eq!(document.text(), VALID_TEXT);
    assert_eq!(document.definition_span("Atom"), Some(Span(31, 35)));
    assert_eq!(document.reference_spans("Atom"), vec![Span(23, 27)]);
}

#[test]
fn an_invalid_first_version_has_no_analysis() {
    let (document, diagnostics) = ParsedDocument::new(DocumentUpdate::new(
        1,
        "grammar;\n?".to_owned(),
        Err(parse_error(1, 0)),
    ));

    assert_eq!(diagnostics.len(), 1);
    assert_eq!(diagnostics[0].range, Range::new(Position::new(1, 0), Position::new(1, 1)));
    assert!(document.analysis_file().is_none());
    assert_eq!(document.definition_span("Atom"), None);
    assert!(document.reference_spans("Atom").is_empty());
    assert!(document.definitions().is_empty());
    assert!(document.symbol_at(Position::new(0, 0), |_| None).is_none());
}

#[test]
fn occurrences_are_ordered_by_span() {
    let document = valid_document();
    let occurrences = document.occurrences("Atom");

    assert_eq!(occurrences.len(), 2);
    assert_eq!(occurrences[0].span, Span(23, 27));
    assert_eq!(occurrences[0].kind, OccurrenceKind::Reference);
    assert_eq!(occurrences[1].span, Span(31, 35));
    assert_eq!(occurrences[1].kind, OccurrenceKind::Definition);
}

#[test]
fn definitions_are_ordered_by_span_and_skip_edited_ones() {
    let mut document = valid_document();
    let definitions = document.definitions();
    assert_eq!(
        definitions,
        vec![("Start".to_owned(), Span(9, 14)), ("Atom".to_owned(), Span(31, 35))]
    );

    let invalid = "grammar;\nSta?rt: () = { Atom };\nAtom: () = { => () };\n";
    document.apply(DocumentUpdate::new(2, invalid.to_owned(), Err(parse_error(1, 3))));
    assert_eq!(document.definitions(), vec![("Atom".to_owned(), Span(32, 36))]);
}

#[test]
fn definition_sources_come_from_the_analysed_text() {
    let mut document = valid_document();
    let invalid = "grammar;\n?\nStart: () = { Atom };\nAtom: () = { => () };\n";
    document.apply(DocumentUpdate::new(2, invalid.to_owned(), Err(parse_error(1, 0))));

    assert_eq!(document.definition_source("Atom"), Some("Atom"));
    assert_eq!(document.definition_source("Missing"), None);
    assert_eq!(document.type_decl("Atom").and_then(|decl| decl.ret.clone()), Some("()".to_owned()));
    assert!(document.type_decl("Missing").is_none());
}

#[test]
fn document_ranges_use_the_current_text() {
    let mut document = valid_document();
    let invalid = "grammar;\n?\nStart: () = { Atom };\nAtom: () = { => () };\n";
    document.apply(DocumentUpdate::new(2, invalid.to_owned(), Err(parse_error(1, 0))));

    let span = document.definition_span("Atom").unwrap();
    assert_eq!(
        document.range(span),
        Some(Range::new(Position::new(3, 0), Position::new(3, 4)))
    );
    assert_eq!(document.map_analysis_span(Span(31, 35)), Some(Span(33, 37)));
}

#[test]
fn analyses_name_each_nonterminal_once() {
    assert!(valid_analysis().is_well_formed());
    assert!(grammar_only_analysis().is_well_formed());

    let mut repeated = valid_analysis();
    repeated.definitions.push(("Atom".to_owned(), Span(40, 44)));
    assert!(!repeated.is_well_formed());

    let mut repeated = valid_analysis();
    repeated.definition_type_decls.push(("Start".to_owned(), unit_rule()));
    assert!(!repeated.is_well_formed());
}
