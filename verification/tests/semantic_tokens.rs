use lalrpop_lsp::analysis::{GrammarAnalysis, SpanItem, TypeDecl};
use lalrpop_lsp::line_index::LineIndex;
use lalrpop_lsp::semantic_tokens::{
    full, full_mapped, legend, SemanticToken, DECLARATION_MODIFIER, FUNCTION_TOKEN, MACRO_TOKEN,
};
use lalrpop_lsp::types::Span;

fn rule(args: &[&str], ret: &str) -> TypeDecl {
    TypeDecl { args: args.iter().map(|a| a.to_string()).collect(), ret: Some(ret.to_owned()) }
}

fn definition(name: &str, start: usize) -> (Span, SpanItem) {
    (Span(start, start + name.len()), SpanItem::Definition(name.to_owned()))
}

fn reference(name: &str, start: usize) -> (Span, SpanItem) {
    (Span(start, start + name.len()), SpanItem::Reference(name.to_owned()))
}

/// What LALRPOP reports for a grammar whose rules `Start` and `Atom` are
/// plain, `Wrap` is a macro, and whose span items are `items`.
fn analysis(items: Vec<(Span, SpanItem)>, with_wrap: bool) -> GrammarAnalysis {
    let mut definition_type_decls = vec![("Start".to_owned(), rule(&[], "()"))];
    if with_wrap {
        definition_type_decls.push(("Wrap".to_owned(), rule(&["T"], "T")));
    }
    definition_type_decls.push(("Atom".to_owned(), rule(&[], "()")));
    let definitions = items
        .iter()
        .filter_map(|(span, item)| match item {
            SpanItem::Definition(name) => Some((name.clone(), *span)),
            _ => None,
        })
        .collect();
    GrammarAnalysis { definitions, references: Vec::new(), definition_type_decls, span_items: items }
}

fn decode_tokens(tokens: &[SemanticToken]) -> Vec<(u32, u32, u32, u32, u32)> {
    let mut line = 0;
    let mut start = 0;
    tokens
        .iter()
        .map(|token| {
            line += token.delta_line;
            start = if token.delta_line == 0 {
                start + token.delta_start
            } else {
                token.delta_start
            };
            (
                line,
                start,
                token.length,
                token.token_type,
                token.token_modifiers_bitset,
            )
        })
        .collect()
}

#[test]
fn classifies_global_rules_and_macros() {
    let text =
        "grammar;\nStart: () = { Wrap<Atom> };\nWrap<T>: T = { T };\nAtom: () = { => () };\n";
    let file = analysis(
        vec![
            (Span(0, 8), SpanItem::Grammar),
            definition("Start", 9),
            reference("Wrap", 23),
            reference("Atom", 28),
            definition("Wrap", 37),
            reference("T", 46),
            reference("T", 52),
            definition("Atom", 57),
        ],
        true,
    );

    assert_eq!(
        decode_tokens(&full(text, &file)),
        vec![
            (1, 0, 5, FUNCTION_TOKEN, DECLARATION_MODIFIER),
            (1, 14, 4, MACRO_TOKEN, 0),
            (1, 19, 4, FUNCTION_TOKEN, 0),
            (2, 0, 4, MACRO_TOKEN, DECLARATION_MODIFIER),
            (3, 0, 4, FUNCTION_TOKEN, DECLARATION_MODIFIER),
        ]
    );
}

#[test]
fn encodes_utf16_columns() {
    let text = "grammar;\nStart: () = { \"é\" Atom => () };\nAtom: () = { => () };\n";
    let file = analysis(
        vec![
            (Span(0, 8), SpanItem::Grammar),
            definition("Start", 9),
            reference("Atom", 28),
            definition("Atom", 42),
        ],
        false,
    );

    assert_eq!(
        decode_tokens(&full(text, &file)),
        vec![
            (1, 0, 5, FUNCTION_TOKEN, DECLARATION_MODIFIER),
            (1, 18, 4, FUNCTION_TOKEN, 0),
            (2, 0, 4, FUNCTION_TOKEN, DECLARATION_MODIFIER),
        ]
    );
}

#[test]
fn mapped_tokens_use_current_text_positions() {
    let analysis_text = "grammar;\nStart: () = { Atom };\nAtom: () = { => () };\n";
    let current_text = "?\n\ngrammar;\nStart: () = { Atom };\nAtom: () = { => () };\n";
    assert!(analysis_text.len() + 3 == current_text.len());
    let file = analysis(
        vec![
            (Span(0, 8), SpanItem::Grammar),
            definition("Start", 9),
            reference("Atom", 23),
            definition("Atom", 31),
        ],
        false,
    );
    let line_index = LineIndex::new(current_text);

    assert_eq!(
        decode_tokens(&full_mapped(
            current_text,
            &line_index,
            &file,
            |Span(start, end)| Some(Span(start + 3, end + 3)),
        )),
        vec![
            (3, 0, 5, FUNCTION_TOKEN, DECLARATION_MODIFIER),
            (3, 14, 4, FUNCTION_TOKEN, 0),
            (4, 0, 4, FUNCTION_TOKEN, DECLARATION_MODIFIER),
        ]
    );
}

#[test]
fn escaped_definitions_skip_the_backtick() {
    let text = "grammar;\n`Atom`: () = { => () };\n";
    let file = analysis(vec![(Span(9, 15), SpanItem::Definition("Atom".to_owned()))], false);

    assert_eq!(
        decode_tokens(&full(text, &file)),
        vec![(1, 1, 4, FUNCTION_TOKEN, DECLARATION_MODIFIER)]
    );
}

#[test]
fn repeated_and_unmapped_items_give_one_token_or_none() {
    let text = "grammar;\nAtom: () = { => () };\n";
    let file = analysis(
        vec![definition("Atom", 9), definition("Atom", 9), reference("Atom", 0)],
        false,
    );

    let tokens = full(text, &file);
    assert_eq!(decode_tokens(&tokens), vec![(1, 0, 4, FUNCTION_TOKEN, DECLARATION_MODIFIER)]);
    assert_eq!(
        tokens,
        vec![SemanticToken {
            delta_line: 1,
            delta_start: 0,
            length: 4,
            token_type: FUNCTION_TOKEN,
            token_modifiers_bitset: DECLARATION_MODIFIER,
        }]
    );

    let line_index = LineIndex::new(text);
    assert!(full_mapped(text, &line_index, &file, |_| None).is_empty());
}

#[test]
fn relative_encoding_counts_from_the_previous_token() {
    let text = "grammar;\nAtom: () = { Atom Atom };\n";
    let file = analysis(
        vec![definition("Atom", 9), reference("Atom", 22), reference("Atom", 27)],
        false,
    );

    let tokens = full(text, &file);
    let deltas: Vec<(u32, u32)> = tokens.iter().map(|t| (t.delta_line, t.delta_start)).collect();
    assert_eq!(deltas, vec![(1, 0), (0, 13), (0, 5)]);
}

#[test]
fn legend_lists_function_macro_and_declaration() {
    let legend = legend();

    assert_eq!(legend.token_types, vec!["function".to_owned(), "macro".to_owned()]);
    assert_eq!(legend.token_modifiers, vec!["declaration".to_owned()]);
    assert_eq!(FUNCTION_TOKEN, 0);
    assert_eq!(MACRO_TOKEN, 1);
    assert_eq!(DECLARATION_MODIFIER, 1);
}

#[test]
fn tokens_at_one_place_are_encoded_with_no_offset() {
    let text = "grammar;\nAtom: () = { => () };\n";
    let file = analysis(vec![definition("Atom", 9), reference("Atom", 9)], false);

    let tokens = full(text, &file);
    let deltas: Vec<(u32, u32)> = tokens.iter().map(|t| (t.delta_line, t.delta_start)).collect();
    assert_eq!(deltas, vec![(1, 0), (0, 0)]);
    assert_eq!(
        decode_tokens(&tokens),
        vec![(1, 0, 4, FUNCTION_TOKEN, 0), (1, 0, 4, FUNCTION_TOKEN, DECLARATION_MODIFIER)]
    );
}
