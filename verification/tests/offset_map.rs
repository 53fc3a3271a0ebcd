use lalrpop_lsp::offset_map::OffsetMap;
use lalrpop_lsp::types::Span;

#[test]
fn offset_map_only_maps_unchanged_prefixes_and_suffixes() {
    let map = OffsetMap::between("abc middle xyz", "abc changed xyz");

    assert_eq!(map.current_to_analysis(2), Some(2));
    assert_eq!(map.current_to_analysis(6), None);
    assert_eq!(map.current_to_analysis(12), Some(11));
    assert_eq!(map.analysis_span_to_current(Span(0, 3)), Some(Span(0, 3)));
    assert_eq!(map.analysis_span_to_current(Span(4, 10)), None);
    assert_eq!(
        map.analysis_span_to_current(Span(11, 14)),
        Some(Span(12, 15))
    );
}

#[test]
fn identical_texts_map_every_span_to_itself() {
    let text = "grammar;\nStart: () = { Atom };\n";
    let map = OffsetMap::between(text, text);

    assert_eq!(map.common_prefix, text.len());
    assert_eq!(map.analysis_suffix_start, text.len());
    assert_eq!(map.current_suffix_start, text.len());
    assert_eq!(map.analysis_span_to_current(Span(9, 14)), Some(Span(9, 14)));
    assert_eq!(map.current_to_analysis(17), Some(17));
}

#[test]
fn shared_prefix_and_suffix_stop_at_character_boundaries() {
    // "é" and "è" share their first UTF-8 byte, which is not a whole character.
    let map = OffsetMap::between("xé", "xè");

    assert_eq!(map.common_prefix, 1);
    assert_eq!(map.analysis_suffix_start, 3);
    assert_eq!(map.current_suffix_start, 3);
    assert_eq!(map.analysis_span_to_current(Span(1, 3)), None);
}

#[test]
fn mapped_spans_cover_the_same_text() {
    let analysis = "one two three";
    let current = "one 2 three";
    let map = OffsetMap::between(analysis, current);

    let span = Span(8, 13);
    let mapped = map.analysis_span_to_current(span).unwrap();
    assert_eq!(&analysis[span.0..span.1], &current[mapped.0..mapped.1]);
    assert_eq!(map.analysis_span_to_current(Span(4, 7)), None);
}
