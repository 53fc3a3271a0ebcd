use lalrpop_lsp::line_index::LineIndex;
use lalrpop_lsp::types::Position;

#[test]
fn converts_utf8_offsets_to_utf16_positions() {
    let text = "a😀é\nβ";
    let index = LineIndex::new(text);

    assert_eq!(index.position(text, 0), Some(Position::new(0, 0)));
    assert_eq!(index.position(text, 1), Some(Position::new(0, 1)));
    assert_eq!(index.position(text, 5), Some(Position::new(0, 3)));
    assert_eq!(index.position(text, 7), Some(Position::new(0, 4)));
    assert_eq!(index.position(text, 8), Some(Position::new(1, 0)));
    assert_eq!(index.position(text, 10), Some(Position::new(1, 1)));

    assert_eq!(index.offset(text, Position::new(0, 0)), Some(0));
    assert_eq!(index.offset(text, Position::new(0, 1)), Some(1));
    assert_eq!(index.offset(text, Position::new(0, 3)), Some(5));
    assert_eq!(index.offset(text, Position::new(0, 4)), Some(7));
    assert_eq!(index.offset(text, Position::new(1, 1)), Some(10));
}

#[test]
fn rejects_surrogate_pair_interiors_and_clamps_long_lines() {
    let text = "a😀";
    let index = LineIndex::new(text);

    assert_eq!(index.offset(text, Position::new(0, 2)), None);
    assert_eq!(index.offset(text, Position::new(0, 99)), Some(text.len()));
    assert_eq!(index.offset(text, Position::new(1, 0)), None);
}

#[test]
fn handles_all_lsp_line_endings() {
    let text = "a\r\nb\rc\n";
    let index = LineIndex::new(text);

    assert_eq!(index.position(text, 1), Some(Position::new(0, 1)));
    assert_eq!(index.position(text, 2), Some(Position::new(0, 1)));
    assert_eq!(index.position(text, 3), Some(Position::new(1, 0)));
    assert_eq!(index.position(text, 5), Some(Position::new(2, 0)));
    assert_eq!(index.position(text, 7), Some(Position::new(3, 0)));
}

#[test]
fn positions_inside_characters_have_no_position() {
    let text = "a😀é";
    let index = LineIndex::new(text);

    assert_eq!(index.position(text, 2), None);
    assert_eq!(index.position(text, 3), None);
    assert_eq!(index.position(text, 6), None);
    assert_eq!(index.position(text, text.len() + 1), None);
}

#[test]
fn line_bounds_exclude_terminators() {
    let text = "ab\r\ncd\ref\ngh";
    let index = LineIndex::new(text);

    assert_eq!(index.line_bounds(text, 0), Some((0, 2)));
    assert_eq!(index.line_bounds(text, 1), Some((4, 6)));
    assert_eq!(index.line_bounds(text, 2), Some((7, 9)));
    assert_eq!(index.line_bounds(text, 3), Some((10, 12)));
    assert_eq!(index.line_bounds(text, 4), None);
}

#[test]
fn empty_text_has_one_empty_line() {
    let text = "";
    let index = LineIndex::new(text);

    assert_eq!(index.line_bounds(text, 0), Some((0, 0)));
    assert_eq!(index.position(text, 0), Some(Position::new(0, 0)));
    assert_eq!(index.offset(text, Position::new(0, 5)), Some(0));
    assert_eq!(index.offset(text, Position::new(1, 0)), None);
}

#[test]
fn offsets_and_positions_round_trip() {
    let text = "x😀y\r\nβγ\rz\n";
    let index = LineIndex::new(text);

    for offset in 0..=text.len() {
        if !text.is_char_boundary(offset) {
            continue;
        }
        let position = index.position(text, offset).expect("boundary has a position");
        let back = index.offset(text, position).expect("position has an offset");
        let (_, line_end) = index.line_bounds(text, position.line as usize).unwrap();
        if offset <= line_end {
            assert_eq!(back, offset);
        } else {
            assert_eq!(back, line_end);
        }
    }
}

#[test]
fn positions_past_the_line_end_clamp_to_the_line_end() {
    let text = "ab\ncd";
    let index = LineIndex::new(text);

    assert_eq!(index.offset(text, Position::new(0, 7)), Some(2));
    assert_eq!(index.offset(text, Position::new(1, 2)), Some(5));
    assert_eq!(index.offset(text, Position::new(1, 9)), Some(5));
}
