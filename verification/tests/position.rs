use neon_lsp::position::{LineIndex, Position};

#[test]
fn a_multibyte_line_counts_utf16_units_not_bytes() {
    // "é" is two bytes and one UTF-16 unit; the emoji is four bytes and two units, being
    // outside the basic plane.
    let idx = LineIndex::new("é🙂x");
    let offset = "é🙂".len();
    assert_eq!(idx.position(offset), Position { line: 0, character: 3 });
}

#[test]
fn positions_are_relative_to_their_own_line() {
    let idx = LineIndex::new("ab\ncd\nef");
    assert_eq!(idx.position(4), Position { line: 1, character: 1 });
    assert_eq!(idx.position(6), Position { line: 2, character: 0 });
}

#[test]
fn an_offset_past_the_end_clamps() {
    let idx = LineIndex::new("ab\n");
    assert_eq!(idx.position(999), idx.position("ab\n".len()));
}

#[test]
fn offsets_and_positions_round_trip() {
    let text = "fn f() {\n  let é = \"🙂\";\n  é\n}\n";
    let idx = LineIndex::new(text);
    for offset in text.char_indices().map(|(i, _)| i) {
        assert_eq!(idx.offset(idx.position(offset)), offset, "offset {offset} drifted");
    }
}

#[test]
fn a_character_index_counts_utf16_units_not_bytes() {
    let idx = LineIndex::new("é🙂x");
    assert_eq!(idx.offset(Position { line: 0, character: 3 }), "é🙂".len());
}

#[test]
fn a_character_past_the_end_of_a_line_stops_at_the_line_end() {
    let idx = LineIndex::new("ab\ncd");
    assert_eq!(idx.offset(Position { line: 0, character: 99 }), 3);
}

#[test]
fn a_line_that_does_not_exist_clamps_to_the_end() {
    let idx = LineIndex::new("ab\n");
    assert_eq!(idx.offset(Position { line: 99, character: 0 }), 3);
}

#[test]
fn a_position_inside_a_surrogate_pair_moves_past_the_character() {
    // Character 2 is the middle of the emoji's two units.
    let idx = LineIndex::new("é🙂x");
    assert_eq!(idx.offset(Position { line: 0, character: 2 }), "é🙂".len());
}

#[test]
fn an_empty_text_has_one_position() {
    let idx = LineIndex::new("");
    assert_eq!(idx.position(0), Position { line: 0, character: 0 });
    assert_eq!(idx.position(7), Position { line: 0, character: 0 });
    assert_eq!(idx.offset(Position { line: 0, character: 5 }), 0);
    assert_eq!(idx.text(), "");
}

#[test]
fn the_end_of_a_text_that_ends_in_a_newline_is_on_a_line_of_its_own() {
    let idx = LineIndex::new("ab\n");
    assert_eq!(idx.position(3), Position { line: 1, character: 0 });
    assert_eq!(idx.offset(Position { line: 1, character: 0 }), 3);
}

#[test]
fn a_carriage_return_is_an_ordinary_character() {
    let idx = LineIndex::new("a\r\nb");
    assert_eq!(idx.position(2), Position { line: 0, character: 2 });
    assert_eq!(idx.position(3), Position { line: 1, character: 0 });
}

#[test]
fn positions_keep_the_order_of_offsets() {
    let text = "aé\n\n🙂b\nc";
    let idx = LineIndex::new(text);
    let all: Vec<Position> = text.char_indices().map(|(i, _)| idx.position(i)).collect();
    for pair in all.windows(2) {
        let (a, b) = (pair[0], pair[1]);
        assert!(a.line < b.line || (a.line == b.line && a.character < b.character));
    }
}
