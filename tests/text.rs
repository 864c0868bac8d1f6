use kola::edit::{apply_delta, FromLsp, InputEdit, Point};
use kola::error::AnalysisError;
use kola::text::{Document, Position};

fn pos(line: u32, character: u32) -> Position {
    Position { line, character }
}

#[test]
fn char_and_byte_offsets_round_trip() {
    let d = Document::from_str("aé😀\nz");
    assert_eq!(d.len_chars(), 5);
    assert_eq!(d.len_bytes(), 9);
    let expected = [0usize, 1, 3, 7, 8, 9];
    for c in 0..=5usize {
        let b = d.char_to_byte(c).unwrap();
        assert_eq!(b, expected[c]);
        assert_eq!(d.byte_to_char(b).unwrap(), c);
        assert_eq!(d.char_to_byte(d.byte_to_char(b).unwrap()).unwrap(), b);
    }
    // a byte inside a character belongs to that character
    assert_eq!(d.byte_to_char(2).unwrap(), 1);
    assert_eq!(d.byte_to_char(5).unwrap(), 2);
    assert_eq!(d.char_to_byte(6), Err(AnalysisError::RangeError));
    assert_eq!(d.byte_to_char(10), Err(AnalysisError::RangeError));
}

#[test]
fn positions_count_utf16_code_units() {
    let d = Document::from_str("a😀b\ncd");
    assert_eq!(d.position_to_char(pos(0, 0)), Ok(0));
    assert_eq!(d.position_to_char(pos(0, 1)), Ok(1));
    assert_eq!(d.position_to_char(pos(0, 3)), Ok(2));
    assert_eq!(d.position_to_char(pos(0, 4)), Ok(3));
    assert_eq!(d.position_to_char(pos(1, 2)), Ok(6));
    // inside the surrogate pair
    assert_eq!(d.position_to_char(pos(0, 2)), Err(AnalysisError::RangeError));
    // past the end of the line
    assert_eq!(d.position_to_char(pos(0, 5)), Err(AnalysisError::RangeError));
    assert_eq!(d.position_to_char(pos(1, 3)), Err(AnalysisError::RangeError));
    // no such line
    assert_eq!(d.position_to_char(pos(2, 0)), Err(AnalysisError::RangeError));
    assert_eq!(d.char_to_position(2), Ok(pos(0, 3)));
    assert_eq!(d.char_to_position(5), Ok(pos(1, 1)));
    assert_eq!(d.char_to_position(7), Err(AnalysisError::RangeError));
    assert_eq!(d.position_to_byte(pos(0, 3)), Ok(5));
    assert_eq!(d.byte_to_position(6), Ok(pos(0, 4)));
    assert_eq!(d.byte_to_position(3), Ok(pos(0, 1)));
    for c in 0..=6usize {
        let p = d.char_to_position(c).unwrap();
        assert_eq!(d.position_to_char(p), Ok(c));
    }
}

#[test]
fn byte_points() {
    let d = Document::from_str("ké\nxy😀z");
    assert_eq!(d.len_lines(), 2);
    assert_eq!(d.byte_point(2), (0, 3));
    assert_eq!(d.byte_point(3), (1, 0));
    assert_eq!(d.byte_point(6), (1, 6));
    assert_eq!(d.byte_point(7), (1, 7));
}

#[test]
fn insert_and_remove() {
    let mut d = Document::from_str("hello");
    assert_eq!(d.insert(6, "x"), Err(AnalysisError::RangeError));
    assert_eq!(d.remove(3, 2), Err(AnalysisError::RangeError));
    assert_eq!(d.remove(4, 6), Err(AnalysisError::RangeError));
    assert_eq!(d.bytes(), b"hello".to_vec());
    d.insert(5, " wörld").unwrap();
    d.remove(0, 1).unwrap();
    assert_eq!(d.bytes(), "ello wörld".as_bytes().to_vec());
    let copy = d.duplicate();
    assert_eq!(copy.bytes(), d.bytes());
}

#[test]
fn delta_gives_edit_descriptor() {
    let mut d = Document::from_str("fun é() {}\nfun b() {}");
    let e = apply_delta(&mut d, pos(0, 4), pos(1, 4), "ü😀\nfun ").unwrap();
    assert_eq!(d.bytes(), "fun ü😀\nfun b() {}".as_bytes().to_vec());
    assert_eq!(
        e,
        InputEdit {
            start_byte: 4,
            old_end_byte: 16,
            new_end_byte: 15,
            start_position: Point { row: 0, column: 4 },
            old_end_position: Point { row: 1, column: 4 },
            new_end_position: Point { row: 1, column: 4 },
        }
    );
}

#[test]
fn delta_out_of_range_leaves_text() {
    let mut d = Document::from_str("one line");
    assert_eq!(apply_delta(&mut d, pos(0, 0), pos(1000, 0), "x"), Err(AnalysisError::RangeError));
    assert_eq!(apply_delta(&mut d, pos(0, 5), pos(0, 2), "x"), Err(AnalysisError::RangeError));
    assert_eq!(d.bytes(), b"one line".to_vec());
}

#[test]
fn point_from_protocol_position() {
    assert_eq!(Point::from_lsp(pos(3, 7)), Point { row: 3, column: 7 });
}
